//! Decoding what encoding wrote gives back what was written.
use vstd::prelude::*;
use vstd::utf8::{encode_utf8, encode_utf8_decode_utf8, encode_utf8_valid_utf8};

use crate::bye::{bye_payload_bytes, bye_payload_unpadded, reason_bytes, spec_read_bye, spec_read_reason};
use crate::chunk::{
    ChunkView, PacketStatusSymbol, chunk_symbols, chunks_symbols, lemma_chunk_round_trip, min,
    spec_encode_chunk,
};
use crate::fb_header::{RtcpFbHeader, fb_header_bytes, lemma_fb_header_round_trip};
use crate::fir::{RtcpFbFirFci, fci_bytes, fcis_bytes, spec_read_fcis};
use crate::header::{
    RtcpHeader, header_bytes, lemma_header_round_trip, spec_payload_length, spec_read_header,
};
use crate::nack::{
    blocks_bytes, greedy_chunks, lemma_blocks_decode, lemma_blocks_union_greedy,
    lemma_greedy_chunks, sorted_unique,
};
use crate::packer::{chunks_ok, lemma_chunks_symbols_front, lemma_pack, spec_pack};
use crate::packet::{
    PacketView, SomeRtcpPacket, single_view, single_writable, spec_read_packets, spec_read_payload,
    spec_read_rtcp, spec_read_single, spec_write_all, spec_write_single, views_of,
};
use crate::report::{
    RtcpReportBlock, RtcpSenderInfo, blocks_wf, report_block_bytes, report_blocks_bytes,
    sender_info_bytes, spec_read_report_block, spec_read_report_blocks, spec_read_sender_info,
    u32_at,
};
use crate::sdes::{
    SdesItemView, items_fit, sdes_chunk_bytes, sdes_chunks_bytes, sdes_item_bytes, sdes_item_fits,
    sdes_items_bytes, spec_read_sdes_chunk, spec_read_sdes_chunks, spec_read_sdes_item,
    spec_read_sdes_items,
};
use crate::tcc::{
    PacketReport, TccBody, base_seq_of, chunk_words_bytes, consecutive, delta_bytes, deltas_bytes,
    next_seq, report_seq_num, report_symbol, report_symbols, spec_read_reports, spec_read_status,
    spec_read_tcc_body, spec_tcc_write_error, tcc_body_bytes, tcc_body_unpadded,
};
use crate::wire::{
    be16, be24, lemma_u16_bytes, lemma_u24_bytes, lemma_u32_bytes, lemma_u32s_len, pad_len,
    spec_consume_padding, spec_read_u32s, u16_bytes, u24_bytes, u32_bytes, u32s_bytes, zeros,
};

verus! {

/// A packet framed by a header whose length field counts its payload decodes
/// as its payload does, and the next packet starts right after it.
pub proof fn lemma_frame(h: RtcpHeader, payload: Seq<u8>, rest: Seq<u8>)
    requires
        h.wf(),
        h.version == 2,
        h.length_field * 4 == payload.len(),
        payload.len() <= 65532,
    ensures
        spec_read_single(header_bytes(h) + payload + rest, 0) == match spec_read_payload(h, payload) {
            Ok(v) => Ok::<(PacketView, int), crate::error::RtcpError>((v, 4 + payload.len() as int)),
            Err(e) => Err(e),
        },
{
    let s = header_bytes(h) + payload + rest;
    assert(s =~= header_bytes(h) + (payload + rest));
    lemma_header_round_trip(h, payload + rest);
    assert(spec_payload_length(h.length_field) == Ok::<u16, crate::error::RtcpError>(
        payload.len() as u16,
    ));
    assert(header_bytes(h).len() == 4);
    assert(s.subrange(4, 4 + payload.len() as int) =~= payload);
}

proof fn lemma_u32s_front(v: Seq<u32>)
    requires
        v.len() >= 1,
    ensures
        u32s_bytes(v) == u32_bytes(v[0]) + u32s_bytes(v.drop_first()),
    decreases v.len(),
{
    if v.len() == 1 {
        assert(v.drop_last() =~= Seq::<u32>::empty());
        assert(v.drop_first() =~= Seq::<u32>::empty());
        assert(u32s_bytes(v) =~= u32_bytes(v[0]) + u32s_bytes(v.drop_first()));
    } else {
        lemma_u32s_front(v.drop_last());
        assert(v.drop_last().drop_first() =~= v.drop_first().drop_last());
        assert(v.drop_first().last() == v.last());
        assert(u32s_bytes(v) =~= u32_bytes(v[0]) + u32s_bytes(v.drop_first()));
    }
}

/// Words written one after another read back as the same words.
pub proof fn lemma_u32s_read(v: Seq<u32>, prefix: Seq<u8>, rest: Seq<u8>)
    ensures
        spec_read_u32s(prefix + u32s_bytes(v) + rest, prefix.len() as int, v.len()) == Ok::<
            (Seq<u32>, int),
            crate::error::RtcpError,
        >((v, prefix.len() + 4 * v.len() as int)),
    decreases v.len(),
{
    let s = prefix + u32s_bytes(v) + rest;
    let p = prefix.len() as int;
    if v.len() == 0 {
        assert(v =~= Seq::<u32>::empty());
    } else {
        lemma_u32s_front(v);
        let prefix2 = prefix + u32_bytes(v[0]);
        lemma_u32s_read(v.drop_first(), prefix2, rest);
        assert(s =~= prefix2 + u32s_bytes(v.drop_first()) + rest);
        lemma_u32_bytes(v[0]);
        assert(s[p] == u32_bytes(v[0])[0]);
        assert(s[p + 1] == u32_bytes(v[0])[1]);
        assert(s[p + 2] == u32_bytes(v[0])[2]);
        assert(s[p + 3] == u32_bytes(v[0])[3]);
        assert(seq![v[0]] + v.drop_first() =~= v);
        lemma_u32s_len(v.drop_first());
        assert(prefix2.len() == p + 4);
        assert(spec_read_u32s(s, p + 4, (v.len() - 1) as nat) == Ok::<
            (Seq<u32>, int),
            crate::error::RtcpError,
        >((v.drop_first(), p + 4 + 4 * (v.len() - 1))));
    }
}

proof fn lemma_fcis_front(v: Seq<RtcpFbFirFci>)
    requires
        v.len() >= 1,
    ensures
        fcis_bytes(v) == fci_bytes(v[0]) + fcis_bytes(v.drop_first()),
    decreases v.len(),
{
    if v.len() == 1 {
        assert(v.drop_last() =~= Seq::<RtcpFbFirFci>::empty());
        assert(v.drop_first() =~= Seq::<RtcpFbFirFci>::empty());
        assert(fcis_bytes(v) =~= fci_bytes(v[0]) + fcis_bytes(v.drop_first()));
    } else {
        lemma_fcis_front(v.drop_last());
        assert(v.drop_last().drop_first() =~= v.drop_first().drop_last());
        assert(v.drop_first().last() == v.last());
        assert(fcis_bytes(v) =~= fci_bytes(v[0]) + fcis_bytes(v.drop_first()));
    }
}

/// FIR entries written one after another read back as the same entries.
pub proof fn lemma_fcis_read(v: Seq<RtcpFbFirFci>, prefix: Seq<u8>)
    ensures
        spec_read_fcis(prefix + fcis_bytes(v), prefix.len() as int) == Ok::<
            (Seq<RtcpFbFirFci>, int),
            crate::error::RtcpError,
        >((v, prefix.len() + 8 * v.len() as int)),
        fcis_bytes(v).len() == 8 * v.len(),
    decreases v.len(),
{
    let s = prefix + fcis_bytes(v);
    let p = prefix.len() as int;
    if v.len() == 0 {
        assert(s =~= prefix);
        assert(v =~= Seq::<RtcpFbFirFci>::empty());
    } else {
        lemma_fcis_front(v);
        let prefix2 = prefix + fci_bytes(v[0]);
        lemma_fcis_read(v.drop_first(), prefix2);
        assert(s =~= prefix2 + fcis_bytes(v.drop_first()));
        lemma_u32_bytes(v[0].ssrc);
        lemma_u24_bytes(0);
        assert(s[p] == u32_bytes(v[0].ssrc)[0]);
        assert(s[p + 1] == u32_bytes(v[0].ssrc)[1]);
        assert(s[p + 2] == u32_bytes(v[0].ssrc)[2]);
        assert(s[p + 3] == u32_bytes(v[0].ssrc)[3]);
        assert(s[p + 4] == v[0].seq_num);
        assert(seq![v[0]] + v.drop_first() =~= v);
        assert(fci_bytes(v[0]).len() == 8);
        assert(prefix2.len() == p + 8);
    }
}

/// A NACK packet with a synchronised header decodes from its wire form to
/// its header, its feedback header and its set of sequence numbers.
pub proof fn lemma_nack_round_trip(h: RtcpHeader, fb: RtcpFbHeader, missing: Seq<u16>, rest: Seq<u8>)
    requires
        h.wf(),
        h.version == 2,
        h.packet_type == crate::fb_header::RTCP_FB_TL_PT,
        h.report_count == crate::nack::RtcpFbNackPacket::FMT,
        sorted_unique(missing),
        h.length_field == 2 + greedy_chunks(missing, 16).len(),
    ensures
        ({
            let payload = fb_header_bytes(fb) + blocks_bytes(greedy_chunks(missing, 16));
            spec_read_single(header_bytes(h) + payload + rest, 0) == Ok::<
                (PacketView, int),
                crate::error::RtcpError,
            >(
                (
                    PacketView::Nack { header: h, fb_header: fb, missing_seq_nums: missing.to_set() },
                    4 + payload.len() as int,
                ),
            )
        }),
{
    reveal(spec_read_payload);
    let cs = greedy_chunks(missing, 16);
    let payload = fb_header_bytes(fb) + blocks_bytes(cs);
    lemma_greedy_chunks(missing, 16);
    lemma_blocks_decode(cs, fb_header_bytes(fb));
    lemma_blocks_union_greedy(missing);
    lemma_fb_header_round_trip(fb, Seq::empty(), blocks_bytes(cs));
    assert(Seq::<u8>::empty() + fb_header_bytes(fb) + blocks_bytes(cs) =~= payload);
    assert(cs.len() * 17 <= 65552) by {
        // the grouping starts a chunk at most every 17 sequence numbers
        crate::nack::lemma_greedy_chunks_count(missing);
    }
    lemma_frame(h, payload, rest);
}

/// A FIR packet with a synchronised header decodes from its wire form to
/// its header, feedback header and entries.
pub proof fn lemma_fir_round_trip(h: RtcpHeader, fb: RtcpFbHeader, fcis: Seq<RtcpFbFirFci>, rest: Seq<u8>)
    requires
        h.wf(),
        h.version == 2,
        h.packet_type == crate::fb_header::RTCP_FB_PS_PT,
        h.report_count == crate::fir::RtcpFbFirPacket::FMT,
        h.length_field == 2 + 2 * fcis.len(),
        fcis.len() <= 8000,
    ensures
        ({
            let payload = fb_header_bytes(fb) + fcis_bytes(fcis);
            spec_read_single(header_bytes(h) + payload + rest, 0) == Ok::<
                (PacketView, int),
                crate::error::RtcpError,
            >((PacketView::Fir { header: h, fb_header: fb, fcis }, 4 + payload.len() as int))
        }),
{
    reveal(spec_read_payload);
    let payload = fb_header_bytes(fb) + fcis_bytes(fcis);
    lemma_fcis_read(fcis, fb_header_bytes(fb));
    lemma_fb_header_round_trip(fb, Seq::empty(), fcis_bytes(fcis));
    assert(Seq::<u8>::empty() + fb_header_bytes(fb) + fcis_bytes(fcis) =~= payload);
    lemma_frame(h, payload, rest);
}

/// A PLI with a synchronised header decodes from its wire form to its
/// headers.
pub proof fn lemma_pli_round_trip(h: RtcpHeader, fb: RtcpFbHeader, rest: Seq<u8>)
    requires
        h.wf(),
        h.version == 2,
        h.packet_type == crate::fb_header::RTCP_FB_PS_PT,
        h.report_count == crate::fir::RtcpFbPliPacket::FMT,
        h.length_field == 2,
    ensures
        spec_read_single(header_bytes(h) + fb_header_bytes(fb) + rest, 0) == Ok::<
            (PacketView, int),
            crate::error::RtcpError,
        >((PacketView::Pli { header: h, fb_header: fb }, 12)),
{
    reveal(spec_read_payload);
    lemma_fb_header_round_trip(fb, Seq::empty(), Seq::empty());
    assert(Seq::<u8>::empty() + fb_header_bytes(fb) + Seq::<u8>::empty() =~= fb_header_bytes(fb));
    lemma_frame(h, fb_header_bytes(fb), rest);
}


/// Padding written after offset `n` of `b` is consumed back to its end.
proof fn lemma_padding_read(b: Seq<u8>)
    ensures
        spec_consume_padding(b + zeros(pad_len(b.len() as int)), b.len() as int) == Ok::<
            int,
            crate::error::RtcpError,
        >(b.len() + pad_len(b.len() as int)),
{
    let s = b + zeros(pad_len(b.len() as int));
    let n = b.len() as int;
    assert forall|i: int| n <= i < n + pad_len(n) implies s[i] == 0 by {
        assert(s[i] == zeros(pad_len(n))[i - n]);
    }
}

/// A BYE packet with a synchronised header decodes from its wire form to
/// its header, sources and reason.
pub proof fn lemma_bye_round_trip(h: RtcpHeader, ssrcs: Seq<u32>, reason: Option<Seq<char>>, rest: Seq<u8>)
    requires
        h.wf(),
        h.version == 2,
        h.packet_type == crate::bye::RtcpByePacket::PT,
        h.report_count == ssrcs.len(),
        reason matches Some(c) ==> encode_utf8(c).len() <= 255,
        h.length_field * 4 == bye_payload_bytes(ssrcs, reason).len(),
    ensures
        ({
            let payload = bye_payload_bytes(ssrcs, reason);
            spec_read_single(header_bytes(h) + payload + rest, 0) == Ok::<
                (PacketView, int),
                crate::error::RtcpError,
            >((PacketView::Bye { header: h, ssrcs, reason }, 4 + payload.len() as int))
        }),
{
    reveal(spec_read_payload);
    let unpadded = bye_payload_unpadded(ssrcs, reason);
    let payload = bye_payload_bytes(ssrcs, reason);
    let tail = match reason {
        Some(c) => reason_bytes(c),
        None => Seq::<u8>::empty(),
    } + zeros(pad_len(unpadded.len() as int));
    assert(payload =~= Seq::<u8>::empty() + u32s_bytes(ssrcs) + tail);
    lemma_u32s_read(ssrcs, Seq::empty(), tail);
    lemma_u32s_len(ssrcs);
    let after_ssrcs = 4 * ssrcs.len() as int;
    lemma_padding_read(unpadded);
    match reason {
        None => {
            assert(unpadded =~= u32s_bytes(ssrcs));
            assert(pad_len(after_ssrcs) == 0);
            assert(spec_read_bye(payload, 0, ssrcs.len()) == Ok::<
                (Seq<u32>, Option<Seq<char>>, int),
                crate::error::RtcpError,
            >((ssrcs, None, after_ssrcs)));
        },
        Some(c) => {
            let e = encode_utf8(c);
            encode_utf8_valid_utf8(c);
            encode_utf8_decode_utf8(c);
            assert(payload[after_ssrcs] == e.len() as u8);
            assert(payload.subrange(after_ssrcs + 1, after_ssrcs + 1 + e.len()) =~= e);
            assert(spec_read_reason(payload, after_ssrcs) == Ok::<(Seq<char>, int), crate::error::RtcpError>(
                (c, after_ssrcs + 1 + e.len()),
            ));
            assert(payload =~= unpadded + zeros(pad_len(unpadded.len() as int)));
            assert(unpadded.len() == after_ssrcs + 1 + e.len());
        },
    }
    lemma_frame(h, payload, rest);
}

proof fn lemma_u32_at(s: Seq<u8>, p: int, v: u32)
    requires
        0 <= p,
        p + 4 <= s.len(),
        s.subrange(p, p + 4) == u32_bytes(v),
    ensures
        u32_at(s, p) == v,
{
    lemma_u32_bytes(v);
    assert(s[p] == s.subrange(p, p + 4)[0]);
    assert(s[p + 1] == s.subrange(p, p + 4)[1]);
    assert(s[p + 2] == s.subrange(p, p + 4)[2]);
    assert(s[p + 3] == s.subrange(p, p + 4)[3]);
}

proof fn lemma_report_block_read(b: RtcpReportBlock, prefix: Seq<u8>, rest: Seq<u8>)
    requires
        b.wf(),
    ensures
        spec_read_report_block(prefix + report_block_bytes(b) + rest, prefix.len() as int) == Ok::<
            RtcpReportBlock,
            crate::error::RtcpError,
        >(b),
        report_block_bytes(b).len() == 24,
{
    reveal(spec_read_report_block);
    let s = prefix + report_block_bytes(b) + rest;
    let p = prefix.len() as int;
    assert(s.subrange(p, p + 4) =~= u32_bytes(b.ssrc));
    assert(s.subrange(p + 8, p + 12) =~= u32_bytes(b.extended_highest_seq_num));
    assert(s.subrange(p + 12, p + 16) =~= u32_bytes(b.interarrival_jitter));
    assert(s.subrange(p + 16, p + 20) =~= u32_bytes(b.last_sr_timestamp));
    assert(s.subrange(p + 20, p + 24) =~= u32_bytes(b.delay_since_last_sr));
    lemma_u32_at(s, p, b.ssrc);
    lemma_u32_at(s, p + 8, b.extended_highest_seq_num);
    lemma_u32_at(s, p + 12, b.interarrival_jitter);
    lemma_u32_at(s, p + 16, b.last_sr_timestamp);
    lemma_u32_at(s, p + 20, b.delay_since_last_sr);
    lemma_u24_bytes(b.cumulative_lost);
    assert(s[p + 4] == b.fraction_lost);
    assert(s[p + 5] == u24_bytes(b.cumulative_lost)[0]);
    assert(s[p + 6] == u24_bytes(b.cumulative_lost)[1]);
    assert(s[p + 7] == u24_bytes(b.cumulative_lost)[2]);
}

proof fn lemma_report_blocks_front(v: Seq<RtcpReportBlock>)
    requires
        v.len() >= 1,
    ensures
        report_blocks_bytes(v) == report_block_bytes(v[0]) + report_blocks_bytes(v.drop_first()),
    decreases v.len(),
{
    if v.len() == 1 {
        assert(v.drop_last() =~= Seq::<RtcpReportBlock>::empty());
        assert(v.drop_first() =~= Seq::<RtcpReportBlock>::empty());
        assert(report_blocks_bytes(v) =~= report_block_bytes(v[0]) + report_blocks_bytes(
            v.drop_first(),
        ));
    } else {
        lemma_report_blocks_front(v.drop_last());
        assert(v.drop_last().drop_first() =~= v.drop_first().drop_last());
        assert(v.drop_first().last() == v.last());
        assert(report_blocks_bytes(v) =~= report_block_bytes(v[0]) + report_blocks_bytes(
            v.drop_first(),
        ));
    }
}

/// Report blocks written one after another read back as the same blocks.
pub proof fn lemma_report_blocks_read(v: Seq<RtcpReportBlock>, prefix: Seq<u8>, rest: Seq<u8>)
    requires
        blocks_wf(v),
    ensures
        spec_read_report_blocks(prefix + report_blocks_bytes(v) + rest, prefix.len() as int, v.len())
            == Ok::<(Seq<RtcpReportBlock>, int), crate::error::RtcpError>(
            (v, prefix.len() + 24 * v.len() as int),
        ),
        report_blocks_bytes(v).len() == 24 * v.len(),
    decreases v.len(),
{
    let s = prefix + report_blocks_bytes(v) + rest;
    let p = prefix.len() as int;
    if v.len() == 0 {
        assert(v =~= Seq::<RtcpReportBlock>::empty());
    } else {
        lemma_report_blocks_front(v);
        let prefix2 = prefix + report_block_bytes(v[0]);
        assert(blocks_wf(v.drop_first())) by {
            assert forall|i: int| 0 <= i < v.drop_first().len() implies (#[trigger] v.drop_first()[i]).wf() by {
                assert(v.drop_first()[i] == v[i + 1]);
            }
        }
        lemma_report_blocks_read(v.drop_first(), prefix2, rest);
        assert(s =~= prefix2 + report_blocks_bytes(v.drop_first()) + rest);
        assert(v[0].wf());
        lemma_report_block_read(v[0], prefix, report_blocks_bytes(v.drop_first()) + rest);
        assert(s =~= prefix + report_block_bytes(v[0]) + (report_blocks_bytes(v.drop_first()) + rest));
        assert(seq![v[0]] + v.drop_first() =~= v);
        assert(prefix2.len() == p + 24);
    }
}

/// A receiver report with a synchronised header decodes from its wire form
/// to its header, sender SSRC and blocks.
pub proof fn lemma_rr_round_trip(h: RtcpHeader, sender_ssrc: u32, blocks: Seq<RtcpReportBlock>, rest: Seq<u8>)
    requires
        h.wf(),
        h.version == 2,
        h.packet_type == crate::report::RtcpRrPacket::PT,
        h.report_count == blocks.len(),
        blocks_wf(blocks),
        h.length_field == 1 + 6 * blocks.len(),
    ensures
        ({
            let payload = u32_bytes(sender_ssrc) + report_blocks_bytes(blocks);
            spec_read_single(header_bytes(h) + payload + rest, 0) == Ok::<
                (PacketView, int),
                crate::error::RtcpError,
            >((PacketView::Rr { header: h, sender_ssrc, report_blocks: blocks }, 4 + payload.len() as int))
        }),
{
    reveal(spec_read_payload);
    let payload = u32_bytes(sender_ssrc) + report_blocks_bytes(blocks);
    lemma_report_blocks_read(blocks, u32_bytes(sender_ssrc), Seq::empty());
    assert(u32_bytes(sender_ssrc) + report_blocks_bytes(blocks) + Seq::<u8>::empty() =~= payload);
    assert(payload.subrange(0, 4) =~= u32_bytes(sender_ssrc));
    lemma_u32_at(payload, 0, sender_ssrc);
    lemma_frame(h, payload, rest);
}

proof fn lemma_sender_info_read(i: RtcpSenderInfo, prefix: Seq<u8>, rest: Seq<u8>)
    ensures
        spec_read_sender_info(prefix + sender_info_bytes(i) + rest, prefix.len() as int) == Ok::<
            RtcpSenderInfo,
            crate::error::RtcpError,
        >(i),
        sender_info_bytes(i).len() == 20,
{
    let s = prefix + sender_info_bytes(i) + rest;
    let p = prefix.len() as int;
    assert(s.subrange(p, p + 4) =~= u32_bytes(i.ntp_timestamp_msw));
    assert(s.subrange(p + 4, p + 8) =~= u32_bytes(i.ntp_timestamp_lsw));
    assert(s.subrange(p + 8, p + 12) =~= u32_bytes(i.rtp_timestamp));
    assert(s.subrange(p + 12, p + 16) =~= u32_bytes(i.sender_packet_count));
    assert(s.subrange(p + 16, p + 20) =~= u32_bytes(i.sender_octet_count));
    lemma_u32_at(s, p, i.ntp_timestamp_msw);
    lemma_u32_at(s, p + 4, i.ntp_timestamp_lsw);
    lemma_u32_at(s, p + 8, i.rtp_timestamp);
    lemma_u32_at(s, p + 12, i.sender_packet_count);
    lemma_u32_at(s, p + 16, i.sender_octet_count);
}

/// A sender report with a synchronised header decodes from its wire form to
/// its header, sender SSRC, sender info and blocks.
pub proof fn lemma_sr_round_trip(
    h: RtcpHeader,
    sender_ssrc: u32,
    info: RtcpSenderInfo,
    blocks: Seq<RtcpReportBlock>,
    rest: Seq<u8>,
)
    requires
        h.wf(),
        h.version == 2,
        h.packet_type == crate::report::RtcpSrPacket::PT,
        h.report_count == blocks.len(),
        blocks_wf(blocks),
        h.length_field == 6 + 6 * blocks.len(),
    ensures
        ({
            let payload = u32_bytes(sender_ssrc) + sender_info_bytes(info) + report_blocks_bytes(
                blocks,
            );
            spec_read_single(header_bytes(h) + payload + rest, 0) == Ok::<
                (PacketView, int),
                crate::error::RtcpError,
            >(
                (
                    PacketView::Sr { header: h, sender_ssrc, sender_info: info, report_blocks: blocks },
                    4 + payload.len() as int,
                ),
            )
        }),
{
    reveal(spec_read_payload);
    let payload = u32_bytes(sender_ssrc) + sender_info_bytes(info) + report_blocks_bytes(blocks);
    lemma_sender_info_read(info, u32_bytes(sender_ssrc), report_blocks_bytes(blocks));
    lemma_report_blocks_read(blocks, u32_bytes(sender_ssrc) + sender_info_bytes(info), Seq::empty());
    assert(u32_bytes(sender_ssrc) + sender_info_bytes(info) + report_blocks_bytes(blocks)
        + Seq::<u8>::empty() =~= payload);
    assert(u32_bytes(sender_ssrc) + sender_info_bytes(info) + report_blocks_bytes(blocks)
        =~= payload);
    assert(payload.subrange(0, 4) =~= u32_bytes(sender_ssrc));
    lemma_u32_at(payload, 0, sender_ssrc);
    lemma_frame(h, payload, rest);
}


proof fn lemma_sdes_item_read(item: SdesItemView, prefix: Seq<u8>, rest: Seq<u8>)
    requires
        sdes_item_fits(item),
        !(item is Empty),
    ensures
        spec_read_sdes_item(prefix + sdes_item_bytes(item) + rest, prefix.len() as int) == Ok::<
            (SdesItemView, int),
            crate::error::RtcpError,
        >((item, prefix.len() + sdes_item_bytes(item).len() as int)),
        sdes_item_bytes(item).len() >= 2,
{
    let s = prefix + sdes_item_bytes(item) + rest;
    let p = prefix.len() as int;
    match item {
        SdesItemView::Cname(c) => {
            let e = encode_utf8(c);
            encode_utf8_valid_utf8(c);
            encode_utf8_decode_utf8(c);
            assert(s[p] == 1);
            assert(s[p + 1] == e.len() as u8);
            assert(s.subrange(p + 2, p + 2 + e.len()) =~= e);
        },
        SdesItemView::Unknown { item_type, data } => {
            assert(s[p] == item_type);
            assert(s[p + 1] == data.len() as u8);
            assert(s.subrange(p + 2, p + 2 + data.len()) =~= data);
        },
        SdesItemView::Empty => {},
    }
}

proof fn lemma_sdes_items_front(v: Seq<SdesItemView>)
    requires
        v.len() >= 1,
    ensures
        sdes_items_bytes(v) == sdes_item_bytes(v[0]) + sdes_items_bytes(v.drop_first()),
    decreases v.len(),
{
    if v.len() == 1 {
        assert(v.drop_last() =~= Seq::<SdesItemView>::empty());
        assert(v.drop_first() =~= Seq::<SdesItemView>::empty());
        assert(sdes_items_bytes(v) =~= sdes_item_bytes(v[0]) + sdes_items_bytes(v.drop_first()));
    } else {
        lemma_sdes_items_front(v.drop_last());
        assert(v.drop_last().drop_first() =~= v.drop_first().drop_last());
        assert(v.drop_first().last() == v.last());
        assert(sdes_items_bytes(v) =~= sdes_item_bytes(v[0]) + sdes_items_bytes(v.drop_first()));
    }
}

/// Items written one after another and ended by the empty item read back
/// as the same items.
pub proof fn lemma_sdes_items_read(v: Seq<SdesItemView>, prefix: Seq<u8>, rest: Seq<u8>)
    requires
        items_fit(v),
        forall|i: int| 0 <= i < v.len() ==> !(#[trigger] v[i] is Empty),
    ensures
        spec_read_sdes_items(prefix + sdes_items_bytes(v) + seq![0u8] + rest, prefix.len() as int)
            == Ok::<(Seq<SdesItemView>, int), crate::error::RtcpError>(
            (v, prefix.len() + sdes_items_bytes(v).len() as int + 1),
        ),
    decreases v.len(),
{
    let s = prefix + sdes_items_bytes(v) + seq![0u8] + rest;
    let p = prefix.len() as int;
    if v.len() == 0 {
        assert(v =~= Seq::<SdesItemView>::empty());
        assert(s[p] == 0);
    } else {
        lemma_sdes_items_front(v);
        let tail = v.drop_first();
        let prefix2 = prefix + sdes_item_bytes(v[0]);
        assert(items_fit(tail)) by {
            assert forall|i: int| 0 <= i < tail.len() implies sdes_item_fits(#[trigger] tail[i]) by {
                assert(tail[i] == v[i + 1]);
            }
        }
        assert forall|i: int| 0 <= i < tail.len() implies !(#[trigger] tail[i] is Empty) by {
            assert(tail[i] == v[i + 1]);
        }
        lemma_sdes_items_read(tail, prefix2, rest);
        assert(s =~= prefix2 + sdes_items_bytes(tail) + seq![0u8] + rest);
        assert(sdes_item_fits(v[0]));
        lemma_sdes_item_read(v[0], prefix, sdes_items_bytes(tail) + seq![0u8] + rest);
        assert(s =~= prefix + sdes_item_bytes(v[0]) + (sdes_items_bytes(tail) + seq![0u8] + rest));
        assert(seq![v[0]] + tail =~= v);
    }
}

pub open spec fn sdes_items_ok(v: Seq<SdesItemView>) -> bool {
    items_fit(v) && forall|i: int| 0 <= i < v.len() ==> !(#[trigger] v[i] is Empty)
}

/// A chunk written at a four-byte boundary reads back as the same SSRC and
/// items, and ends at a four-byte boundary.
pub proof fn lemma_sdes_chunk_read(ssrc: u32, v: Seq<SdesItemView>, prefix: Seq<u8>, rest: Seq<u8>)
    requires
        sdes_items_ok(v),
        prefix.len() % 4 == 0,
    ensures
        spec_read_sdes_chunk(prefix + sdes_chunk_bytes(ssrc, v) + rest, prefix.len() as int) == Ok::<
            (u32, Seq<SdesItemView>, int),
            crate::error::RtcpError,
        >((ssrc, v, prefix.len() + sdes_chunk_bytes(ssrc, v).len() as int)),
        sdes_chunk_bytes(ssrc, v).len() % 4 == 0,
{
    reveal(spec_read_sdes_chunk);
    let b = u32_bytes(ssrc) + sdes_items_bytes(v) + seq![0u8];
    let padded = sdes_chunk_bytes(ssrc, v);
    let s = prefix + padded + rest;
    let p = prefix.len() as int;
    let pad = zeros(pad_len(b.len() as int));
    assert(s =~= (prefix + u32_bytes(ssrc)) + sdes_items_bytes(v) + seq![0u8] + (pad + rest));
    lemma_sdes_items_read(v, prefix + u32_bytes(ssrc), pad + rest);
    assert(s.subrange(p, p + 4) =~= u32_bytes(ssrc));
    lemma_u32_at(s, p, ssrc);
    let after_items = p + b.len();
    assert(pad_len(after_items) == pad_len(b.len() as int));
    assert forall|i: int| after_items <= i < after_items + pad_len(after_items) implies s[i] == 0 by {
        assert(s[i] == pad[i - after_items]);
    }
}

proof fn lemma_sdes_chunks_front(v: Seq<(u32, Seq<SdesItemView>)>)
    requires
        v.len() >= 1,
    ensures
        sdes_chunks_bytes(v) == sdes_chunk_bytes(v[0].0, v[0].1) + sdes_chunks_bytes(v.drop_first()),
    decreases v.len(),
{
    if v.len() == 1 {
        assert(v.drop_last() =~= Seq::<(u32, Seq<SdesItemView>)>::empty());
        assert(v.drop_first() =~= Seq::<(u32, Seq<SdesItemView>)>::empty());
        assert(sdes_chunks_bytes(v) =~= sdes_chunk_bytes(v[0].0, v[0].1) + sdes_chunks_bytes(
            v.drop_first(),
        ));
    } else {
        lemma_sdes_chunks_front(v.drop_last());
        assert(v.drop_last().drop_first() =~= v.drop_first().drop_last());
        assert(v.drop_first().last() == v.last());
        assert(sdes_chunks_bytes(v) =~= sdes_chunk_bytes(v[0].0, v[0].1) + sdes_chunks_bytes(
            v.drop_first(),
        ));
    }
}

pub open spec fn sdes_chunks_ok(v: Seq<(u32, Seq<SdesItemView>)>) -> bool {
    forall|i: int| 0 <= i < v.len() ==> sdes_items_ok(#[trigger] v[i].1)
}

/// Chunks written one after another from a four-byte boundary read back as
/// the same chunks.
pub proof fn lemma_sdes_chunks_read(v: Seq<(u32, Seq<SdesItemView>)>, prefix: Seq<u8>)
    requires
        sdes_chunks_ok(v),
        prefix.len() % 4 == 0,
    ensures
        spec_read_sdes_chunks(prefix + sdes_chunks_bytes(v), prefix.len() as int, v.len()) == Ok::<
            (Seq<(u32, Seq<SdesItemView>)>, int),
            crate::error::RtcpError,
        >((v, prefix.len() + sdes_chunks_bytes(v).len() as int)),
    decreases v.len(),
{
    if v.len() == 0 {
        assert(v =~= Seq::<(u32, Seq<SdesItemView>)>::empty());
    } else {
        lemma_sdes_chunks_front(v);
        let tail = v.drop_first();
        let c = sdes_chunk_bytes(v[0].0, v[0].1);
        assert(sdes_items_ok(v[0].1));
        lemma_sdes_chunk_read(v[0].0, v[0].1, prefix, sdes_chunks_bytes(tail));
        assert(sdes_chunks_ok(tail)) by {
            assert forall|i: int| 0 <= i < tail.len() implies sdes_items_ok(#[trigger] tail[i].1) by {
                assert(tail[i] == v[i + 1]);
            }
        }
        lemma_sdes_chunks_read(tail, prefix + c);
        assert(prefix + sdes_chunks_bytes(v) =~= prefix + c + sdes_chunks_bytes(tail));
        assert(seq![v[0]] + tail =~= v);
    }
}

/// An SDES packet with a synchronised header decodes from its wire form to
/// its header and chunks.
pub proof fn lemma_sdes_round_trip(h: RtcpHeader, chunks: Seq<(u32, Seq<SdesItemView>)>, rest: Seq<u8>)
    requires
        h.wf(),
        h.version == 2,
        h.packet_type == crate::sdes::RtcpSdesPacket::PT,
        h.report_count == chunks.len(),
        sdes_chunks_ok(chunks),
        h.length_field * 4 == sdes_chunks_bytes(chunks).len(),
        sdes_chunks_bytes(chunks).len() <= 65532,
    ensures
        spec_read_single(header_bytes(h) + sdes_chunks_bytes(chunks) + rest, 0) == Ok::<
            (PacketView, int),
            crate::error::RtcpError,
        >((PacketView::Sdes { header: h, chunks }, 4 + sdes_chunks_bytes(chunks).len() as int)),
{
    reveal(spec_read_payload);
    lemma_sdes_chunks_read(chunks, Seq::empty());
    assert(Seq::<u8>::empty() + sdes_chunks_bytes(chunks) =~= sdes_chunks_bytes(chunks));
    lemma_frame(h, sdes_chunks_bytes(chunks), rest);
}


proof fn lemma_chunk_words_front(cs: Seq<ChunkView>)
    requires
        cs.len() >= 1,
    ensures
        chunk_words_bytes(cs) == u16_bytes(spec_encode_chunk(cs[0])->Ok_0) + chunk_words_bytes(
            cs.drop_first(),
        ),
    decreases cs.len(),
{
    if cs.len() == 1 {
        assert(cs.drop_last() =~= Seq::<ChunkView>::empty());
        assert(cs.drop_first() =~= Seq::<ChunkView>::empty());
        assert(chunk_words_bytes(cs) =~= u16_bytes(spec_encode_chunk(cs[0])->Ok_0)
            + chunk_words_bytes(cs.drop_first()));
    } else {
        lemma_chunk_words_front(cs.drop_last());
        assert(cs.drop_last().drop_first() =~= cs.drop_first().drop_last());
        assert(cs.drop_first().last() == cs.last());
        assert(chunk_words_bytes(cs) =~= u16_bytes(spec_encode_chunk(cs[0])->Ok_0)
            + chunk_words_bytes(cs.drop_first()));
    }
}

/// Status chunks written one after another read back as their symbols,
/// given their number of symbols.
pub proof fn lemma_status_read(cs: Seq<ChunkView>, prefix: Seq<u8>, rest: Seq<u8>)
    requires
        chunks_ok(cs),
    ensures
        spec_read_status(
            prefix + chunk_words_bytes(cs) + rest,
            prefix.len() as int,
            chunks_symbols(cs).len() as int,
        ) == Ok::<(Seq<PacketStatusSymbol>, int), crate::error::RtcpError>(
            (chunks_symbols(cs), prefix.len() + 2 * cs.len() as int),
        ),
        chunk_words_bytes(cs).len() == 2 * cs.len(),
    decreases cs.len(),
{
    let s = prefix + chunk_words_bytes(cs) + rest;
    let p = prefix.len() as int;
    if cs.len() == 0 {
        assert(chunks_symbols(cs) =~= Seq::<PacketStatusSymbol>::empty());
    } else {
        let c = cs[0];
        let tail = cs.drop_first();
        lemma_chunk_words_front(cs);
        assert(cs =~= seq![c] + tail);
        lemma_chunks_symbols_front(c, tail);
        let total = chunks_symbols(cs).len() as int;
        let n = chunk_symbols(c).len() as int;
        assert(chunks_ok(tail)) by {
            assert forall|i: int| 0 <= i < tail.len() implies crate::chunk::chunk_encodable(
                #[trigger] tail[i],
            ) && chunk_symbols(tail[i]).len() > 0 by {
                assert(tail[i] == cs[i + 1]);
            }
            assert forall|i: int| 0 <= i < tail.len() - 1 implies crate::chunk::chunk_full(
                #[trigger] tail[i],
            ) by {
                assert(tail[i] == cs[i + 1]);
            }
        }
        if tail.len() == 0 {
            assert(chunks_symbols(tail) =~= Seq::<PacketStatusSymbol>::empty());
        } else {
            assert(crate::chunk::chunk_full(cs[0]));
        }
        assert(crate::chunk::chunk_encodable(c));
        lemma_chunk_round_trip(c, total);
        let w = spec_encode_chunk(c)->Ok_0;
        lemma_u16_bytes(w);
        let prefix2 = prefix + u16_bytes(w);
        lemma_status_read(tail, prefix2, rest);
        assert(s =~= prefix2 + chunk_words_bytes(tail) + rest);
        assert(s[p] == u16_bytes(w)[0]);
        assert(s[p + 1] == u16_bytes(w)[1]);
        assert(chunk_symbols(c).take(min(n, total)) =~= chunk_symbols(c));
    }
}

pub open spec fn consecutive_from(rs: Seq<PacketReport>, b: u16) -> bool {
    forall|i: int|
        0 <= i < rs.len() ==> report_seq_num(#[trigger] rs[i]) == ((b as int + i) % 65536) as u16
}

proof fn lemma_deltas_front(rs: Seq<PacketReport>)
    requires
        rs.len() >= 1,
    ensures
        deltas_bytes(rs) == delta_bytes(rs[0]) + deltas_bytes(rs.drop_first()),
    decreases rs.len(),
{
    if rs.len() == 1 {
        assert(rs.drop_last() =~= Seq::<PacketReport>::empty());
        assert(rs.drop_first() =~= Seq::<PacketReport>::empty());
        assert(deltas_bytes(rs) =~= delta_bytes(rs[0]) + deltas_bytes(rs.drop_first()));
    } else {
        lemma_deltas_front(rs.drop_last());
        assert(rs.drop_last().drop_first() =~= rs.drop_first().drop_last());
        assert(rs.drop_first().last() == rs.last());
        assert(deltas_bytes(rs) =~= delta_bytes(rs[0]) + deltas_bytes(rs.drop_first()));
    }
}

/// Receive deltas written one after another read back as the same reports,
/// for reports numbered on from `b`.
pub proof fn lemma_reports_read(rs: Seq<PacketReport>, b: u16, prefix: Seq<u8>, rest: Seq<u8>)
    requires
        consecutive_from(rs, b),
    ensures
        spec_read_reports(prefix + deltas_bytes(rs) + rest, prefix.len() as int, report_symbols(rs), b)
            == Ok::<(Seq<PacketReport>, int), crate::error::RtcpError>(
            (rs, prefix.len() + deltas_bytes(rs).len() as int),
        ),
    decreases rs.len(),
{
    let s = prefix + deltas_bytes(rs) + rest;
    let p = prefix.len() as int;
    if rs.len() == 0 {
        assert(rs =~= Seq::<PacketReport>::empty());
        assert(report_symbols(rs) =~= Seq::<PacketStatusSymbol>::empty());
    } else {
        let r = rs[0];
        let tail = rs.drop_first();
        lemma_deltas_front(rs);
        assert(report_symbols(rs)[0] == report_symbol(r));
        assert(report_symbols(rs).drop_first() =~= report_symbols(tail));
        assert(report_seq_num(rs[0]) == ((b as int + 0) % 65536) as u16);
        assert(consecutive_from(tail, next_seq(b))) by {
            assert forall|i: int| 0 <= i < tail.len() implies report_seq_num(#[trigger] tail[i])
                == ((next_seq(b) as int + i) % 65536) as u16 by {
                assert(tail[i] == rs[i + 1]);
                assert(report_seq_num(rs[i + 1]) == ((b as int + (i + 1)) % 65536) as u16);
            }
        }
        let prefix2 = prefix + delta_bytes(r);
        lemma_reports_read(tail, next_seq(b), prefix2, rest);
        assert(s =~= prefix2 + deltas_bytes(tail) + rest);
        assert(seq![r] + tail =~= rs);
        match r {
            PacketReport::UnreceivedPacket { seq_num } => {
                assert(delta_bytes(r) =~= Seq::<u8>::empty());
                assert(prefix2 =~= prefix);
            },
            PacketReport::ReceivedPacketSmallDelta { seq_num, delta_ticks } => {
                assert(s[p] == delta_ticks);
            },
            PacketReport::ReceivedPacketLargeOrNegativeDelta { seq_num, delta_ticks } => {
                let raw = delta_ticks as u16;
                lemma_u16_bytes(raw);
                assert(s[p] == u16_bytes(raw)[0]);
                assert(s[p + 1] == u16_bytes(raw)[1]);
                assert(raw as i16 == delta_ticks) by (bit_vector)
                    requires
                        raw == delta_ticks as u16,
                ;
            },
        }
    }
}

/// Where the parts of a TCC body lie after the feedback header.
proof fn lemma_tcc_layout(
    fb: RtcpFbHeader,
    reference_time: u32,
    feedback_packet_count: u8,
    rs: Seq<PacketReport>,
)
    requires
        spec_tcc_write_error(reference_time, rs) is None,
    ensures
        ({
            let payload = fb_header_bytes(fb) + tcc_body_bytes(reference_time, feedback_packet_count, rs);
            let unpadded = tcc_body_unpadded(reference_time, feedback_packet_count, rs);
            let words = chunk_words_bytes(spec_pack(report_symbols(rs)));
            let pad = zeros(pad_len(unpadded.len() as int));
            let pre1 = payload.subrange(0, 16);
            &&& payload == pre1 + words + (deltas_bytes(rs) + pad)
            &&& payload == (pre1 + words) + deltas_bytes(rs) + pad
            &&& unpadded.len() == 8 + words.len() + deltas_bytes(rs).len()
            &&& payload.len() == 8 + unpadded.len() + pad.len()
            &&& be16(payload[8], payload[9]) == base_seq_of(rs)
            &&& be16(payload[10], payload[11]) == rs.len() as u16
            &&& be24(payload[12], payload[13], payload[14]) == reference_time
            &&& payload[15] == feedback_packet_count
        }),
{
    let body = tcc_body_bytes(reference_time, feedback_packet_count, rs);
    let unpadded = tcc_body_unpadded(reference_time, feedback_packet_count, rs);
    let payload = fb_header_bytes(fb) + body;
    let words = chunk_words_bytes(spec_pack(report_symbols(rs)));
    let base = base_seq_of(rs);
    let head = u16_bytes(base) + u16_bytes(rs.len() as u16) + u24_bytes(reference_time) + seq![
        feedback_packet_count,
    ];
    let pad = zeros(pad_len(unpadded.len() as int));
    let pre1 = fb_header_bytes(fb) + head;
    assert(payload =~= pre1 + words + (deltas_bytes(rs) + pad));
    assert(payload.subrange(0, 16) =~= pre1);
    lemma_u16_bytes(base);
    lemma_u16_bytes(rs.len() as u16);
    lemma_u24_bytes(reference_time);
    assert(payload[8] == u16_bytes(base)[0]);
    assert(payload[9] == u16_bytes(base)[1]);
    assert(payload[10] == u16_bytes(rs.len() as u16)[0]);
    assert(payload[11] == u16_bytes(rs.len() as u16)[1]);
    assert(payload[12] == u24_bytes(reference_time)[0]);
    assert(payload[13] == u24_bytes(reference_time)[1]);
    assert(payload[14] == u24_bytes(reference_time)[2]);
    assert(payload[15] == feedback_packet_count);
}

/// The body of a TCC feedback packet written after the feedback header
/// reads back as the same fields and reports, to its last byte.
pub proof fn lemma_tcc_body_read(
    fb: RtcpFbHeader,
    reference_time: u32,
    feedback_packet_count: u8,
    rs: Seq<PacketReport>,
)
    requires
        spec_tcc_write_error(reference_time, rs) is None,
    ensures
        ({
            let payload = fb_header_bytes(fb) + tcc_body_bytes(reference_time, feedback_packet_count, rs);
            spec_read_tcc_body(payload, 8) == Ok::<(TccBody, int), crate::error::RtcpError>(
                (
                    TccBody { reference_time, feedback_packet_count, packet_reports: rs },
                    payload.len() as int,
                ),
            )
        }),
{
    let payload = fb_header_bytes(fb) + tcc_body_bytes(reference_time, feedback_packet_count, rs);
    let unpadded = tcc_body_unpadded(reference_time, feedback_packet_count, rs);
    let syms = report_symbols(rs);
    let cs = spec_pack(syms);
    let words = chunk_words_bytes(cs);
    let pad = zeros(pad_len(unpadded.len() as int));
    let pre1 = payload.subrange(0, 16);
    let base = base_seq_of(rs);
    lemma_tcc_layout(fb, reference_time, feedback_packet_count, rs);
    lemma_pack(syms);
    lemma_status_read(cs, pre1, deltas_bytes(rs) + pad);
    let after_status = 16 + 2 * cs.len() as int;
    assert(syms.len() == rs.len());
    assert(spec_read_status(payload, 16, rs.len() as int) == Ok::<
        (Seq<PacketStatusSymbol>, int),
        crate::error::RtcpError,
    >((syms, after_status)));
    let pre2 = pre1 + words;
    assert(consecutive_from(rs, base)) by {
        assert forall|i: int| 0 <= i < rs.len() implies report_seq_num(#[trigger] rs[i])
            == ((base as int + i) % 65536) as u16 by {
            assert(consecutive(rs));
        }
    }
    lemma_reports_read(rs, base, pre2, pad);
    let after_deltas = pre2.len() as int + deltas_bytes(rs).len() as int;
    assert(spec_read_reports(payload, after_status, syms, base) == Ok::<
        (Seq<PacketReport>, int),
        crate::error::RtcpError,
    >((rs, after_deltas)));
    assert(after_deltas == 8 + unpadded.len());
    assert(pad_len(after_deltas) == pad_len(unpadded.len() as int));
    assert forall|i: int| after_deltas <= i < after_deltas + pad_len(after_deltas) implies payload[i] == 0 by {
        assert(payload[i] == pad[i - after_deltas]);
    }
    assert(spec_consume_padding(payload, after_deltas) == Ok::<int, crate::error::RtcpError>(
        payload.len() as int,
    ));
}

/// A TCC feedback packet with a synchronised header decodes from its wire
/// form to its header, feedback header, reference time, feedback count and
/// reports.
pub proof fn lemma_tcc_round_trip(
    h: RtcpHeader,
    fb: RtcpFbHeader,
    reference_time: u32,
    feedback_packet_count: u8,
    rs: Seq<PacketReport>,
    rest: Seq<u8>,
)
    requires
        h.wf(),
        h.version == 2,
        h.packet_type == crate::fb_header::RTCP_FB_TL_PT,
        h.report_count == crate::tcc::RtcpFbTccPacket::FMT,
        spec_tcc_write_error(reference_time, rs) is None,
        h.length_field * 4 == 8 + tcc_body_bytes(reference_time, feedback_packet_count, rs).len(),
        8 + tcc_body_bytes(reference_time, feedback_packet_count, rs).len() <= 65532,
    ensures
        ({
            let payload = fb_header_bytes(fb) + tcc_body_bytes(reference_time, feedback_packet_count, rs);
            spec_read_single(header_bytes(h) + payload + rest, 0) == Ok::<
                (PacketView, int),
                crate::error::RtcpError,
            >(
                (
                    PacketView::Tcc {
                        header: h,
                        fb_header: fb,
                        body: TccBody { reference_time, feedback_packet_count, packet_reports: rs },
                    },
                    4 + payload.len() as int,
                ),
            )
        }),
{
    reveal(spec_read_payload);
    let body = tcc_body_bytes(reference_time, feedback_packet_count, rs);
    let payload = fb_header_bytes(fb) + body;
    lemma_fb_header_round_trip(fb, Seq::empty(), body);
    assert(Seq::<u8>::empty() + fb_header_bytes(fb) + body =~= payload);
    lemma_tcc_body_read(fb, reference_time, feedback_packet_count, rs);
    lemma_frame(h, payload, rest);
}


/// The header of a packet agrees with its payload, as `sync` leaves it: the
/// version is 2, the type and count or format fit the payload, the length
/// field counts the payload's words, and text and items fit their fields.
pub open spec fn in_sync(p: SomeRtcpPacket) -> bool {
    match p {
        SomeRtcpPacket::CompoundRtcpPacket(_) => false,
        SomeRtcpPacket::RtcpByePacket(x) => {
            &&& x.header.version == 2
            &&& x.header.packet_type == crate::bye::RtcpByePacket::PT
            &&& x.header.report_count == x.ssrcs@.len()
            &&& x.header.length_field * 4 == bye_payload_bytes(
                x.ssrcs@,
                crate::bye::reason_view(x.reason),
            ).len()
        },
        SomeRtcpPacket::RtcpSrPacket(x) => {
            &&& x.header.version == 2
            &&& x.header.packet_type == crate::report::RtcpSrPacket::PT
            &&& x.header.report_count == x.report_blocks@.len()
            &&& x.header.length_field == 6 + 6 * x.report_blocks@.len()
        },
        SomeRtcpPacket::RtcpRrPacket(x) => {
            &&& x.header.version == 2
            &&& x.header.packet_type == crate::report::RtcpRrPacket::PT
            &&& x.header.report_count == x.report_blocks@.len()
            &&& x.header.length_field == 1 + 6 * x.report_blocks@.len()
        },
        SomeRtcpPacket::RtcpSdesPacket(x) => {
            &&& x.header.version == 2
            &&& x.header.packet_type == crate::sdes::RtcpSdesPacket::PT
            &&& x.header.report_count == x.chunks@.len()
            &&& sdes_chunks_ok(crate::sdes::chunks_view(x.chunks@))
            &&& x.header.length_field * 4 == sdes_chunks_bytes(crate::sdes::chunks_view(x.chunks@)).len()
            &&& sdes_chunks_bytes(crate::sdes::chunks_view(x.chunks@)).len() <= 65532
        },
        SomeRtcpPacket::RtcpFbNackPacket(x) => {
            &&& x.header.version == 2
            &&& x.header.packet_type == crate::fb_header::RTCP_FB_TL_PT
            &&& x.header.report_count == crate::nack::RtcpFbNackPacket::FMT
            &&& x.header.length_field == 2 + greedy_chunks(x.missing_seq_nums@, 16).len()
        },
        SomeRtcpPacket::RtcpFbFirPacket(x) => {
            &&& x.header.version == 2
            &&& x.header.packet_type == crate::fb_header::RTCP_FB_PS_PT
            &&& x.header.report_count == crate::fir::RtcpFbFirPacket::FMT
            &&& x.fcis@.len() <= 8000
            &&& x.header.length_field == 2 + 2 * x.fcis@.len()
        },
        SomeRtcpPacket::RtcpFbPliPacket(x) => {
            &&& x.header.version == 2
            &&& x.header.packet_type == crate::fb_header::RTCP_FB_PS_PT
            &&& x.header.report_count == crate::fir::RtcpFbPliPacket::FMT
            &&& x.header.length_field == 2
        },
        SomeRtcpPacket::RtcpFbTccPacket(x) => {
            &&& x.header.version == 2
            &&& x.header.packet_type == crate::fb_header::RTCP_FB_TL_PT
            &&& x.header.report_count == crate::tcc::RtcpFbTccPacket::FMT
            &&& x.header.length_field * 4 == 8 + tcc_body_bytes(
                x.reference_time,
                x.feedback_packet_count,
                x.packet_reports@,
            ).len()
            &&& 8 + tcc_body_bytes(
                x.reference_time,
                x.feedback_packet_count,
                x.packet_reports@,
            ).len() <= 65532
        },
    }
}

proof fn lemma_round_trip_rtcp_bye_packet(x: crate::bye::RtcpByePacket, rest: Seq<u8>)
    requires
        single_writable(SomeRtcpPacket::RtcpByePacket(x)),
        in_sync(SomeRtcpPacket::RtcpByePacket(x)),
        spec_write_single(SomeRtcpPacket::RtcpByePacket(x)) is Ok,
    ensures
        ({
            let b = spec_write_single(SomeRtcpPacket::RtcpByePacket(x))->Ok_0;
            spec_read_single(b + rest, 0) == Ok::<(PacketView, int), crate::error::RtcpError>(
                (single_view(SomeRtcpPacket::RtcpByePacket(x)), b.len() as int),
            )
        }),
{
    reveal(spec_write_single);
    lemma_bye_round_trip(x.header, x.ssrcs@, crate::bye::reason_view(x.reason), rest);
}

proof fn lemma_round_trip_rtcp_sr_packet(x: crate::report::RtcpSrPacket, rest: Seq<u8>)
    requires
        single_writable(SomeRtcpPacket::RtcpSrPacket(x)),
        in_sync(SomeRtcpPacket::RtcpSrPacket(x)),
        spec_write_single(SomeRtcpPacket::RtcpSrPacket(x)) is Ok,
    ensures
        ({
            let b = spec_write_single(SomeRtcpPacket::RtcpSrPacket(x))->Ok_0;
            spec_read_single(b + rest, 0) == Ok::<(PacketView, int), crate::error::RtcpError>(
                (single_view(SomeRtcpPacket::RtcpSrPacket(x)), b.len() as int),
            )
        }),
{
    reveal(spec_write_single);
    let b = spec_write_single(SomeRtcpPacket::RtcpSrPacket(x))->Ok_0;
    assert(b =~= header_bytes(x.header) + (u32_bytes(x.sender_ssrc) + sender_info_bytes(
        x.sender_info,
    ) + report_blocks_bytes(x.report_blocks@)));
    lemma_sr_round_trip(x.header, x.sender_ssrc, x.sender_info, x.report_blocks@, rest);
}

proof fn lemma_round_trip_rtcp_rr_packet(x: crate::report::RtcpRrPacket, rest: Seq<u8>)
    requires
        single_writable(SomeRtcpPacket::RtcpRrPacket(x)),
        in_sync(SomeRtcpPacket::RtcpRrPacket(x)),
        spec_write_single(SomeRtcpPacket::RtcpRrPacket(x)) is Ok,
    ensures
        ({
            let b = spec_write_single(SomeRtcpPacket::RtcpRrPacket(x))->Ok_0;
            spec_read_single(b + rest, 0) == Ok::<(PacketView, int), crate::error::RtcpError>(
                (single_view(SomeRtcpPacket::RtcpRrPacket(x)), b.len() as int),
            )
        }),
{
    reveal(spec_write_single);
    let b = spec_write_single(SomeRtcpPacket::RtcpRrPacket(x))->Ok_0;
    assert(b =~= header_bytes(x.header) + (u32_bytes(x.sender_ssrc) + report_blocks_bytes(
        x.report_blocks@,
    )));
    lemma_rr_round_trip(x.header, x.sender_ssrc, x.report_blocks@, rest);
}

proof fn lemma_round_trip_rtcp_sdes_packet(x: crate::sdes::RtcpSdesPacket, rest: Seq<u8>)
    requires
        single_writable(SomeRtcpPacket::RtcpSdesPacket(x)),
        in_sync(SomeRtcpPacket::RtcpSdesPacket(x)),
        spec_write_single(SomeRtcpPacket::RtcpSdesPacket(x)) is Ok,
    ensures
        ({
            let b = spec_write_single(SomeRtcpPacket::RtcpSdesPacket(x))->Ok_0;
            spec_read_single(b + rest, 0) == Ok::<(PacketView, int), crate::error::RtcpError>(
                (single_view(SomeRtcpPacket::RtcpSdesPacket(x)), b.len() as int),
            )
        }),
{
    reveal(spec_write_single);
    lemma_sdes_round_trip(x.header, crate::sdes::chunks_view(x.chunks@), rest);
}

proof fn lemma_round_trip_rtcp_fb_nack_packet(x: crate::nack::RtcpFbNackPacket, rest: Seq<u8>)
    requires
        single_writable(SomeRtcpPacket::RtcpFbNackPacket(x)),
        in_sync(SomeRtcpPacket::RtcpFbNackPacket(x)),
        spec_write_single(SomeRtcpPacket::RtcpFbNackPacket(x)) is Ok,
    ensures
        ({
            let b = spec_write_single(SomeRtcpPacket::RtcpFbNackPacket(x))->Ok_0;
            spec_read_single(b + rest, 0) == Ok::<(PacketView, int), crate::error::RtcpError>(
                (single_view(SomeRtcpPacket::RtcpFbNackPacket(x)), b.len() as int),
            )
        }),
{
    reveal(spec_write_single);
    let b = spec_write_single(SomeRtcpPacket::RtcpFbNackPacket(x))->Ok_0;
    assert(b =~= header_bytes(x.header) + (fb_header_bytes(x.fb_header) + blocks_bytes(
        greedy_chunks(x.missing_seq_nums@, 16),
    )));
    lemma_nack_round_trip(x.header, x.fb_header, x.missing_seq_nums@, rest);
}

proof fn lemma_round_trip_rtcp_fb_fir_packet(x: crate::fir::RtcpFbFirPacket, rest: Seq<u8>)
    requires
        single_writable(SomeRtcpPacket::RtcpFbFirPacket(x)),
        in_sync(SomeRtcpPacket::RtcpFbFirPacket(x)),
        spec_write_single(SomeRtcpPacket::RtcpFbFirPacket(x)) is Ok,
    ensures
        ({
            let b = spec_write_single(SomeRtcpPacket::RtcpFbFirPacket(x))->Ok_0;
            spec_read_single(b + rest, 0) == Ok::<(PacketView, int), crate::error::RtcpError>(
                (single_view(SomeRtcpPacket::RtcpFbFirPacket(x)), b.len() as int),
            )
        }),
{
    reveal(spec_write_single);
    let b = spec_write_single(SomeRtcpPacket::RtcpFbFirPacket(x))->Ok_0;
    assert(b =~= header_bytes(x.header) + (fb_header_bytes(x.fb_header) + fcis_bytes(x.fcis@)));
    lemma_fir_round_trip(x.header, x.fb_header, x.fcis@, rest);
}

proof fn lemma_round_trip_rtcp_fb_pli_packet(x: crate::fir::RtcpFbPliPacket, rest: Seq<u8>)
    requires
        single_writable(SomeRtcpPacket::RtcpFbPliPacket(x)),
        in_sync(SomeRtcpPacket::RtcpFbPliPacket(x)),
        spec_write_single(SomeRtcpPacket::RtcpFbPliPacket(x)) is Ok,
    ensures
        ({
            let b = spec_write_single(SomeRtcpPacket::RtcpFbPliPacket(x))->Ok_0;
            spec_read_single(b + rest, 0) == Ok::<(PacketView, int), crate::error::RtcpError>(
                (single_view(SomeRtcpPacket::RtcpFbPliPacket(x)), b.len() as int),
            )
        }),
{
    reveal(spec_write_single);
    lemma_pli_round_trip(x.header, x.fb_header, rest);
}

proof fn lemma_round_trip_rtcp_fb_tcc_packet(x: crate::tcc::RtcpFbTccPacket, rest: Seq<u8>)
    requires
        single_writable(SomeRtcpPacket::RtcpFbTccPacket(x)),
        in_sync(SomeRtcpPacket::RtcpFbTccPacket(x)),
        spec_write_single(SomeRtcpPacket::RtcpFbTccPacket(x)) is Ok,
    ensures
        ({
            let b = spec_write_single(SomeRtcpPacket::RtcpFbTccPacket(x))->Ok_0;
            spec_read_single(b + rest, 0) == Ok::<(PacketView, int), crate::error::RtcpError>(
                (single_view(SomeRtcpPacket::RtcpFbTccPacket(x)), b.len() as int),
            )
        }),
{
    reveal(spec_write_single);
    let b = spec_write_single(SomeRtcpPacket::RtcpFbTccPacket(x))->Ok_0;
    assert(b =~= header_bytes(x.header) + (fb_header_bytes(x.fb_header) + tcc_body_bytes(
        x.reference_time,
        x.feedback_packet_count,
        x.packet_reports@,
    )));
    lemma_tcc_round_trip(
        x.header,
        x.fb_header,
        x.reference_time,
        x.feedback_packet_count,
        x.packet_reports@,
        rest,
    );
}

/// Round trip: a packet whose header is in sync with its payload, once
/// written, decodes to the same packet, and decoding stops right after it.
pub proof fn lemma_round_trip(p: SomeRtcpPacket, rest: Seq<u8>)
    requires
        single_writable(p),
        in_sync(p),
        spec_write_single(p) is Ok,
    ensures
        ({
            let b = spec_write_single(p)->Ok_0;
            spec_read_single(b + rest, 0) == Ok::<(PacketView, int), crate::error::RtcpError>(
                (single_view(p), b.len() as int),
            )
        }),
{
    match p {
        SomeRtcpPacket::CompoundRtcpPacket(_) => {},
        SomeRtcpPacket::RtcpByePacket(x) => lemma_round_trip_rtcp_bye_packet(x, rest),
        SomeRtcpPacket::RtcpSrPacket(x) => lemma_round_trip_rtcp_sr_packet(x, rest),
        SomeRtcpPacket::RtcpRrPacket(x) => lemma_round_trip_rtcp_rr_packet(x, rest),
        SomeRtcpPacket::RtcpSdesPacket(x) => lemma_round_trip_rtcp_sdes_packet(x, rest),
        SomeRtcpPacket::RtcpFbNackPacket(x) => lemma_round_trip_rtcp_fb_nack_packet(x, rest),
        SomeRtcpPacket::RtcpFbFirPacket(x) => lemma_round_trip_rtcp_fb_fir_packet(x, rest),
        SomeRtcpPacket::RtcpFbPliPacket(x) => lemma_round_trip_rtcp_fb_pli_packet(x, rest),
        SomeRtcpPacket::RtcpFbTccPacket(x) => lemma_round_trip_rtcp_fb_tcc_packet(x, rest),
    }
}

/// Decoding a packet after `prefix` is decoding it from the start of what
/// follows, with every offset moved by the prefix's length.
proof fn lemma_single_shift(prefix: Seq<u8>, x: Seq<u8>)
    ensures
        spec_read_single(prefix + x, prefix.len() as int) == match spec_read_single(x, 0) {
            Ok((v, next)) => Ok::<(PacketView, int), crate::error::RtcpError>(
                (v, next + prefix.len()),
            ),
            Err(e) => Err(e),
        },
{
    let s = prefix + x;
    let p = prefix.len() as int;
    assert(spec_read_header(s, p) == spec_read_header(x, 0)) by {
        if x.len() >= 4 {
            assert(s[p] == x[0]);
            assert(s[p + 1] == x[1]);
            assert(s[p + 2] == x[2]);
            assert(s[p + 3] == x[3]);
        }
    }
    match spec_read_header(x, 0) {
        Err(_) => {},
        Ok(h) => match spec_payload_length(h.length_field) {
            Err(_) => {},
            Ok(len) => {
                if len <= x.len() - 4 {
                    assert(s.subrange(p + 4, p + 4 + len) =~= x.subrange(4, 4 + len));
                }
            },
        },
    }
}

/// Packets written one after another decode, from the first, to the same
/// packets in the same order.
pub proof fn lemma_packets_read(ps: Seq<SomeRtcpPacket>, prefix: Seq<u8>)
    requires
        forall|i: int|
            0 <= i < ps.len() ==> single_writable(#[trigger] ps[i]) && in_sync(ps[i]),
        spec_write_all(ps) is Ok,
    ensures
        spec_read_packets(prefix + spec_write_all(ps)->Ok_0, prefix.len() as int) == Ok::<
            Seq<PacketView>,
            crate::error::RtcpError,
        >(views_of(ps)),
    decreases ps.len(),
{
    let b = spec_write_all(ps)->Ok_0;
    let s = prefix + b;
    let p = prefix.len() as int;
    if ps.len() == 0 {
        assert(b =~= Seq::<u8>::empty());
        assert(views_of(ps) =~= Seq::<PacketView>::empty());
    } else {
        let first = spec_write_single(ps[0])->Ok_0;
        let tail = ps.drop_first();
        let tb = spec_write_all(tail)->Ok_0;
        assert(b == first + tb);
        lemma_round_trip(ps[0], tb);
        lemma_single_shift(prefix, first + tb);
        assert(s =~= prefix + (first + tb));
        assert forall|i: int| 0 <= i < tail.len() implies single_writable(#[trigger] tail[i])
            && in_sync(tail[i]) by {
            assert(tail[i] == ps[i + 1]);
        }
        lemma_packets_read(tail, prefix + first);
        assert(prefix + first + tb =~= s);
        assert(first.len() >= 4) by {
            reveal(spec_write_single);
        }
        assert(views_of(ps) =~= seq![single_view(ps[0])] + views_of(tail));
    }
}

/// Round trip of a buffer: packets in sync with their headers, written one
/// after another, decode to the same packets in the same order.
pub proof fn lemma_compound_round_trip(ps: Seq<SomeRtcpPacket>)
    requires
        ps.len() >= 1,
        forall|i: int|
            0 <= i < ps.len() ==> single_writable(#[trigger] ps[i]) && in_sync(ps[i]),
        spec_write_all(ps) is Ok,
    ensures
        spec_read_rtcp(spec_write_all(ps)->Ok_0) == Ok::<Seq<PacketView>, crate::error::RtcpError>(
            views_of(ps),
        ),
{
    lemma_packets_read(ps, Seq::empty());
    assert(Seq::<u8>::empty() + spec_write_all(ps)->Ok_0 =~= spec_write_all(ps)->Ok_0);
}

} // verus!
