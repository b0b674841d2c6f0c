//! The dispatcher: frames each packet of a buffer by its header's length
//! field, decodes its payload within exactly that window, and gathers one
//! packet or a compound packet.
use vstd::prelude::*;
use vstd::slice::slice_subrange;

use crate::bye::{RtcpByePacket, bye_payload_bytes, reason_view, spec_read_bye};
use crate::error::{InvalidLengthValue, RtcpError, UnrecognizedPacketType};
use crate::fb_header::{
    RTCP_FB_PS_PT, RTCP_FB_TL_PT, RtcpFbHeader, fb_header_bytes, spec_read_fb_header,
};
use crate::fir::{
    RtcpFbFirFci, RtcpFbFirPacket, RtcpFbPliPacket, fcis_bytes, read_rtcp_fb_pli, spec_read_fcis,
    write_rtcp_fb_pli,
};
use crate::header::{RtcpHeader, header_bytes, spec_payload_length, spec_read_header};
use crate::nack::{RtcpFbNackPacket, blocks_bytes, greedy_chunks, nack_blocks_end, nack_blocks_set};
use crate::report::{
    RtcpReportBlock, RtcpRrPacket, RtcpSenderInfo, RtcpSrPacket, report_blocks_bytes,
    sender_info_bytes, spec_read_rr, spec_read_sr,
};
use crate::sdes::{
    RtcpSdesPacket, SdesItemView, chunks_fit, chunks_view, sdes_chunks_bytes, spec_read_sdes_chunks,
};
use crate::tcc::{
    RtcpFbTccPacket, TccBody, spec_read_tcc_body, spec_tcc_write_error, tcc_body_bytes,
};
use crate::wire::{push_bytes, u32_bytes};

verus! {

/// Any RTCP packet this library decodes, or a compound packet of several.
#[derive(Debug, PartialEq)]
pub enum SomeRtcpPacket {
    CompoundRtcpPacket(Vec<SomeRtcpPacket>),
    RtcpByePacket(RtcpByePacket),
    RtcpSrPacket(RtcpSrPacket),
    RtcpRrPacket(RtcpRrPacket),
    RtcpSdesPacket(RtcpSdesPacket),
    RtcpFbNackPacket(RtcpFbNackPacket),
    RtcpFbFirPacket(RtcpFbFirPacket),
    RtcpFbPliPacket(RtcpFbPliPacket),
    RtcpFbTccPacket(RtcpFbTccPacket),
}

/// What one decoded packet holds.
pub ghost enum PacketView {
    Compound,
    Bye { header: RtcpHeader, ssrcs: Seq<u32>, reason: Option<Seq<char>> },
    Sr {
        header: RtcpHeader,
        sender_ssrc: u32,
        sender_info: RtcpSenderInfo,
        report_blocks: Seq<RtcpReportBlock>,
    },
    Rr { header: RtcpHeader, sender_ssrc: u32, report_blocks: Seq<RtcpReportBlock> },
    Sdes { header: RtcpHeader, chunks: Seq<(u32, Seq<SdesItemView>)> },
    Nack { header: RtcpHeader, fb_header: RtcpFbHeader, missing_seq_nums: Set<u16> },
    Fir { header: RtcpHeader, fb_header: RtcpFbHeader, fcis: Seq<RtcpFbFirFci> },
    Pli { header: RtcpHeader, fb_header: RtcpFbHeader },
    Tcc { header: RtcpHeader, fb_header: RtcpFbHeader, body: TccBody },
}

/// The view of a packet that is not compound.
pub open spec fn single_view(p: SomeRtcpPacket) -> PacketView {
    match p {
        SomeRtcpPacket::CompoundRtcpPacket(_) => PacketView::Compound,
        SomeRtcpPacket::RtcpByePacket(b) => PacketView::Bye {
            header: b.header,
            ssrcs: b.ssrcs@,
            reason: reason_view(b.reason),
        },
        SomeRtcpPacket::RtcpSrPacket(x) => PacketView::Sr {
            header: x.header,
            sender_ssrc: x.sender_ssrc,
            sender_info: x.sender_info,
            report_blocks: x.report_blocks@,
        },
        SomeRtcpPacket::RtcpRrPacket(x) => PacketView::Rr {
            header: x.header,
            sender_ssrc: x.sender_ssrc,
            report_blocks: x.report_blocks@,
        },
        SomeRtcpPacket::RtcpSdesPacket(x) => PacketView::Sdes {
            header: x.header,
            chunks: chunks_view(x.chunks@),
        },
        SomeRtcpPacket::RtcpFbNackPacket(x) => PacketView::Nack {
            header: x.header,
            fb_header: x.fb_header,
            missing_seq_nums: x.missing_seq_nums@.to_set(),
        },
        SomeRtcpPacket::RtcpFbFirPacket(x) => PacketView::Fir {
            header: x.header,
            fb_header: x.fb_header,
            fcis: x.fcis@,
        },
        SomeRtcpPacket::RtcpFbPliPacket(x) => PacketView::Pli {
            header: x.header,
            fb_header: x.fb_header,
        },
        SomeRtcpPacket::RtcpFbTccPacket(x) => PacketView::Tcc {
            header: x.header,
            fb_header: x.fb_header,
            body: TccBody {
                reference_time: x.reference_time,
                feedback_packet_count: x.feedback_packet_count,
                packet_reports: x.packet_reports@,
            },
        },
    }
}

/// A payload decoder's result, given where it stopped in a window of
/// `len` bytes: every byte of the window must have been read.
pub open spec fn finish(end: int, len: int, v: PacketView) -> Result<PacketView, RtcpError> {
    if end == len {
        Ok(v)
    } else {
        Err(RtcpError::BufferNotFullyConsumed { remaining: (len - end) as usize })
    }
}

/// Decoding the payload window `w` of a packet with header `h`: by packet
/// type, and for feedback types by type and format.
#[verifier::opaque]
pub open spec fn spec_read_payload(h: RtcpHeader, w: Seq<u8>) -> Result<PacketView, RtcpError> {
    let n = w.len() as int;
    if h.packet_type == RtcpByePacket::PT {
        match spec_read_bye(w, 0, h.report_count as nat) {
            Err(e) => Err(e),
            Ok((ssrcs, reason, end)) => finish(end, n, PacketView::Bye { header: h, ssrcs, reason }),
        }
    } else if h.packet_type == RtcpSrPacket::PT {
        match spec_read_sr(w, 0, h.report_count as nat) {
            Err(e) => Err(e),
            Ok((sender_ssrc, sender_info, report_blocks, end)) => finish(
                end,
                n,
                PacketView::Sr { header: h, sender_ssrc, sender_info, report_blocks },
            ),
        }
    } else if h.packet_type == RtcpRrPacket::PT {
        match spec_read_rr(w, 0, h.report_count as nat) {
            Err(e) => Err(e),
            Ok((sender_ssrc, report_blocks, end)) => finish(
                end,
                n,
                PacketView::Rr { header: h, sender_ssrc, report_blocks },
            ),
        }
    } else if h.packet_type == RtcpSdesPacket::PT {
        match spec_read_sdes_chunks(w, 0, h.report_count as nat) {
            Err(e) => Err(e),
            Ok((chunks, end)) => finish(end, n, PacketView::Sdes { header: h, chunks }),
        }
    } else if h.packet_type == RTCP_FB_PS_PT || h.packet_type == RTCP_FB_TL_PT {
        match spec_read_fb_header(w, 0) {
            Err(e) => Err(e),
            Ok(fb) => {
                if h.packet_type == RTCP_FB_PS_PT && h.report_count == RtcpFbFirPacket::FMT {
                    match spec_read_fcis(w, 8) {
                        Err(e) => Err(e),
                        Ok((fcis, end)) => finish(
                            end,
                            n,
                            PacketView::Fir { header: h, fb_header: fb, fcis },
                        ),
                    }
                } else if h.packet_type == RTCP_FB_PS_PT && h.report_count == RtcpFbPliPacket::FMT {
                    finish(8, n, PacketView::Pli { header: h, fb_header: fb })
                } else if h.packet_type == RTCP_FB_TL_PT && h.report_count == RtcpFbNackPacket::FMT {
                    finish(
                        nack_blocks_end(w, 8),
                        n,
                        PacketView::Nack {
                            header: h,
                            fb_header: fb,
                            missing_seq_nums: nack_blocks_set(w, 8),
                        },
                    )
                } else if h.packet_type == RTCP_FB_TL_PT && h.report_count == RtcpFbTccPacket::FMT {
                    match spec_read_tcc_body(w, 8) {
                        Err(e) => Err(e),
                        Ok((body, end)) => finish(
                            end,
                            n,
                            PacketView::Tcc { header: h, fb_header: fb, body },
                        ),
                    }
                } else {
                    Err(
                        RtcpError::UnsupportedFeedbackFormat {
                            packet_type: h.packet_type,
                            format: h.report_count,
                        },
                    )
                }
            },
        }
    } else {
        Err(RtcpError::UnrecognizedPacketType(UnrecognizedPacketType(h.packet_type)))
    }
}

/// Decoding the packet whose header starts at `pos`: the packet, and where
/// the next one starts.
pub open spec fn spec_read_single(s: Seq<u8>, pos: int) -> Result<(PacketView, int), RtcpError> {
    match spec_read_header(s, pos) {
        Err(e) => Err(e),
        Ok(h) => match spec_payload_length(h.length_field) {
            Err(e) => Err(e),
            Ok(len) => {
                if len > s.len() - pos - 4 {
                    Err(
                        RtcpError::InvalidLengthValue(
                            InvalidLengthValue {
                                length_field_bytes: len as usize,
                                buf_remaining_bytes: (s.len() - pos - 4) as usize,
                            },
                        ),
                    )
                } else {
                    match spec_read_payload(h, s.subrange(pos + 4, pos + 4 + len)) {
                        Err(e) => Err(e),
                        Ok(v) => Ok((v, pos + 4 + len)),
                    }
                }
            },
        },
    }
}

/// Decoding packets from `pos` while a header's worth of bytes remains.
pub open spec fn spec_read_packets(s: Seq<u8>, pos: int) -> Result<Seq<PacketView>, RtcpError>
    decreases s.len() - pos,
{
    if pos < 0 || s.len() - pos < 4 {
        Ok(Seq::empty())
    } else {
        match spec_read_single(s, pos) {
            Err(e) => Err(e),
            Ok((v, next)) => {
                if next <= pos {
                    Err(RtcpError::TruncatedRead)
                } else {
                    match spec_read_packets(s, next) {
                        Err(e) => Err(e),
                        Ok(rest) => Ok(seq![v] + rest),
                    }
                }
            },
        }
    }
}

/// Decoding a whole buffer: at least one packet, and no error in any.
pub open spec fn spec_read_rtcp(s: Seq<u8>) -> Result<Seq<PacketView>, RtcpError> {
    match spec_read_packets(s, 0) {
        Err(e) => Err(e),
        Ok(vs) => if vs.len() == 0 {
            Err(RtcpError::NoValidPackets)
        } else {
            Ok(vs)
        },
    }
}

/// Checks that a payload decoder stopped at the end of its window.
fn finish_payload(p: SomeRtcpPacket, end: usize, len: usize) -> (r: Result<SomeRtcpPacket, RtcpError>)
    requires
        end <= len,
    ensures
        match finish(end as int, len as int, single_view(p)) {
            Ok(v) => r matches Ok(q) && q == p,
            Err(e) => r == Err::<SomeRtcpPacket, RtcpError>(e),
        },
{
    if end == len {
        Ok(p)
    } else {
        Err(RtcpError::BufferNotFullyConsumed { remaining: len - end })
    }
}

/// Decodes a payload window by the header's type and format.
fn read_payload(w: &[u8], header: RtcpHeader) -> (r: Result<SomeRtcpPacket, RtcpError>)
    ensures
        match r {
            Ok(p) => spec_read_payload(header, w@) == Ok::<PacketView, RtcpError>(single_view(p))
                && !(p is CompoundRtcpPacket),
            Err(e) => spec_read_payload(header, w@) == Err::<PacketView, RtcpError>(e),
        },
{
    reveal(spec_read_payload);
    let n = w.len();
    let pt = header.packet_type;
    if pt == RtcpByePacket::PT {
        match RtcpByePacket::read(w, 0, header) {
            Ok((p, end)) => finish_payload(SomeRtcpPacket::RtcpByePacket(p), end, n),
            Err(e) => Err(e),
        }
    } else if pt == RtcpSrPacket::PT {
        match RtcpSrPacket::read(w, 0, header) {
            Ok((p, end)) => finish_payload(SomeRtcpPacket::RtcpSrPacket(p), end, n),
            Err(e) => Err(e),
        }
    } else if pt == RtcpRrPacket::PT {
        match RtcpRrPacket::read(w, 0, header) {
            Ok((p, end)) => finish_payload(SomeRtcpPacket::RtcpRrPacket(p), end, n),
            Err(e) => Err(e),
        }
    } else if pt == RtcpSdesPacket::PT {
        match RtcpSdesPacket::read(w, 0, header) {
            Ok((p, end)) => finish_payload(SomeRtcpPacket::RtcpSdesPacket(p), end, n),
            Err(e) => Err(e),
        }
    } else if pt == RTCP_FB_PS_PT || pt == RTCP_FB_TL_PT {
        let fb_header = match RtcpFbHeader::read(w, 0) {
            Ok(h) => h,
            Err(e) => {
                return Err(e);
            },
        };
        let fmt = header.report_count;
        if pt == RTCP_FB_PS_PT && fmt == RtcpFbFirPacket::FMT {
            match RtcpFbFirPacket::read(w, 8, header, fb_header) {
                Ok((p, end)) => finish_payload(SomeRtcpPacket::RtcpFbFirPacket(p), end, n),
                Err(e) => Err(e),
            }
        } else if pt == RTCP_FB_PS_PT && fmt == RtcpFbPliPacket::FMT {
            match read_rtcp_fb_pli(w, 8, header, fb_header) {
                Ok((p, end)) => finish_payload(SomeRtcpPacket::RtcpFbPliPacket(p), end, n),
                Err(e) => Err(e),
            }
        } else if pt == RTCP_FB_TL_PT && fmt == RtcpFbNackPacket::FMT {
            match RtcpFbNackPacket::read(w, 8, header, fb_header) {
                Ok((p, end)) => finish_payload(SomeRtcpPacket::RtcpFbNackPacket(p), end, n),
                Err(e) => Err(e),
            }
        } else if pt == RTCP_FB_TL_PT && fmt == RtcpFbTccPacket::FMT {
            match RtcpFbTccPacket::read(w, 8, header, fb_header) {
                Ok((p, end)) => finish_payload(SomeRtcpPacket::RtcpFbTccPacket(p), end, n),
                Err(e) => Err(e),
            }
        } else {
            Err(RtcpError::UnsupportedFeedbackFormat { packet_type: pt, format: fmt })
        }
    } else {
        Err(RtcpError::UnrecognizedPacketType(UnrecognizedPacketType(pt)))
    }
}

/// Decodes the packet whose header starts at `pos`. Its payload decoder sees
/// exactly the window that the length field announces, and must read all
/// of it.
pub fn read_single_rtcp_packet(buf: &[u8], pos: usize) -> (r: Result<
    (SomeRtcpPacket, usize),
    RtcpError,
>)
    requires
        pos <= buf@.len(),
    ensures
        match r {
            Ok((p, next)) => {
                &&& spec_read_single(buf@, pos as int) == Ok::<(PacketView, int), RtcpError>(
                    (single_view(p), next as int),
                )
                &&& !(p is CompoundRtcpPacket)
                &&& pos + 4 <= next <= buf@.len()
            },
            Err(e) => spec_read_single(buf@, pos as int) == Err::<(PacketView, int), RtcpError>(e),
        },
{
    let header = match RtcpHeader::read(buf, pos) {
        Ok(h) => h,
        Err(e) => {
            return Err(e);
        },
    };
    let len = match header.payload_length_bytes() {
        Ok(n) => n as usize,
        Err(e) => {
            return Err(e);
        },
    };
    let remaining = buf.len() - pos - 4;
    if len > remaining {
        return Err(
            RtcpError::InvalidLengthValue(
                InvalidLengthValue { length_field_bytes: len, buf_remaining_bytes: remaining },
            ),
        );
    }
    let window = slice_subrange(buf, pos + 4, pos + 4 + len);
    match read_payload(window, header) {
        Ok(p) => Ok((p, pos + 4 + len)),
        Err(e) => Err(e),
    }
}

pub open spec fn views_of(ps: Seq<SomeRtcpPacket>) -> Seq<PacketView> {
    Seq::new(ps.len(), |i: int| single_view(ps[i]))
}

impl SomeRtcpPacket {
    /// Decodes every packet of `buf`, in order, while at least four bytes
    /// remain: one packet comes back as itself, several as a compound
    /// packet. The first error fails the whole call.
    pub fn read(buf: &[u8]) -> (r: Result<SomeRtcpPacket, RtcpError>)
        ensures
            match spec_read_rtcp(buf@) {
                Err(e) => r == Err::<SomeRtcpPacket, RtcpError>(e),
                Ok(vs) => match r {
                    Ok(SomeRtcpPacket::CompoundRtcpPacket(ps)) => vs.len() >= 2 && views_of(ps@)
                        == vs && forall|i: int|
                        0 <= i < ps@.len() ==> !(#[trigger] ps@[i] is CompoundRtcpPacket),
                    Ok(p) => vs.len() == 1 && single_view(p) == vs[0],
                    Err(_) => false,
                },
            },
    {
        let mut packets: Vec<SomeRtcpPacket> = Vec::new();
        let mut p: usize = 0;
        let ghost total = spec_read_packets(buf@, 0);
        assert(views_of(packets@) =~= Seq::<PacketView>::empty());
        while buf.len() - p >= 4
            invariant
                p <= buf@.len(),
                total == spec_read_packets(buf@, 0),
                total == (match spec_read_packets(buf@, p as int) {
                    Err(e) => Err(e),
                    Ok(rest) => Ok(views_of(packets@) + rest),
                }),
                forall|i: int| 0 <= i < packets@.len() ==> !(#[trigger] packets@[i] is CompoundRtcpPacket),
            decreases buf@.len() - p,
        {
            let (packet, next) = match read_single_rtcp_packet(buf, p) {
                Ok(x) => x,
                Err(e) => {
                    return Err(e);
                },
            };
            let ghost before = views_of(packets@);
            let ghost v = single_view(packet);
            packets.push(packet);
            proof {
                assert(views_of(packets@) =~= before.push(v));
                match spec_read_packets(buf@, next as int) {
                    Err(_) => {},
                    Ok(rest) => {
                        assert(before + (seq![v] + rest) =~= views_of(packets@) + rest);
                    },
                }
            }
            p = next;
        }
        assert(views_of(packets@) + Seq::<PacketView>::empty() =~= views_of(packets@));
        if packets.len() == 0 {
            Err(RtcpError::NoValidPackets)
        } else if packets.len() == 1 {
            let ghost v0 = views_of(packets@)[0];
            let single = packets.remove(0);
            Ok(single)
        } else {
            Ok(SomeRtcpPacket::CompoundRtcpPacket(packets))
        }
    }
}

/// A decoded header never announces more than the buffer holds: where a
/// packet decodes at `pos`, its header and payload lie within the buffer.
pub proof fn lemma_decoded_header_fits(s: Seq<u8>, pos: int)
    requires
        0 <= pos,
        spec_read_single(s, pos) is Ok,
    ensures
        spec_read_header(s, pos) is Ok,
        pos + 4 + spec_read_header(s, pos)->Ok_0.length_field * 4 <= s.len(),
{
}


/// A packet, not compound, whose fields the wire can carry.
pub open spec fn single_writable(p: SomeRtcpPacket) -> bool {
    match p {
        SomeRtcpPacket::CompoundRtcpPacket(_) => false,
        SomeRtcpPacket::RtcpByePacket(x) => x.header.wf(),
        SomeRtcpPacket::RtcpSrPacket(x) => x.wf(),
        SomeRtcpPacket::RtcpRrPacket(x) => x.wf(),
        SomeRtcpPacket::RtcpSdesPacket(x) => x.header.wf(),
        SomeRtcpPacket::RtcpFbNackPacket(x) => x.wf(),
        SomeRtcpPacket::RtcpFbFirPacket(x) => x.header.wf(),
        SomeRtcpPacket::RtcpFbPliPacket(x) => x.header.wf(),
        SomeRtcpPacket::RtcpFbTccPacket(x) => x.header.wf(),
    }
}

/// The wire form of one packet that is not compound, or why it has none.
#[verifier::opaque]
pub open spec fn spec_write_single(p: SomeRtcpPacket) -> Result<Seq<u8>, RtcpError> {
    match p {
        SomeRtcpPacket::CompoundRtcpPacket(_) => Err(RtcpError::FieldTooLarge),
        SomeRtcpPacket::RtcpByePacket(x) => if x.reason_fits() {
            Ok(header_bytes(x.header) + bye_payload_bytes(x.ssrcs@, reason_view(x.reason)))
        } else {
            Err(RtcpError::FieldTooLarge)
        },
        SomeRtcpPacket::RtcpSrPacket(x) => Ok(
            header_bytes(x.header) + u32_bytes(x.sender_ssrc) + sender_info_bytes(x.sender_info)
                + report_blocks_bytes(x.report_blocks@),
        ),
        SomeRtcpPacket::RtcpRrPacket(x) => Ok(
            header_bytes(x.header) + u32_bytes(x.sender_ssrc) + report_blocks_bytes(
                x.report_blocks@,
            ),
        ),
        SomeRtcpPacket::RtcpSdesPacket(x) => if chunks_fit(chunks_view(x.chunks@)) {
            Ok(header_bytes(x.header) + sdes_chunks_bytes(chunks_view(x.chunks@)))
        } else {
            Err(RtcpError::FieldTooLarge)
        },
        SomeRtcpPacket::RtcpFbNackPacket(x) => Ok(
            header_bytes(x.header) + fb_header_bytes(x.fb_header) + blocks_bytes(
                greedy_chunks(x.missing_seq_nums@, 16),
            ),
        ),
        SomeRtcpPacket::RtcpFbFirPacket(x) => Ok(
            header_bytes(x.header) + fb_header_bytes(x.fb_header) + fcis_bytes(x.fcis@),
        ),
        SomeRtcpPacket::RtcpFbPliPacket(x) => Ok(
            header_bytes(x.header) + fb_header_bytes(x.fb_header),
        ),
        SomeRtcpPacket::RtcpFbTccPacket(x) => match spec_tcc_write_error(
            x.reference_time,
            x.packet_reports@,
        ) {
            Some(e) => Err(e),
            None => Ok(
                header_bytes(x.header) + fb_header_bytes(x.fb_header) + tcc_body_bytes(
                    x.reference_time,
                    x.feedback_packet_count,
                    x.packet_reports@,
                ),
            ),
        },
    }
}

/// The wire form of packets one after another, or the first error.
pub open spec fn spec_write_all(ps: Seq<SomeRtcpPacket>) -> Result<Seq<u8>, RtcpError>
    decreases ps.len(),
{
    if ps.len() == 0 {
        Ok(Seq::empty())
    } else {
        match spec_write_single(ps[0]) {
            Err(e) => Err(e),
            Ok(b) => match spec_write_all(ps.drop_first()) {
                Err(e) => Err(e),
                Ok(rest) => Ok(b + rest),
            },
        }
    }
}

/// The wire form of a packet: a compound packet is its parts in order.
pub open spec fn spec_write(p: SomeRtcpPacket) -> Result<Seq<u8>, RtcpError> {
    match p {
        SomeRtcpPacket::CompoundRtcpPacket(ps) => spec_write_all(ps@),
        _ => spec_write_single(p),
    }
}

pub open spec fn writable(p: SomeRtcpPacket) -> bool {
    match p {
        SomeRtcpPacket::CompoundRtcpPacket(ps) => forall|i: int|
            0 <= i < ps@.len() ==> single_writable(#[trigger] ps@[i]),
        _ => single_writable(p),
    }
}

fn write_single(p: &SomeRtcpPacket, out: &mut Vec<u8>) -> (r: Result<(), RtcpError>)
    requires
        single_writable(*p),
    ensures
        match spec_write_single(*p) {
            Ok(b) => r is Ok && final(out)@ == old(out)@ + b,
            Err(e) => r == Err::<(), RtcpError>(e),
        },
{
    reveal(spec_write_single);
    match p {
        SomeRtcpPacket::CompoundRtcpPacket(_) => Err(RtcpError::FieldTooLarge),
        SomeRtcpPacket::RtcpByePacket(x) => x.write(out),
        SomeRtcpPacket::RtcpSrPacket(x) => {
            x.write(out);
            Ok(())
        },
        SomeRtcpPacket::RtcpRrPacket(x) => {
            x.write(out);
            Ok(())
        },
        SomeRtcpPacket::RtcpSdesPacket(x) => x.write(out),
        SomeRtcpPacket::RtcpFbNackPacket(x) => x.write(out),
        SomeRtcpPacket::RtcpFbFirPacket(x) => {
            x.write(out);
            Ok(())
        },
        SomeRtcpPacket::RtcpFbPliPacket(x) => {
            write_rtcp_fb_pli(out, x);
            Ok(())
        },
        SomeRtcpPacket::RtcpFbTccPacket(x) => x.write(out),
    }
}

impl SomeRtcpPacket {
    /// Appends the wire form of the packet; a compound packet's parts go one
    /// after another with no gap. On an error nothing is appended.
    pub fn write(&self, out: &mut Vec<u8>) -> (r: Result<(), RtcpError>)
        requires
            writable(*self),
        ensures
            match spec_write(*self) {
                Ok(b) => r is Ok && final(out)@ == old(out)@ + b,
                Err(e) => r == Err::<(), RtcpError>(e) && final(out)@ == old(out)@,
            },
    {
        let mut scratch: Vec<u8> = Vec::new();
        match self {
            SomeRtcpPacket::CompoundRtcpPacket(ps) => {
                let ghost total = spec_write_all(ps@);
                let mut i: usize = 0;
                assert(ps@.skip(0) =~= ps@);
                assert(scratch@ =~= Seq::<u8>::empty());
                assert(total == (match spec_write_all(ps@.skip(0)) {
                    Err(e) => Err(e),
                    Ok(rest) => Ok(scratch@ + rest),
                })) by {
                    match spec_write_all(ps@) {
                        Err(_) => {},
                        Ok(rest) => {
                            assert(Seq::<u8>::empty() + rest =~= rest);
                        },
                    }
                }
                while i < ps.len()
                    invariant
                        i <= ps@.len(),
                        total == spec_write_all(ps@),
                        total == spec_write(*self),
                        forall|j: int| 0 <= j < ps@.len() ==> single_writable(#[trigger] ps@[j]),
                        total == (match spec_write_all(ps@.skip(i as int)) {
                            Err(e) => Err(e),
                            Ok(rest) => Ok(scratch@ + rest),
                        }),
                    decreases ps@.len() - i,
                {
                    let ghost before = scratch@;
                    let ghost rest_ps = ps@.skip(i as int);
                    assert(rest_ps[0] == ps@[i as int]);
                    assert(rest_ps.drop_first() =~= ps@.skip(i + 1));
                    let res = write_single(&ps[i], &mut scratch);
                    if let Err(e) = res {
                        assert(spec_write_single(rest_ps[0]) == Err::<Seq<u8>, RtcpError>(e));
                        assert(spec_write_all(rest_ps) == Err::<Seq<u8>, RtcpError>(e));
                        return Err(e);
                    }
                    proof {
                        match spec_write_all(ps@.skip(i + 1)) {
                            Err(_) => {},
                            Ok(rest) => {
                                let b = spec_write_single(ps@[i as int])->Ok_0;
                                assert(before + (b + rest) =~= scratch@ + rest);
                            },
                        }
                    }
                    i = i + 1;
                }
                assert(ps@.skip(i as int) =~= Seq::<SomeRtcpPacket>::empty());
                assert(scratch@ + Seq::<u8>::empty() =~= scratch@);
            },
            _ => {
                let res = write_single(self, &mut scratch);
                if let Err(e) = res {
                    return Err(e);
                }
                assert(scratch@ =~= Seq::<u8>::empty() + spec_write_single(*self)->Ok_0);
            },
        }
        push_bytes(out, scratch.as_slice());
        Ok(())
    }
}

} // verus!
