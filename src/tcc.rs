//! Transport-wide congestion-control feedback packets.
use vstd::prelude::*;

use crate::chunk::{
    ChunkView, PacketStatusSymbol, SomePacketStatusChunk, chunk_encodable, chunk_symbols, min,
    spec_decode_chunk, spec_encode_chunk,
};
use crate::packer::{chunk_views, pack_symbols, spec_pack};
use crate::error::RtcpError;
use crate::fb_header::{RtcpFbHeader, fb_header_bytes};
use crate::header::{RtcpHeader, header_bytes};
use crate::wire::{
    be16, be24, consume_padding, has_bytes, pad_len, push_padding, push_u16, push_u24, read_u16,
    read_u24, read_u8, spec_consume_padding, u16_bytes, u24_bytes, zeros,
};

verus! {

/// What a feedback packet reports about one packet.
#[derive(Debug, Clone, Copy, PartialEq, Eq, Structural)]
#[allow(inconsistent_fields)]
pub enum PacketReport {
    UnreceivedPacket { seq_num: u16 },
    ReceivedPacketSmallDelta { seq_num: u16, delta_ticks: u8 },
    ReceivedPacketLargeOrNegativeDelta { seq_num: u16, delta_ticks: i16 },
}

pub open spec fn report_seq_num(r: PacketReport) -> u16 {
    match r {
        PacketReport::UnreceivedPacket { seq_num } => seq_num,
        PacketReport::ReceivedPacketSmallDelta { seq_num, .. } => seq_num,
        PacketReport::ReceivedPacketLargeOrNegativeDelta { seq_num, .. } => seq_num,
    }
}

pub open spec fn report_symbol(r: PacketReport) -> PacketStatusSymbol {
    match r {
        PacketReport::UnreceivedPacket { .. } => PacketStatusSymbol::NotReceived,
        PacketReport::ReceivedPacketSmallDelta { .. } => PacketStatusSymbol::ReceivedSmallDelta,
        PacketReport::ReceivedPacketLargeOrNegativeDelta {
            ..
        } => PacketStatusSymbol::ReceivedLargeOrNegativeDelta,
    }
}

impl PacketReport {
    pub fn seq_num(&self) -> (r: u16)
        ensures
            r == report_seq_num(*self),
    {
        match self {
            PacketReport::UnreceivedPacket { seq_num } => *seq_num,
            PacketReport::ReceivedPacketSmallDelta { seq_num, .. } => *seq_num,
            PacketReport::ReceivedPacketLargeOrNegativeDelta { seq_num, .. } => *seq_num,
        }
    }

    pub fn symbol(&self) -> (r: PacketStatusSymbol)
        ensures
            r == report_symbol(*self),
    {
        match self {
            PacketReport::UnreceivedPacket { .. } => PacketStatusSymbol::NotReceived,
            PacketReport::ReceivedPacketSmallDelta { .. } => PacketStatusSymbol::ReceivedSmallDelta,
            PacketReport::ReceivedPacketLargeOrNegativeDelta {
                ..
            } => PacketStatusSymbol::ReceivedLargeOrNegativeDelta,
        }
    }
}

/// The sequence number after `seq`, wrapping at 2^16.
pub open spec fn next_seq(seq: u16) -> u16 {
    ((seq as int + 1) % 65536) as u16
}

pub open spec fn prepend_symbols(
    acc: Seq<PacketStatusSymbol>,
    r: Result<(Seq<PacketStatusSymbol>, int), RtcpError>,
) -> Result<(Seq<PacketStatusSymbol>, int), RtcpError> {
    match r {
        Ok((rest, end)) => Ok((acc + rest, end)),
        Err(e) => Err(e),
    }
}

pub open spec fn prepend_reports(
    acc: Seq<PacketReport>,
    r: Result<(Seq<PacketReport>, int), RtcpError>,
) -> Result<(Seq<PacketReport>, int), RtcpError> {
    match r {
        Ok((rest, end)) => Ok((acc + rest, end)),
        Err(e) => Err(e),
    }
}

/// Decoding status chunks from `pos` until `remaining` symbols are known: a
/// chunk counts for no more symbols than are still missing.
pub open spec fn spec_read_status(s: Seq<u8>, pos: int, remaining: int) -> Result<
    (Seq<PacketStatusSymbol>, int),
    RtcpError,
>
    decreases s.len() - pos,
{
    if remaining <= 0 {
        Ok((Seq::empty(), pos))
    } else if !has_bytes(s, pos, 2) {
        Err(RtcpError::TruncatedRead)
    } else {
        match spec_decode_chunk(be16(s[pos], s[pos + 1]), remaining) {
            Err(e) => Err(e),
            Ok(c) => {
                let got = chunk_symbols(c).take(min(chunk_symbols(c).len() as int, remaining));
                prepend_symbols(got, spec_read_status(s, pos + 2, remaining - got.len()))
            },
        }
    }
}

/// Decoding the receive deltas from `pos` for the symbols `syms`, the first
/// of which belongs to sequence number `seq`.
pub open spec fn spec_read_reports(s: Seq<u8>, pos: int, syms: Seq<PacketStatusSymbol>, seq: u16) -> Result<
    (Seq<PacketReport>, int),
    RtcpError,
>
    decreases syms.len(),
{
    if syms.len() == 0 {
        Ok((Seq::empty(), pos))
    } else {
        match syms[0] {
            PacketStatusSymbol::NotReceived => prepend_reports(
                seq![PacketReport::UnreceivedPacket { seq_num: seq }],
                spec_read_reports(s, pos, syms.drop_first(), next_seq(seq)),
            ),
            PacketStatusSymbol::ReceivedSmallDelta => {
                if !has_bytes(s, pos, 1) {
                    Err(RtcpError::TruncatedRead)
                } else {
                    prepend_reports(
                        seq![PacketReport::ReceivedPacketSmallDelta { seq_num: seq, delta_ticks: s[pos] }],
                        spec_read_reports(s, pos + 1, syms.drop_first(), next_seq(seq)),
                    )
                }
            },
            PacketStatusSymbol::ReceivedLargeOrNegativeDelta => {
                if !has_bytes(s, pos, 2) {
                    Err(RtcpError::TruncatedRead)
                } else {
                    prepend_reports(
                        seq![
                            PacketReport::ReceivedPacketLargeOrNegativeDelta {
                                seq_num: seq,
                                delta_ticks: be16(s[pos], s[pos + 1]) as i16,
                            },
                        ],
                        spec_read_reports(s, pos + 2, syms.drop_first(), next_seq(seq)),
                    )
                }
            },
        }
    }
}

/// The fields of a decoded TCC feedback body.
pub ghost struct TccBody {
    pub reference_time: u32,
    pub feedback_packet_count: u8,
    pub packet_reports: Seq<PacketReport>,
}

/// Decoding a TCC feedback body that starts at `pos`: base sequence number,
/// status count, reference time and feedback count, then the status chunks,
/// the receive deltas and the padding.
pub open spec fn spec_read_tcc_body(s: Seq<u8>, pos: int) -> Result<(TccBody, int), RtcpError> {
    if !has_bytes(s, pos, 8) {
        Err(RtcpError::TruncatedRead)
    } else {
        let base = be16(s[pos], s[pos + 1]);
        let count = be16(s[pos + 2], s[pos + 3]);
        let reference_time = be24(s[pos + 4], s[pos + 5], s[pos + 6]);
        let feedback_packet_count = s[pos + 7];
        match spec_read_status(s, pos + 8, count as int) {
            Err(e) => Err(e),
            Ok((syms, after_status)) => match spec_read_reports(s, after_status, syms, base) {
                Err(e) => Err(e),
                Ok((packet_reports, after_deltas)) => match spec_consume_padding(s, after_deltas) {
                    Err(e) => Err(e),
                    Ok(after_padding) => Ok(
                        (TccBody { reference_time, feedback_packet_count, packet_reports }, after_padding),
                    ),
                },
            },
        }
    }
}

/// A TCC feedback packet: reports for consecutive sequence numbers, starting
/// at the first report's.
#[derive(Debug, PartialEq)]
pub struct RtcpFbTccPacket {
    pub header: RtcpHeader,
    pub fb_header: RtcpFbHeader,
    pub packet_reports: Vec<PacketReport>,
    pub reference_time: u32,
    pub feedback_packet_count: u8,
}

proof fn lemma_prepend_symbols_assoc(
    a: Seq<PacketStatusSymbol>,
    b: Seq<PacketStatusSymbol>,
    r: Result<(Seq<PacketStatusSymbol>, int), RtcpError>,
)
    ensures
        prepend_symbols(a, prepend_symbols(b, r)) == prepend_symbols(a + b, r),
{
    match r {
        Ok((x, e)) => {
            assert(a + (b + x) =~= (a + b) + x);
        },
        Err(_) => {},
    }
}

proof fn lemma_prepend_reports_assoc(
    a: Seq<PacketReport>,
    b: Seq<PacketReport>,
    r: Result<(Seq<PacketReport>, int), RtcpError>,
)
    ensures
        prepend_reports(a, prepend_reports(b, r)) == prepend_reports(a + b, r),
{
    match r {
        Ok((x, e)) => {
            assert(a + (b + x) =~= (a + b) + x);
        },
        Err(_) => {},
    }
}

/// Decodes the status chunks from `pos` until `count` symbols are known.
fn read_status_symbols(buf: &[u8], pos: usize, count: usize) -> (r: Result<
    (Vec<PacketStatusSymbol>, usize),
    RtcpError,
>)
    requires
        pos <= buf@.len(),
    ensures
        match r {
            Ok((syms, end)) => spec_read_status(buf@, pos as int, count as int) == Ok::<
                (Seq<PacketStatusSymbol>, int),
                RtcpError,
            >((syms@, end as int)) && end <= buf@.len(),
            Err(e) => spec_read_status(buf@, pos as int, count as int) == Err::<
                (Seq<PacketStatusSymbol>, int),
                RtcpError,
            >(e),
        },
{
    let mut syms: Vec<PacketStatusSymbol> = Vec::new();
    let mut p: usize = pos;
    let mut remaining: usize = count;
    assert(syms@ + Seq::<PacketStatusSymbol>::empty() =~= syms@);
    assert(prepend_symbols(syms@, spec_read_status(buf@, pos as int, count as int)) =~= spec_read_status(
        buf@,
        pos as int,
        count as int,
    )) by {
        match spec_read_status(buf@, pos as int, count as int) {
            Ok((x, e)) => {
                assert(Seq::<PacketStatusSymbol>::empty() + x =~= x);
            },
            Err(_) => {},
        }
    }
    while remaining > 0
        invariant
            pos <= p <= buf@.len(),
            spec_read_status(buf@, pos as int, count as int) == prepend_symbols(
                syms@,
                spec_read_status(buf@, p as int, remaining as int),
            ),
        decreases buf@.len() - p,
    {
        if buf.len() - p < 2 {
            return Err(RtcpError::TruncatedRead);
        }
        let chunk = SomePacketStatusChunk::read(buf, p, remaining);
        match chunk {
            Err(e) => {
                return Err(e);
            },
            Ok(chunk) => {
                let ghost got = chunk_symbols(chunk@).take(
                    min(chunk_symbols(chunk@).len() as int, remaining as int),
                );
                let ghost before = syms@;
                let mut n: usize = 0;
                match chunk {
                    SomePacketStatusChunk::StatusVectorChunk(v) => {
                        let mut j: usize = 0;
                        while j < v.0.len()
                            invariant
                                j <= v.0@.len(),
                                syms@ == before + v.0@.take(j as int),
                            decreases v.0@.len() - j,
                        {
                            syms.push(v.0[j]);
                            j = j + 1;
                            assert(syms@ =~= before + v.0@.take(j as int));
                        }
                        assert(v.0@.take(j as int) =~= v.0@);
                        n = v.0.len();
                        assert(got =~= v.0@);
                    },
                    SomePacketStatusChunk::RunLengthEncodingChunk(c) => {
                        let m: usize = if (c.run_length as usize) < remaining {
                            c.run_length as usize
                        } else {
                            remaining
                        };
                        let mut j: usize = 0;
                        while j < m
                            invariant
                                j <= m,
                                syms@ == before + Seq::new(j as nat, |k: int| c.symbol),
                            decreases m - j,
                        {
                            syms.push(c.symbol);
                            j = j + 1;
                            assert(syms@ =~= before + Seq::new(j as nat, |k: int| c.symbol));
                        }
                        n = m;
                        assert(got =~= Seq::new(m as nat, |k: int| c.symbol));
                    },
                }
                proof {
                    lemma_prepend_symbols_assoc(
                        before,
                        got,
                        spec_read_status(buf@, p + 2, remaining - got.len()),
                    );
                }
                assert(n == got.len());
                remaining = remaining - n;
                p = p + 2;
            },
        }
    }
    assert(syms@ + Seq::<PacketStatusSymbol>::empty() =~= syms@);
    Ok((syms, p))
}


/// Decodes the receive deltas from `pos` for `syms`, numbering the reports
/// from `base` on.
fn read_reports(buf: &[u8], pos: usize, syms: &Vec<PacketStatusSymbol>, base: u16) -> (r: Result<
    (Vec<PacketReport>, usize),
    RtcpError,
>)
    requires
        pos <= buf@.len(),
    ensures
        match r {
            Ok((reports, end)) => spec_read_reports(buf@, pos as int, syms@, base) == Ok::<
                (Seq<PacketReport>, int),
                RtcpError,
            >((reports@, end as int)) && end <= buf@.len(),
            Err(e) => spec_read_reports(buf@, pos as int, syms@, base) == Err::<
                (Seq<PacketReport>, int),
                RtcpError,
            >(e),
        },
{
    let mut reports: Vec<PacketReport> = Vec::new();
    let mut q: usize = pos;
    let mut seq: u16 = base;
    let mut i: usize = 0;
    assert(syms@.skip(0) =~= syms@);
    assert(prepend_reports(reports@, spec_read_reports(buf@, pos as int, syms@, base))
        =~= spec_read_reports(buf@, pos as int, syms@, base)) by {
        match spec_read_reports(buf@, pos as int, syms@, base) {
            Ok((x, e)) => {
                assert(Seq::<PacketReport>::empty() + x =~= x);
            },
            Err(_) => {},
        }
    }
    while i < syms.len()
        invariant
            i <= syms@.len(),
            pos <= q <= buf@.len(),
            spec_read_reports(buf@, pos as int, syms@, base) == prepend_reports(
                reports@,
                spec_read_reports(buf@, q as int, syms@.skip(i as int), seq),
            ),
        decreases syms@.len() - i,
    {
        let ghost rest = syms@.skip(i as int);
        assert(rest[0] == syms@[i as int]);
        assert(rest.drop_first() =~= syms@.skip(i + 1));
        let ghost before = reports@;
        let report = match syms[i] {
            PacketStatusSymbol::NotReceived => PacketReport::UnreceivedPacket { seq_num: seq },
            PacketStatusSymbol::ReceivedSmallDelta => {
                let rd = read_u8(buf, q);
                match rd {
                    Ok(delta_ticks) => {
                        assert(has_bytes(buf@, q as int, 1));
                        assert(buf@.len() == buf.len());
                        q = q + 1;
                        PacketReport::ReceivedPacketSmallDelta { seq_num: seq, delta_ticks }
                    },
                    Err(e) => {
                        return Err(e);
                    },
                }
            },
            PacketStatusSymbol::ReceivedLargeOrNegativeDelta => {
                let rd = read_u16(buf, q);
                match rd {
                    Ok(raw) => {
                        assert(has_bytes(buf@, q as int, 2));
                        assert(buf@.len() == buf.len());
                        q = q + 2;
                        PacketReport::ReceivedPacketLargeOrNegativeDelta {
                            seq_num: seq,
                            delta_ticks: raw as i16,
                        }
                    },
                    Err(e) => {
                        return Err(e);
                    },
                }
            },
        };
        reports.push(report);
        proof {
            lemma_prepend_reports_assoc(
                before,
                seq![report],
                spec_read_reports(buf@, q as int, syms@.skip(i + 1), next_seq(seq)),
            );
            assert(before + seq![report] =~= reports@);
        }
        seq = seq.wrapping_add(1);
        i = i + 1;
    }
    assert(syms@.skip(i as int) =~= Seq::<PacketStatusSymbol>::empty());
    assert(reports@ + Seq::<PacketReport>::empty() =~= reports@);
    Ok((reports, q))
}

impl RtcpFbTccPacket {
    pub const FMT: u8 = 15;

    /// Decodes the TCC feedback body that starts at `pos` (after the
    /// feedback header): the result and the offset after its padding.
    pub fn read(buf: &[u8], pos: usize, header: RtcpHeader, fb_header: RtcpFbHeader) -> (r: Result<
        (RtcpFbTccPacket, usize),
        RtcpError,
    >)
        requires
            pos <= buf@.len(),
        ensures
            match r {
                Ok((p, end)) => {
                    &&& p.header == header
                    &&& p.fb_header == fb_header
                    &&& end <= buf@.len()
                    &&& spec_read_tcc_body(buf@, pos as int) == Ok::<(TccBody, int), RtcpError>(
                        (
                            TccBody {
                                reference_time: p.reference_time,
                                feedback_packet_count: p.feedback_packet_count,
                                packet_reports: p.packet_reports@,
                            },
                            end as int,
                        ),
                    )
                },
                Err(e) => spec_read_tcc_body(buf@, pos as int) == Err::<(TccBody, int), RtcpError>(e),
            },
    {
        if buf.len() - pos < 8 {
            return Err(RtcpError::TruncatedRead);
        }
        let (base_seq_num, packet_status_count, reference_time, feedback_packet_count) = match (
            read_u16(buf, pos),
            read_u16(buf, pos + 2),
            read_u24(buf, pos + 4),
            read_u8(buf, pos + 7),
        ) {
            (Ok(a), Ok(b), Ok(c), Ok(d)) => (a, b, c, d),
            _ => {
                return Err(RtcpError::TruncatedRead);
            },
        };
        let (syms, after_status) = match read_status_symbols(buf, pos + 8, packet_status_count as usize) {
            Ok(x) => x,
            Err(e) => {
                return Err(e);
            },
        };
        let (packet_reports, after_deltas) = match read_reports(buf, after_status, &syms, base_seq_num) {
            Ok(x) => x,
            Err(e) => {
                return Err(e);
            },
        };
        let after_padding = match consume_padding(buf, after_deltas) {
            Ok(after_padding) => after_padding,
            Err(e) => {
                return Err(e);
            },
        };
        Ok(
            (
                RtcpFbTccPacket {
                    header,
                    fb_header,
                    packet_reports,
                    reference_time,
                    feedback_packet_count,
                },
                after_padding,
            ),
        )
    }
}


pub open spec fn report_symbols(rs: Seq<PacketReport>) -> Seq<PacketStatusSymbol> {
    Seq::new(rs.len(), |i: int| report_symbol(rs[i]))
}

/// The sequence number of the first report, or 0 without reports.
pub open spec fn base_seq_of(rs: Seq<PacketReport>) -> u16 {
    if rs.len() > 0 {
        report_seq_num(rs[0])
    } else {
        0
    }
}

/// Each report belongs to the sequence number after the previous one's.
pub open spec fn consecutive(rs: Seq<PacketReport>) -> bool {
    forall|i: int|
        0 <= i < rs.len() ==> report_seq_num(#[trigger] rs[i]) == ((base_seq_of(rs) as int + i)
            % 65536) as u16
}

pub open spec fn chunk_words_bytes(cs: Seq<ChunkView>) -> Seq<u8>
    decreases cs.len(),
{
    if cs.len() == 0 {
        Seq::empty()
    } else {
        chunk_words_bytes(cs.drop_last()) + u16_bytes(spec_encode_chunk(cs.last())->Ok_0)
    }
}

pub open spec fn delta_bytes(r: PacketReport) -> Seq<u8> {
    match r {
        PacketReport::UnreceivedPacket { .. } => Seq::empty(),
        PacketReport::ReceivedPacketSmallDelta { delta_ticks, .. } => seq![delta_ticks],
        PacketReport::ReceivedPacketLargeOrNegativeDelta { delta_ticks, .. } => u16_bytes(
            delta_ticks as u16,
        ),
    }
}

pub open spec fn deltas_bytes(rs: Seq<PacketReport>) -> Seq<u8>
    decreases rs.len(),
{
    if rs.len() == 0 {
        Seq::empty()
    } else {
        deltas_bytes(rs.drop_last()) + delta_bytes(rs.last())
    }
}

/// The body of a TCC feedback packet before its padding.
pub open spec fn tcc_body_unpadded(reference_time: u32, feedback_packet_count: u8, rs: Seq<PacketReport>) -> Seq<u8> {
    u16_bytes(base_seq_of(rs)) + u16_bytes(rs.len() as u16) + u24_bytes(reference_time) + seq![
        feedback_packet_count,
    ] + chunk_words_bytes(spec_pack(report_symbols(rs))) + deltas_bytes(rs)
}

/// The wire form of a TCC feedback body.
pub open spec fn tcc_body_bytes(reference_time: u32, feedback_packet_count: u8, rs: Seq<PacketReport>) -> Seq<u8> {
    let b = tcc_body_unpadded(reference_time, feedback_packet_count, rs);
    b + zeros(pad_len(b.len() as int))
}

/// Why a TCC feedback body cannot be written, if it cannot.
pub open spec fn spec_tcc_write_error(reference_time: u32, rs: Seq<PacketReport>) -> Option<RtcpError> {
    if rs.len() > 65535 {
        Some(RtcpError::FieldTooLarge)
    } else if reference_time > 0xffffff {
        Some(RtcpError::FieldTooLarge)
    } else if !consecutive(rs) {
        Some(RtcpError::NonConsecutiveReports)
    } else {
        None
    }
}

proof fn lemma_chunk_words_push(cs: Seq<ChunkView>, c: ChunkView)
    ensures
        chunk_words_bytes(cs.push(c)) == chunk_words_bytes(cs) + u16_bytes(spec_encode_chunk(c)->Ok_0),
{
    assert(cs.push(c).drop_last() =~= cs);
}

proof fn lemma_deltas_push(rs: Seq<PacketReport>, r: PacketReport)
    ensures
        deltas_bytes(rs.push(r)) == deltas_bytes(rs) + delta_bytes(r),
{
    assert(rs.push(r).drop_last() =~= rs);
}

impl RtcpFbTccPacket {
    /// Appends the body: base sequence number, status count, reference time
    /// and feedback count, the chunks of the greedy packer over the reports'
    /// symbols, one or two delta bytes per received packet, and padding.
    pub fn write_body(&self, out: &mut Vec<u8>) -> (r: Result<(), RtcpError>)
        ensures
            match spec_tcc_write_error(self.reference_time, self.packet_reports@) {
                Some(e) => r == Err::<(), RtcpError>(e) && final(out)@ == old(out)@,
                None => r is Ok && final(out)@ == old(out)@ + tcc_body_bytes(
                    self.reference_time,
                    self.feedback_packet_count,
                    self.packet_reports@,
                ),
            },
    {
        let rs = &self.packet_reports;
        if rs.len() > 65535 || self.reference_time > 0xffffff {
            return Err(RtcpError::FieldTooLarge);
        }
        let base: u16 = if rs.len() > 0 { rs[0].seq_num() } else { 0 };
        let mut expected: u16 = base;
        let mut i: usize = 0;
        while i < rs.len()
            invariant
                i <= rs@.len() <= 65535,
                self.reference_time <= 0xffffff,
                rs == &self.packet_reports,
                base == base_seq_of(rs@),
                expected == ((base as int + i) % 65536) as u16,
                forall|j: int|
                    0 <= j < i ==> report_seq_num(#[trigger] rs@[j]) == ((base as int + j) % 65536) as u16,
            decreases rs@.len() - i,
        {
            if rs[i].seq_num() != expected {
                assert(report_seq_num(rs@[i as int]) != ((base_seq_of(rs@) as int + i) % 65536) as u16);
                assert(!consecutive(rs@));
                return Err(RtcpError::NonConsecutiveReports);
            }
            expected = expected.wrapping_add(1);
            i = i + 1;
        }
        let body_start = out.len();
        let ghost start = out@;
        push_u16(out, base);
        push_u16(out, rs.len() as u16);
        push_u24(out, self.reference_time);
        out.push(self.feedback_packet_count);
        let mut symbols: Vec<PacketStatusSymbol> = Vec::new();
        let mut i: usize = 0;
        while i < rs.len()
            invariant
                i <= rs@.len(),
                symbols@ == report_symbols(rs@).take(i as int),
            decreases rs@.len() - i,
        {
            symbols.push(rs[i].symbol());
            i = i + 1;
            assert(symbols@ =~= report_symbols(rs@).take(i as int));
        }
        assert(symbols@ =~= report_symbols(rs@));
        let chunks = pack_symbols(&symbols);
        let ghost cs = chunk_views(chunks@);
        let ghost words_start = out@;
        let mut k: usize = 0;
        assert(cs.take(0) =~= Seq::<ChunkView>::empty());
        while k < chunks.len()
            invariant
                k <= chunks@.len(),
                cs == chunk_views(chunks@),
                forall|j: int| 0 <= j < chunks@.len() ==> chunk_encodable(#[trigger] chunks@[j]@),
                out@ == words_start + chunk_words_bytes(cs.take(k as int)),
            decreases chunks@.len() - k,
        {
            let ghost before = out@;
            proof {
                crate::chunk::lemma_chunk_encodes(chunks@[k as int]@);
            }
            let res = chunks[k].write(out);
            if res.is_err() {
                // every chunk of the packer fits its wire form
                assert(false);
                return res;
            }
            proof {
                assert(cs[k as int] == chunks@[k as int]@);
                assert(cs.take(k as int).push(cs[k as int]) =~= cs.take(k + 1));
                lemma_chunk_words_push(cs.take(k as int), cs[k as int]);
            }
            k = k + 1;
        }
        assert(cs.take(k as int) =~= cs);
        let ghost deltas_start = out@;
        let mut i: usize = 0;
        assert(rs@.take(0) =~= Seq::<PacketReport>::empty());
        while i < rs.len()
            invariant
                i <= rs@.len(),
                out@ == deltas_start + deltas_bytes(rs@.take(i as int)),
            decreases rs@.len() - i,
        {
            let ghost before = out@;
            match rs[i] {
                PacketReport::UnreceivedPacket { .. } => {},
                PacketReport::ReceivedPacketSmallDelta { delta_ticks, .. } => {
                    out.push(delta_ticks);
                },
                PacketReport::ReceivedPacketLargeOrNegativeDelta { delta_ticks, .. } => {
                    push_u16(out, delta_ticks as u16);
                },
            }
            proof {
                assert(out@ =~= before + delta_bytes(rs@[i as int]));
                assert(rs@.take(i as int).push(rs@[i as int]) =~= rs@.take(i + 1));
                lemma_deltas_push(rs@.take(i as int), rs@[i as int]);
            }
            i = i + 1;
        }
        assert(rs@.take(i as int) =~= rs@);
        assert(out@ =~= start + tcc_body_unpadded(
            self.reference_time,
            self.feedback_packet_count,
            rs@,
        ));
        push_padding(out, body_start);
        Ok(())
    }

    /// Appends the header, the feedback header and the body.
    pub fn write(&self, out: &mut Vec<u8>) -> (r: Result<(), RtcpError>)
        requires
            self.header.wf(),
        ensures
            match spec_tcc_write_error(self.reference_time, self.packet_reports@) {
                Some(e) => r == Err::<(), RtcpError>(e) && final(out)@ == old(out)@,
                None => r is Ok && final(out)@ == old(out)@ + header_bytes(self.header)
                    + fb_header_bytes(self.fb_header) + tcc_body_bytes(
                    self.reference_time,
                    self.feedback_packet_count,
                    self.packet_reports@,
                ),
            },
    {
        let mut body: Vec<u8> = Vec::new();
        let res = self.write_body(&mut body);
        if res.is_err() {
            return res;
        }
        self.header.write(out);
        self.fb_header.write(out);
        let ghost mid = out@;
        let mut i: usize = 0;
        while i < body.len()
            invariant
                i <= body@.len(),
                out@ == mid + body@.take(i as int),
            decreases body@.len() - i,
        {
            out.push(body[i]);
            i = i + 1;
            assert(out@ =~= mid + body@.take(i as int));
        }
        assert(body@.take(i as int) =~= body@);
        assert(body@ =~= Seq::<u8>::empty() + tcc_body_bytes(
            self.reference_time,
            self.feedback_packet_count,
            self.packet_reports@,
        ));
        Ok(())
    }

    /// The payload length in bytes: the feedback header and the body.
    pub fn payload_length_bytes(&self) -> (r: Result<u16, RtcpError>)
        ensures
            match spec_tcc_write_error(self.reference_time, self.packet_reports@) {
                Some(e) => r == Err::<u16, RtcpError>(e),
                None => {
                    let n = 8 + tcc_body_bytes(
                        self.reference_time,
                        self.feedback_packet_count,
                        self.packet_reports@,
                    ).len();
                    &&& n <= u16::MAX ==> r == Ok::<u16, RtcpError>(n as u16)
                    &&& n > u16::MAX ==> r == Err::<u16, RtcpError>(RtcpError::FieldTooLarge)
                },
            },
    {
        let mut body: Vec<u8> = Vec::new();
        let res = self.write_body(&mut body);
        match res {
            Err(e) => Err(e),
            Ok(()) => {
                assert(body@ =~= tcc_body_bytes(
                    self.reference_time,
                    self.feedback_packet_count,
                    self.packet_reports@,
                ));
                if body.len() > 65527 {
                    Err(RtcpError::FieldTooLarge)
                } else {
                    Ok((body.len() + 8) as u16)
                }
            },
        }
    }

    /// Sets the length field to the payload and the count field to the TCC
    /// format.
    pub fn sync(&mut self) -> (r: Result<(), RtcpError>)
        ensures
            final(self).fb_header == old(self).fb_header,
            final(self).packet_reports@ == old(self).packet_reports@,
            final(self).reference_time == old(self).reference_time,
            final(self).feedback_packet_count == old(self).feedback_packet_count,
            match old(self).payload_length_bytes_spec() {
                Ok(n) => r is Ok && final(self).header == (RtcpHeader {
                    length_field: n / 4,
                    report_count: Self::FMT,
                    ..old(self).header
                }),
                Err(e) => r == Err::<(), RtcpError>(e) && final(self).header == old(self).header,
            },
    {
        match self.payload_length_bytes() {
            Ok(n) => {
                self.header.sync(n, Self::FMT);
                Ok(())
            },
            Err(e) => Err(e),
        }
    }

    /// What `payload_length_bytes` returns.
    pub open spec fn payload_length_bytes_spec(&self) -> Result<u16, RtcpError> {
        match spec_tcc_write_error(self.reference_time, self.packet_reports@) {
            Some(e) => Err(e),
            None => {
                let n = 8 + tcc_body_bytes(
                    self.reference_time,
                    self.feedback_packet_count,
                    self.packet_reports@,
                ).len();
                if n <= u16::MAX {
                    Ok(n as u16)
                } else {
                    Err(RtcpError::FieldTooLarge)
                }
            },
        }
    }
}

} // verus!
