//! Sender and receiver reports, with their sender-info and report blocks.
use vstd::prelude::*;

use crate::error::RtcpError;
use crate::header::{RtcpHeader, header_bytes};
use crate::wire::{
    be24, be32, has_bytes, push_u24, push_u32, read_u24, read_u32, u24_bytes, u32_bytes,
};

verus! {

/// One reception report block (24 bytes).
#[derive(Debug, Clone, Copy, PartialEq, Eq, Structural)]
pub struct RtcpReportBlock {
    pub ssrc: u32,
    pub fraction_lost: u8,
    /// 24 bits on the wire.
    pub cumulative_lost: u32,
    pub extended_highest_seq_num: u32,
    pub interarrival_jitter: u32,
    pub last_sr_timestamp: u32,
    pub delay_since_last_sr: u32,
}

/// The sender-info block of a sender report (20 bytes).
#[derive(Debug, Clone, Copy, PartialEq, Eq, Structural)]
pub struct RtcpSenderInfo {
    pub ntp_timestamp_msw: u32,
    pub ntp_timestamp_lsw: u32,
    pub rtp_timestamp: u32,
    pub sender_packet_count: u32,
    pub sender_octet_count: u32,
}

pub const REPORT_BLOCK_SIZE_BYTES: usize = 24;

pub const SENDER_INFO_SIZE_BYTES: usize = 20;

pub open spec fn u32_at(s: Seq<u8>, pos: int) -> u32 {
    be32(s[pos], s[pos + 1], s[pos + 2], s[pos + 3])
}

impl RtcpReportBlock {
    pub open spec fn wf(&self) -> bool {
        self.cumulative_lost <= 0xffffff
    }
}

pub open spec fn report_block_bytes(b: RtcpReportBlock) -> Seq<u8> {
    u32_bytes(b.ssrc) + seq![b.fraction_lost] + u24_bytes(b.cumulative_lost) + u32_bytes(
        b.extended_highest_seq_num,
    ) + u32_bytes(b.interarrival_jitter) + u32_bytes(b.last_sr_timestamp) + u32_bytes(
        b.delay_since_last_sr,
    )
}

#[verifier::opaque]
pub open spec fn spec_read_report_block(s: Seq<u8>, pos: int) -> Result<RtcpReportBlock, RtcpError> {
    if !has_bytes(s, pos, 24) {
        Err(RtcpError::TruncatedRead)
    } else {
        Ok(
            RtcpReportBlock {
                ssrc: u32_at(s, pos),
                fraction_lost: s[pos + 4],
                cumulative_lost: be24(s[pos + 5], s[pos + 6], s[pos + 7]),
                extended_highest_seq_num: u32_at(s, pos + 8),
                interarrival_jitter: u32_at(s, pos + 12),
                last_sr_timestamp: u32_at(s, pos + 16),
                delay_since_last_sr: u32_at(s, pos + 20),
            },
        )
    }
}

pub open spec fn sender_info_bytes(i: RtcpSenderInfo) -> Seq<u8> {
    u32_bytes(i.ntp_timestamp_msw) + u32_bytes(i.ntp_timestamp_lsw) + u32_bytes(i.rtp_timestamp)
        + u32_bytes(i.sender_packet_count) + u32_bytes(i.sender_octet_count)
}

pub open spec fn spec_read_sender_info(s: Seq<u8>, pos: int) -> Result<RtcpSenderInfo, RtcpError> {
    if !has_bytes(s, pos, 20) {
        Err(RtcpError::TruncatedRead)
    } else {
        Ok(
            RtcpSenderInfo {
                ntp_timestamp_msw: u32_at(s, pos),
                ntp_timestamp_lsw: u32_at(s, pos + 4),
                rtp_timestamp: u32_at(s, pos + 8),
                sender_packet_count: u32_at(s, pos + 12),
                sender_octet_count: u32_at(s, pos + 16),
            },
        )
    }
}

/// Decoding `n` report blocks from `pos`.
pub open spec fn spec_read_report_blocks(s: Seq<u8>, pos: int, n: nat) -> Result<
    (Seq<RtcpReportBlock>, int),
    RtcpError,
>
    decreases n,
{
    if n == 0 {
        Ok((Seq::empty(), pos))
    } else {
        match spec_read_report_block(s, pos) {
            Err(e) => Err(e),
            Ok(b) => match spec_read_report_blocks(s, pos + 24, (n - 1) as nat) {
                Err(e) => Err(e),
                Ok((rest, end)) => Ok((seq![b] + rest, end)),
            },
        }
    }
}

pub open spec fn report_blocks_bytes(bs: Seq<RtcpReportBlock>) -> Seq<u8>
    decreases bs.len(),
{
    if bs.len() == 0 {
        Seq::empty()
    } else {
        report_blocks_bytes(bs.drop_last()) + report_block_bytes(bs.last())
    }
}

fn read_u32_checked(buf: &[u8], pos: usize) -> (r: u32)
    requires
        has_bytes(buf@, pos as int, 4),
    ensures
        r == u32_at(buf@, pos as int),
{
    match read_u32(buf, pos) {
        Ok(v) => v,
        Err(_) => 0,
    }
}

/// Decodes the report block at `pos`.
pub fn read_rtcp_report_block(buf: &[u8], pos: usize) -> (r: Result<RtcpReportBlock, RtcpError>)
    ensures
        r == spec_read_report_block(buf@, pos as int),
        r matches Ok(b) ==> b.wf() && has_bytes(buf@, pos as int, 24),
{
    reveal(spec_read_report_block);
    if pos >= buf.len() || buf.len() - pos < 24 {
        return Err(RtcpError::TruncatedRead);
    }
    let cumulative_lost = match read_u24(buf, pos + 5) {
        Ok(v) => v,
        Err(e) => {
            return Err(e);
        },
    };
    let fraction_lost = buf[pos + 4];
    Ok(
        RtcpReportBlock {
            ssrc: read_u32_checked(buf, pos),
            fraction_lost,
            cumulative_lost,
            extended_highest_seq_num: read_u32_checked(buf, pos + 8),
            interarrival_jitter: read_u32_checked(buf, pos + 12),
            last_sr_timestamp: read_u32_checked(buf, pos + 16),
            delay_since_last_sr: read_u32_checked(buf, pos + 20),
        },
    )
}

/// Appends the wire form of a report block.
pub fn write_rtcp_report_block(out: &mut Vec<u8>, block: &RtcpReportBlock)
    requires
        block.wf(),
    ensures
        final(out)@ == old(out)@ + report_block_bytes(*block),
{
    push_u32(out, block.ssrc);
    out.push(block.fraction_lost);
    push_u24(out, block.cumulative_lost);
    push_u32(out, block.extended_highest_seq_num);
    push_u32(out, block.interarrival_jitter);
    push_u32(out, block.last_sr_timestamp);
    push_u32(out, block.delay_since_last_sr);
    assert(final(out)@ =~= old(out)@ + report_block_bytes(*block));
}

impl RtcpSenderInfo {
    pub fn read(buf: &[u8], pos: usize) -> (r: Result<RtcpSenderInfo, RtcpError>)
        ensures
            r == spec_read_sender_info(buf@, pos as int),
    {
        if pos >= buf.len() || buf.len() - pos < 20 {
            return Err(RtcpError::TruncatedRead);
        }
        Ok(
            RtcpSenderInfo {
                ntp_timestamp_msw: read_u32_checked(buf, pos),
                ntp_timestamp_lsw: read_u32_checked(buf, pos + 4),
                rtp_timestamp: read_u32_checked(buf, pos + 8),
                sender_packet_count: read_u32_checked(buf, pos + 12),
                sender_octet_count: read_u32_checked(buf, pos + 16),
            },
        )
    }

    pub fn write(&self, out: &mut Vec<u8>)
        ensures
            final(out)@ == old(out)@ + sender_info_bytes(*self),
    {
        push_u32(out, self.ntp_timestamp_msw);
        push_u32(out, self.ntp_timestamp_lsw);
        push_u32(out, self.rtp_timestamp);
        push_u32(out, self.sender_packet_count);
        push_u32(out, self.sender_octet_count);
        assert(final(out)@ =~= old(out)@ + sender_info_bytes(*self));
    }
}

/// Decodes `n` report blocks from `pos`.
fn read_report_blocks(buf: &[u8], pos: usize, n: u8) -> (r: Result<
    (Vec<RtcpReportBlock>, usize),
    RtcpError,
>)
    requires
        pos <= buf@.len(),
    ensures
        match r {
            Ok((bs, end)) => spec_read_report_blocks(buf@, pos as int, n as nat) == Ok::<
                (Seq<RtcpReportBlock>, int),
                RtcpError,
            >((bs@, end as int)) && end <= buf@.len() && forall|i: int|
                0 <= i < bs@.len() ==> (#[trigger] bs@[i]).wf(),
            Err(e) => spec_read_report_blocks(buf@, pos as int, n as nat) == Err::<
                (Seq<RtcpReportBlock>, int),
                RtcpError,
            >(e),
        },
    decreases n,
{
    if n == 0 {
        let v: Vec<RtcpReportBlock> = Vec::new();
        assert(v@ =~= Seq::<RtcpReportBlock>::empty());
        return Ok((v, pos));
    }
    let b = match read_rtcp_report_block(buf, pos) {
        Ok(b) => b,
        Err(e) => {
            return Err(e);
        },
    };
    assert(buf@.len() == buf.len());
    match read_report_blocks(buf, pos + 24, n - 1) {
        Ok((rest, end)) => {
            let mut bs: Vec<RtcpReportBlock> = Vec::new();
            bs.push(b);
            let mut i: usize = 0;
            while i < rest.len()
                invariant
                    i <= rest@.len(),
                    bs@ == seq![b] + rest@.take(i as int),
                    b.wf(),
                    forall|j: int| 0 <= j < rest@.len() ==> (#[trigger] rest@[j]).wf(),
                decreases rest@.len() - i,
            {
                bs.push(rest[i]);
                i = i + 1;
                assert(bs@ =~= seq![b] + rest@.take(i as int));
            }
            assert(rest@.take(i as int) =~= rest@);
            Ok((bs, end))
        },
        Err(e) => Err(e),
    }
}


fn write_report_blocks(out: &mut Vec<u8>, blocks: &Vec<RtcpReportBlock>)
    requires
        forall|i: int| 0 <= i < blocks@.len() ==> (#[trigger] blocks@[i]).wf(),
    ensures
        final(out)@ == old(out)@ + report_blocks_bytes(blocks@),
{
    let ghost start = out@;
    let mut i: usize = 0;
    assert(blocks@.take(0) =~= Seq::<RtcpReportBlock>::empty());
    while i < blocks.len()
        invariant
            i <= blocks@.len(),
            forall|j: int| 0 <= j < blocks@.len() ==> (#[trigger] blocks@[j]).wf(),
            out@ == start + report_blocks_bytes(blocks@.take(i as int)),
        decreases blocks@.len() - i,
    {
        write_rtcp_report_block(out, &blocks[i]);
        assert(blocks@.take(i + 1).drop_last() =~= blocks@.take(i as int));
        assert(out@ =~= start + report_blocks_bytes(blocks@.take(i + 1)));
        i = i + 1;
    }
    assert(blocks@.take(i as int) =~= blocks@);
}

/// Decoding a sender-report payload from `pos` with `n` report blocks:
/// the sender SSRC, the sender info, the blocks and the offset after them.
pub open spec fn spec_read_sr(s: Seq<u8>, pos: int, n: nat) -> Result<
    (u32, RtcpSenderInfo, Seq<RtcpReportBlock>, int),
    RtcpError,
> {
    if !has_bytes(s, pos, 4) {
        Err(RtcpError::TruncatedRead)
    } else {
        match spec_read_sender_info(s, pos + 4) {
            Err(e) => Err(e),
            Ok(info) => match spec_read_report_blocks(s, pos + 24, n) {
                Err(e) => Err(e),
                Ok((blocks, end)) => Ok((u32_at(s, pos), info, blocks, end)),
            },
        }
    }
}

/// Decoding a receiver-report payload from `pos` with `n` report blocks.
pub open spec fn spec_read_rr(s: Seq<u8>, pos: int, n: nat) -> Result<
    (u32, Seq<RtcpReportBlock>, int),
    RtcpError,
> {
    if !has_bytes(s, pos, 4) {
        Err(RtcpError::TruncatedRead)
    } else {
        match spec_read_report_blocks(s, pos + 4, n) {
            Err(e) => Err(e),
            Ok((blocks, end)) => Ok((u32_at(s, pos), blocks, end)),
        }
    }
}

pub open spec fn blocks_wf(bs: Seq<RtcpReportBlock>) -> bool {
    forall|i: int| 0 <= i < bs.len() ==> (#[trigger] bs[i]).wf()
}

/// A sender report.
#[derive(Debug, PartialEq)]
pub struct RtcpSrPacket {
    pub header: RtcpHeader,
    pub sender_ssrc: u32,
    pub sender_info: RtcpSenderInfo,
    pub report_blocks: Vec<RtcpReportBlock>,
}

impl RtcpSrPacket {
    pub const PT: u8 = 200;

    pub open spec fn wf(&self) -> bool {
        &&& self.header.wf()
        &&& self.report_blocks@.len() < 32
        &&& blocks_wf(self.report_blocks@)
    }

    /// The payload length in bytes: sender SSRC, sender info and blocks.
    pub fn payload_length_bytes(&self) -> (r: u16)
        requires
            self.report_blocks@.len() < 32,
        ensures
            r == 24 + 24 * self.report_blocks@.len(),
    {
        (24 + 24 * self.report_blocks.len()) as u16
    }

    /// Sets the length field to the payload and the count to the blocks.
    pub fn sync(&mut self)
        requires
            old(self).report_blocks@.len() < 32,
        ensures
            final(self).header == (RtcpHeader {
                length_field: (6 + 6 * old(self).report_blocks@.len()) as u16,
                report_count: old(self).report_blocks@.len() as u8,
                ..old(self).header
            }),
            final(self).sender_ssrc == old(self).sender_ssrc,
            final(self).sender_info == old(self).sender_info,
            final(self).report_blocks@ == old(self).report_blocks@,
    {
        let n = self.payload_length_bytes();
        let count = self.report_blocks.len() as u8;
        self.header.sync(n, count);
    }

    /// Decodes the payload from `pos`, with as many blocks as the header's
    /// count.
    pub fn read(buf: &[u8], pos: usize, header: RtcpHeader) -> (r: Result<
        (RtcpSrPacket, usize),
        RtcpError,
    >)
        requires
            pos <= buf@.len(),
        ensures
            match r {
                Ok((p, end)) => p.header == header && spec_read_sr(
                    buf@,
                    pos as int,
                    header.report_count as nat,
                ) == Ok::<(u32, RtcpSenderInfo, Seq<RtcpReportBlock>, int), RtcpError>(
                    (p.sender_ssrc, p.sender_info, p.report_blocks@, end as int),
                ) && blocks_wf(p.report_blocks@) && end <= buf@.len(),
                Err(e) => spec_read_sr(buf@, pos as int, header.report_count as nat) == Err::<
                    (u32, RtcpSenderInfo, Seq<RtcpReportBlock>, int),
                    RtcpError,
                >(e),
            },
    {
        if buf.len() - pos < 4 {
            return Err(RtcpError::TruncatedRead);
        }
        let sender_ssrc = read_u32_checked(buf, pos);
        let sender_info = match RtcpSenderInfo::read(buf, pos + 4) {
            Ok(i) => i,
            Err(e) => {
                return Err(e);
            },
        };
        match read_report_blocks(buf, pos + 24, header.report_count) {
            Ok((report_blocks, end)) => Ok(
                (RtcpSrPacket { header, sender_ssrc, sender_info, report_blocks }, end),
            ),
            Err(e) => Err(e),
        }
    }

    /// Appends the header and the payload.
    pub fn write(&self, out: &mut Vec<u8>)
        requires
            self.wf(),
        ensures
            final(out)@ == old(out)@ + header_bytes(self.header) + u32_bytes(self.sender_ssrc)
                + sender_info_bytes(self.sender_info) + report_blocks_bytes(self.report_blocks@),
    {
        self.header.write(out);
        push_u32(out, self.sender_ssrc);
        self.sender_info.write(out);
        write_report_blocks(out, &self.report_blocks);
    }
}

/// A receiver report.
#[derive(Debug, PartialEq)]
pub struct RtcpRrPacket {
    pub header: RtcpHeader,
    pub sender_ssrc: u32,
    pub report_blocks: Vec<RtcpReportBlock>,
}

impl RtcpRrPacket {
    pub const PT: u8 = 201;

    pub open spec fn wf(&self) -> bool {
        &&& self.header.wf()
        &&& self.report_blocks@.len() < 32
        &&& blocks_wf(self.report_blocks@)
    }

    /// The payload length in bytes: sender SSRC and blocks.
    pub fn payload_length_bytes(&self) -> (r: u16)
        requires
            self.report_blocks@.len() < 32,
        ensures
            r == 4 + 24 * self.report_blocks@.len(),
    {
        (4 + 24 * self.report_blocks.len()) as u16
    }

    /// Sets the length field to the payload and the count to the blocks.
    pub fn sync(&mut self)
        requires
            old(self).report_blocks@.len() < 32,
        ensures
            final(self).header == (RtcpHeader {
                length_field: (1 + 6 * old(self).report_blocks@.len()) as u16,
                report_count: old(self).report_blocks@.len() as u8,
                ..old(self).header
            }),
            final(self).sender_ssrc == old(self).sender_ssrc,
            final(self).report_blocks@ == old(self).report_blocks@,
    {
        let n = self.payload_length_bytes();
        let count = self.report_blocks.len() as u8;
        self.header.sync(n, count);
    }

    /// Decodes the payload from `pos`, with as many blocks as the header's
    /// count.
    pub fn read(buf: &[u8], pos: usize, header: RtcpHeader) -> (r: Result<
        (RtcpRrPacket, usize),
        RtcpError,
    >)
        requires
            pos <= buf@.len(),
        ensures
            match r {
                Ok((p, end)) => p.header == header && spec_read_rr(
                    buf@,
                    pos as int,
                    header.report_count as nat,
                ) == Ok::<(u32, Seq<RtcpReportBlock>, int), RtcpError>(
                    (p.sender_ssrc, p.report_blocks@, end as int),
                ) && blocks_wf(p.report_blocks@) && end <= buf@.len(),
                Err(e) => spec_read_rr(buf@, pos as int, header.report_count as nat) == Err::<
                    (u32, Seq<RtcpReportBlock>, int),
                    RtcpError,
                >(e),
            },
    {
        if buf.len() - pos < 4 {
            return Err(RtcpError::TruncatedRead);
        }
        let sender_ssrc = read_u32_checked(buf, pos);
        match read_report_blocks(buf, pos + 4, header.report_count) {
            Ok((report_blocks, end)) => Ok(
                (RtcpRrPacket { header, sender_ssrc, report_blocks }, end),
            ),
            Err(e) => Err(e),
        }
    }

    /// Appends the header and the payload.
    pub fn write(&self, out: &mut Vec<u8>)
        requires
            self.wf(),
        ensures
            final(out)@ == old(out)@ + header_bytes(self.header) + u32_bytes(self.sender_ssrc)
                + report_blocks_bytes(self.report_blocks@),
    {
        self.header.write(out);
        push_u32(out, self.sender_ssrc);
        write_report_blocks(out, &self.report_blocks);
    }
}

} // verus!
