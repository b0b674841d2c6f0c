//! Payload-specific feedback without a bitmask: full intra requests (FIR)
//! and picture loss indications (PLI).
use vstd::prelude::*;

use crate::error::RtcpError;
use crate::fb_header::{RTCP_FB_PS_PT, RtcpFbHeader, fb_header_bytes};
use crate::header::{RtcpHeader, header_bytes};
use crate::wire::{be32, has_bytes, push_u24, push_u32, read_u32, u24_bytes, u32_bytes};

verus! {

/// One FIR entry: the media sender asked for a full intra frame, and the
/// command sequence number. The 24 reserved bits are written as zero.
#[derive(Debug, Clone, Copy, PartialEq, Eq, Structural)]
pub struct RtcpFbFirFci {
    pub ssrc: u32,
    pub seq_num: u8,
}

pub open spec fn fci_bytes(f: RtcpFbFirFci) -> Seq<u8> {
    u32_bytes(f.ssrc) + seq![f.seq_num] + u24_bytes(0)
}

pub open spec fn fcis_bytes(fs: Seq<RtcpFbFirFci>) -> Seq<u8>
    decreases fs.len(),
{
    if fs.len() == 0 {
        Seq::empty()
    } else {
        fcis_bytes(fs.drop_last()) + fci_bytes(fs.last())
    }
}

/// Decoding FCI entries from `pos` to the end of `s`.
pub open spec fn spec_read_fcis(s: Seq<u8>, pos: int) -> Result<(Seq<RtcpFbFirFci>, int), RtcpError>
    decreases s.len() - pos,
{
    if pos < 0 || pos >= s.len() {
        Ok((Seq::empty(), pos))
    } else if !has_bytes(s, pos, 8) {
        Err(RtcpError::TruncatedRead)
    } else {
        let f = RtcpFbFirFci { ssrc: be32(s[pos], s[pos + 1], s[pos + 2], s[pos + 3]), seq_num: s[pos + 4] };
        match spec_read_fcis(s, pos + 8) {
            Err(e) => Err(e),
            Ok((rest, end)) => Ok((seq![f] + rest, end)),
        }
    }
}

impl RtcpFbFirFci {
    pub const SIZE_BYTES: usize = 8;

    pub fn new(ssrc: u32, seq_num: u8) -> (r: Self)
        ensures
            r == (RtcpFbFirFci { ssrc, seq_num }),
    {
        RtcpFbFirFci { ssrc, seq_num }
    }

    /// Decodes the entry at `pos`; the reserved bits are skipped.
    pub fn read(buf: &[u8], pos: usize) -> (r: Result<(RtcpFbFirFci, usize), RtcpError>)
        ensures
            match r {
                Ok((f, end)) => has_bytes(buf@, pos as int, 8) && end == pos + 8 && f == (RtcpFbFirFci {
                    ssrc: be32(buf@[pos as int], buf@[pos + 1], buf@[pos + 2], buf@[pos + 3]),
                    seq_num: buf@[pos + 4],
                }),
                Err(e) => !has_bytes(buf@, pos as int, 8) && e == RtcpError::TruncatedRead,
            },
    {
        if pos >= buf.len() || buf.len() - pos < 8 {
            return Err(RtcpError::TruncatedRead);
        }
        match read_u32(buf, pos) {
            Ok(ssrc) => Ok((RtcpFbFirFci { ssrc, seq_num: buf[pos + 4] }, pos + 8)),
            Err(e) => Err(e),
        }
    }

    pub fn write(&self, out: &mut Vec<u8>)
        ensures
            final(out)@ == old(out)@ + fci_bytes(*self),
    {
        push_u32(out, self.ssrc);
        out.push(self.seq_num);
        push_u24(out, 0);
        assert(final(out)@ =~= old(out)@ + fci_bytes(*self));
    }
}

/// A FIR packet.
#[derive(Debug, PartialEq)]
pub struct RtcpFbFirPacket {
    pub header: RtcpHeader,
    pub fb_header: RtcpFbHeader,
    pub fcis: Vec<RtcpFbFirFci>,
}

impl RtcpFbFirPacket {
    pub const FMT: u8 = 4;

    pub fn add_fci(self, fci: RtcpFbFirFci) -> (r: Self)
        ensures
            r.header == self.header,
            r.fb_header == self.fb_header,
            r.fcis@ == self.fcis@.push(fci),
    {
        let mut p = self;
        p.fcis.push(fci);
        p
    }

    /// The size of the FCI entries in bytes.
    pub fn payload_length_bytes(&self) -> (r: u16)
        requires
            self.fcis@.len() <= 8000,
        ensures
            r == 8 * self.fcis@.len(),
    {
        (self.fcis.len() * 8) as u16
    }

    /// Sets the length field to the feedback header and the entries, and the
    /// count field to the FIR format.
    pub fn sync(&mut self)
        requires
            old(self).fcis@.len() <= 8000,
        ensures
            final(self).header == (RtcpHeader {
                length_field: (2 + 2 * old(self).fcis@.len()) as u16,
                report_count: Self::FMT,
                ..old(self).header
            }),
            final(self).fb_header == old(self).fb_header,
            final(self).fcis@ == old(self).fcis@,
    {
        let n = self.payload_length_bytes();
        self.header.sync(n + 8, Self::FMT);
    }

    /// Decodes entries from `pos` to the end of `buf`.
    pub fn read(buf: &[u8], pos: usize, header: RtcpHeader, fb_header: RtcpFbHeader) -> (r: Result<
        (RtcpFbFirPacket, usize),
        RtcpError,
    >)
        requires
            pos <= buf@.len(),
        ensures
            match r {
                Ok((p, end)) => p.header == header && p.fb_header == fb_header && spec_read_fcis(
                    buf@,
                    pos as int,
                ) == Ok::<(Seq<RtcpFbFirFci>, int), RtcpError>((p.fcis@, end as int)) && end
                    <= buf@.len(),
                Err(e) => spec_read_fcis(buf@, pos as int) == Err::<(Seq<RtcpFbFirFci>, int), RtcpError>(
                    e,
                ),
            },
    {
        let mut fcis: Vec<RtcpFbFirFci> = Vec::new();
        let mut p: usize = pos;
        let ghost total = spec_read_fcis(buf@, pos as int);
        while p < buf.len()
            invariant
                pos <= p <= buf@.len(),
                total == spec_read_fcis(buf@, pos as int),
                total == (match spec_read_fcis(buf@, p as int) {
                    Err(e) => Err(e),
                    Ok((rest, end)) => Ok((fcis@ + rest, end)),
                }),
            decreases buf@.len() - p,
        {
            if buf.len() - p < 8 {
                return Err(RtcpError::TruncatedRead);
            }
            let ssrc = match read_u32(buf, p) {
                Ok(v) => v,
                Err(e) => {
                    return Err(e);
                },
            };
            let f = RtcpFbFirFci { ssrc, seq_num: buf[p + 4] };
            let ghost before = fcis@;
            fcis.push(f);
            proof {
                match spec_read_fcis(buf@, p + 8) {
                    Err(_) => {},
                    Ok((rest, end)) => {
                        assert(before + (seq![f] + rest) =~= fcis@ + rest);
                    },
                }
            }
            p = p + 8;
        }
        assert(fcis@ + Seq::<RtcpFbFirFci>::empty() =~= fcis@);
        Ok((RtcpFbFirPacket { header, fb_header, fcis }, p))
    }

    /// Appends the header, the feedback header and the entries.
    pub fn write(&self, out: &mut Vec<u8>)
        requires
            self.header.wf(),
        ensures
            final(out)@ == old(out)@ + header_bytes(self.header) + fb_header_bytes(self.fb_header)
                + fcis_bytes(self.fcis@),
    {
        self.header.write(out);
        self.fb_header.write(out);
        let ghost start = out@;
        let mut i: usize = 0;
        assert(self.fcis@.take(0) =~= Seq::<RtcpFbFirFci>::empty());
        while i < self.fcis.len()
            invariant
                i <= self.fcis@.len(),
                out@ == start + fcis_bytes(self.fcis@.take(i as int)),
            decreases self.fcis@.len() - i,
        {
            self.fcis[i].write(out);
            assert(self.fcis@.take(i + 1).drop_last() =~= self.fcis@.take(i as int));
            assert(out@ =~= start + fcis_bytes(self.fcis@.take(i + 1)));
            i = i + 1;
        }
        assert(self.fcis@.take(i as int) =~= self.fcis@);
    }
}

impl Default for RtcpFbFirPacket {
    fn default() -> (r: Self)
        ensures
            r.header == (RtcpHeader {
                version: 2,
                has_padding: false,
                report_count: Self::FMT,
                packet_type: RTCP_FB_PS_PT,
                length_field: 0,
            }),
            r.fb_header == (RtcpFbHeader { sender_ssrc: 0, media_source_ssrc: 0 }),
            r.fcis@.len() == 0,
    {
        RtcpFbFirPacket {
            header: RtcpHeader::default().packet_type(RTCP_FB_PS_PT).report_count(Self::FMT),
            fb_header: RtcpFbHeader::default().media_source_ssrc(0),
            fcis: Vec::new(),
        }
    }
}

/// A picture loss indication: the headers alone, no FCI.
#[derive(Debug, Clone, Copy, PartialEq, Eq, Structural)]
pub struct RtcpFbPliPacket {
    pub header: RtcpHeader,
    pub fb_header: RtcpFbHeader,
}

impl RtcpFbPliPacket {
    pub const FMT: u8 = 1;
}

/// A PLI carries nothing after the feedback header: the packet is the two
/// headers, and the offset stays where it is.
pub fn read_rtcp_fb_pli(buf: &[u8], pos: usize, header: RtcpHeader, fb_header: RtcpFbHeader) -> (r:
    Result<(RtcpFbPliPacket, usize), RtcpError>)
    ensures
        r == Ok::<(RtcpFbPliPacket, usize), RtcpError>((RtcpFbPliPacket { header, fb_header }, pos)),
{
    Ok((RtcpFbPliPacket { header, fb_header }, pos))
}

/// Appends the header and the feedback header.
pub fn write_rtcp_fb_pli(out: &mut Vec<u8>, fb_pli: &RtcpFbPliPacket)
    requires
        fb_pli.header.wf(),
    ensures
        final(out)@ == old(out)@ + header_bytes(fb_pli.header) + fb_header_bytes(fb_pli.fb_header),
{
    fb_pli.header.write(out);
    fb_pli.fb_header.write(out);
}

} // verus!
