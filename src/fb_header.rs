//! The sender / media-source SSRC pair that starts every feedback payload.
use vstd::prelude::*;

use crate::error::RtcpError;
use crate::wire::{push_u32, read_u32, spec_read_u32, u32_bytes, lemma_u32_bytes, has_bytes};

verus! {

/// Packet type of transport-layer feedback (NACK, TCC).
pub const RTCP_FB_TL_PT: u8 = 205;

/// Packet type of payload-specific feedback (PLI, FIR).
pub const RTCP_FB_PS_PT: u8 = 206;

/// ```text
/// |                  SSRC of packet sender                        |
/// |                  SSRC of media source                         |
/// ```
#[derive(Debug, Clone, Copy, PartialEq, Eq, Structural)]
pub struct RtcpFbHeader {
    pub sender_ssrc: u32,
    pub media_source_ssrc: u32,
}

/// The size of the feedback header in bytes.
pub const RTCP_FB_HEADER_SIZE_BYTES: usize = 8;

pub open spec fn fb_header_bytes(h: RtcpFbHeader) -> Seq<u8> {
    u32_bytes(h.sender_ssrc) + u32_bytes(h.media_source_ssrc)
}

pub open spec fn spec_read_fb_header(s: Seq<u8>, pos: int) -> Result<RtcpFbHeader, RtcpError> {
    if !has_bytes(s, pos, 8) {
        Err(RtcpError::TruncatedRead)
    } else {
        Ok(
            RtcpFbHeader {
                sender_ssrc: spec_read_u32(s, pos)->Ok_0,
                media_source_ssrc: spec_read_u32(s, pos + 4)->Ok_0,
            },
        )
    }
}

impl RtcpFbHeader {
    pub fn new(sender_ssrc: u32, media_source_ssrc: u32) -> (r: Self)
        ensures
            r == (RtcpFbHeader { sender_ssrc, media_source_ssrc }),
    {
        RtcpFbHeader { sender_ssrc, media_source_ssrc }
    }

    pub fn sender_ssrc(self, sender_ssrc: u32) -> (r: Self)
        ensures
            r == (RtcpFbHeader { sender_ssrc, ..self }),
    {
        RtcpFbHeader { sender_ssrc, ..self }
    }

    pub fn media_source_ssrc(self, media_source_ssrc: u32) -> (r: Self)
        ensures
            r == (RtcpFbHeader { media_source_ssrc, ..self }),
    {
        RtcpFbHeader { media_source_ssrc, ..self }
    }

    /// Decodes the feedback header that starts at `pos` of `buf`.
    pub fn read(buf: &[u8], pos: usize) -> (r: Result<RtcpFbHeader, RtcpError>)
        ensures
            r == spec_read_fb_header(buf@, pos as int),
    {
        if pos >= buf.len() || buf.len() - pos < 8 {
            return Err(RtcpError::TruncatedRead);
        }
        let sender_ssrc = read_u32(buf, pos);
        let media_source_ssrc = read_u32(buf, pos + 4);
        match (sender_ssrc, media_source_ssrc) {
            (Ok(sender_ssrc), Ok(media_source_ssrc)) => Ok(
                RtcpFbHeader { sender_ssrc, media_source_ssrc },
            ),
            _ => Err(RtcpError::TruncatedRead),
        }
    }

    /// Appends the wire form of the feedback header.
    pub fn write(&self, out: &mut Vec<u8>)
        ensures
            final(out)@ == old(out)@ + fb_header_bytes(*self),
    {
        push_u32(out, self.sender_ssrc);
        push_u32(out, self.media_source_ssrc);
        assert(final(out)@ =~= old(out)@ + fb_header_bytes(*self));
    }
}

impl Default for RtcpFbHeader {
    fn default() -> (r: Self)
        ensures
            r == (RtcpFbHeader { sender_ssrc: 0, media_source_ssrc: 0 }),
    {
        RtcpFbHeader { sender_ssrc: 0, media_source_ssrc: 0 }
    }
}

/// A feedback header written and read back comes back unchanged.
pub proof fn lemma_fb_header_round_trip(h: RtcpFbHeader, prefix: Seq<u8>, rest: Seq<u8>)
    ensures
        spec_read_fb_header(prefix + fb_header_bytes(h) + rest, prefix.len() as int) == Ok::<
            RtcpFbHeader,
            RtcpError,
        >(h),
{
    let s = prefix + fb_header_bytes(h) + rest;
    let p = prefix.len() as int;
    lemma_u32_bytes(h.sender_ssrc);
    lemma_u32_bytes(h.media_source_ssrc);
    assert(s[p] == u32_bytes(h.sender_ssrc)[0]);
    assert(s[p + 1] == u32_bytes(h.sender_ssrc)[1]);
    assert(s[p + 2] == u32_bytes(h.sender_ssrc)[2]);
    assert(s[p + 3] == u32_bytes(h.sender_ssrc)[3]);
    assert(s[p + 4] == u32_bytes(h.media_source_ssrc)[0]);
    assert(s[p + 5] == u32_bytes(h.media_source_ssrc)[1]);
    assert(s[p + 6] == u32_bytes(h.media_source_ssrc)[2]);
    assert(s[p + 7] == u32_bytes(h.media_source_ssrc)[3]);
}

} // verus!
