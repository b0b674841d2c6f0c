//! A first look at a datagram: does it look like RTP, RTCP or DTLS, by its
//! first bytes (RFC 7983).
use vstd::prelude::*;

verus! {

/// Size of the fixed RTP header.
pub const RTP_HEADER_SIZE_BYTES: usize = 12;

pub open spec fn is_rtp_rtcp_first_byte(b: u8) -> bool {
    128 <= b <= 191
}

pub open spec fn is_rtcp_packet_type(b: u8) -> bool {
    192 <= b <= 223
}

/// At least an RTP header, a first byte in 128..=191, and a second byte
/// outside the RTCP packet types.
pub fn looks_like_rtp(buf: &[u8]) -> (r: bool)
    ensures
        r == (buf@.len() >= 12 && is_rtp_rtcp_first_byte(buf@[0]) && !is_rtcp_packet_type(buf@[1])),
{
    if buf.len() < RTP_HEADER_SIZE_BYTES {
        return false;
    }
    128 <= buf[0] && buf[0] <= 191 && !(192 <= buf[1] && buf[1] <= 223)
}

/// At least an RTCP header, a first byte in 128..=191, and a second byte
/// among the RTCP packet types 192..=223.
pub fn looks_like_rtcp(buf: &[u8]) -> (r: bool)
    ensures
        r == (buf@.len() >= 4 && is_rtp_rtcp_first_byte(buf@[0]) && is_rtcp_packet_type(buf@[1])),
{
    if buf.len() < crate::header::RTCP_HEADER_SIZE_BYTES {
        return false;
    }
    128 <= buf[0] && buf[0] <= 191 && 192 <= buf[1] && buf[1] <= 223
}

/// A first byte in 20..=63.
pub fn looks_like_dtls(buf: &[u8]) -> (r: bool)
    ensures
        r == (buf@.len() >= 1 && 20 <= buf@[0] <= 63),
{
    if buf.len() == 0 {
        return false;
    }
    20 <= buf[0] && buf[0] <= 63
}

} // verus!
