//! The four-byte header that starts every RTCP packet.
use vstd::prelude::*;

use crate::error::RtcpError;
use crate::wire::{be16, be32, has_bytes, read_u16, read_u32, push_u16, u16_bytes, lemma_u16_bytes};

verus! {

/// ```text
///  0                   1                   2                   3
/// |V=2|P|    RC   |      PT       |             length            |
/// ```
/// `length_field` counts the 32-bit words of the payload that follows the
/// header; `report_count` is a count or a format, depending on the type.
#[derive(Debug, Clone, Copy, PartialEq, Eq, Structural)]
pub struct RtcpHeader {
    pub version: u8,
    pub has_padding: bool,
    pub report_count: u8,
    pub packet_type: u8,
    pub length_field: u16,
}

/// The size of the header in bytes.
pub const RTCP_HEADER_SIZE_BYTES: usize = 4;

/// The first byte of a header: version, padding bit and count.
pub open spec fn first_byte(h: RtcpHeader) -> u8 {
    (h.version as int * 64 + (if h.has_padding { 32int } else { 0int }) + h.report_count as int) as u8
}

/// The wire form of a header.
pub open spec fn header_bytes(h: RtcpHeader) -> Seq<u8> {
    seq![first_byte(h), h.packet_type] + u16_bytes(h.length_field)
}

/// Decoding a header that starts at `pos`.
pub open spec fn spec_read_header(s: Seq<u8>, pos: int) -> Result<RtcpHeader, RtcpError> {
    if !has_bytes(s, pos, 4) {
        Err(RtcpError::TruncatedRead)
    } else if s[pos] / 64 != 2 {
        Err(RtcpError::InvalidVersion(s[pos] / 64))
    } else {
        Ok(
            RtcpHeader {
                version: 2,
                has_padding: (s[pos] / 32) % 2 == 1,
                report_count: s[pos] % 32,
                packet_type: s[pos + 1],
                length_field: be16(s[pos + 2], s[pos + 3]),
            },
        )
    }
}

/// The payload length in bytes that a length field announces, where it fits
/// in 16 bits.
pub open spec fn spec_payload_length(length_field: u16) -> Result<u16, RtcpError> {
    if length_field as int * 4 <= u16::MAX {
        Ok((length_field * 4) as u16)
    } else {
        Err(RtcpError::LengthOverflow)
    }
}

impl RtcpHeader {
    /// The fields hold no more bits than the wire gives them.
    pub open spec fn wf(&self) -> bool {
        self.version < 4 && self.report_count < 32
    }

    /// The payload length in bytes: four times the length field.
    pub fn payload_length_bytes(&self) -> (r: Result<u16, RtcpError>)
        ensures
            r == spec_payload_length(self.length_field),
    {
        if self.length_field <= 16383 {
            Ok(self.length_field * 4)
        } else {
            Err(RtcpError::LengthOverflow)
        }
    }

    pub fn report_count(self, report_count: u8) -> (r: Self)
        ensures
            r == (RtcpHeader { report_count, ..self }),
    {
        RtcpHeader { report_count, ..self }
    }

    pub fn packet_type(self, packet_type: u8) -> (r: Self)
        ensures
            r == (RtcpHeader { packet_type, ..self }),
    {
        RtcpHeader { packet_type, ..self }
    }

    /// Brings the length field and the count in line with a payload of
    /// `payload_length_bytes` bytes.
    pub fn sync(&mut self, payload_length_bytes: u16, report_count: u8)
        ensures
            *final(self) == (RtcpHeader {
                length_field: payload_length_bytes / 4,
                report_count,
                ..*old(self)
            }),
    {
        self.length_field = payload_length_bytes / 4;
        self.report_count = report_count;
    }

    /// Decodes the header that starts at `pos` of `buf`.
    pub fn read(buf: &[u8], pos: usize) -> (r: Result<RtcpHeader, RtcpError>)
        ensures
            r == spec_read_header(buf@, pos as int),
            r matches Ok(h) ==> h.wf() && h.version == 2,
    {
        if pos >= buf.len() || buf.len() - pos < 4 {
            return Err(RtcpError::TruncatedRead);
        }
        let b0 = buf[pos];
        if b0 / 64 != 2 {
            return Err(RtcpError::InvalidVersion(b0 / 64));
        }
        let length_field = read_u16(buf, pos + 2);
        match length_field {
            Ok(length_field) => Ok(
                RtcpHeader {
                    version: 2,
                    has_padding: (b0 / 32) % 2 == 1,
                    report_count: b0 % 32,
                    packet_type: buf[pos + 1],
                    length_field,
                },
            ),
            Err(e) => Err(e),
        }
    }

    /// Appends the wire form of the header.
    pub fn write(&self, out: &mut Vec<u8>)
        requires
            self.wf(),
        ensures
            final(out)@ == old(out)@ + header_bytes(*self),
    {
        let padding_bit: u8 = if self.has_padding { 32 } else { 0 };
        out.push(self.version * 64 + padding_bit + self.report_count);
        out.push(self.packet_type);
        push_u16(out, self.length_field);
        assert(final(out)@ =~= old(out)@ + header_bytes(*self));
    }
}

impl Default for RtcpHeader {
    fn default() -> (r: Self)
        ensures
            r == (RtcpHeader {
                version: 2,
                has_padding: false,
                report_count: 0,
                packet_type: 0,
                length_field: 0,
            }),
    {
        RtcpHeader { version: 2, has_padding: false, report_count: 0, packet_type: 0, length_field: 0 }
    }
}

/// The sender SSRC of an undecoded packet: the big-endian word at bytes 4 to 8.
pub fn get_sender_ssrc(buf: &[u8]) -> (r: u32)
    requires
        buf@.len() >= 8,
    ensures
        r == be32(buf@[4], buf@[5], buf@[6], buf@[7]),
{
    match read_u32(buf, 4) {
        Ok(v) => v,
        Err(_) => 0,
    }
}

/// A header written and read back comes back unchanged.
pub proof fn lemma_header_round_trip(h: RtcpHeader, rest: Seq<u8>)
    requires
        h.wf(),
        h.version == 2,
    ensures
        spec_read_header(header_bytes(h) + rest, 0) == Ok::<RtcpHeader, RtcpError>(h),
{
    let s = header_bytes(h) + rest;
    lemma_u16_bytes(h.length_field);
    assert(s[0] == first_byte(h));
    assert(s[2] == u16_bytes(h.length_field)[0]);
    assert(s[3] == u16_bytes(h.length_field)[1]);
}

} // verus!
