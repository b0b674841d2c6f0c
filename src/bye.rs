//! BYE packets: the sources that leave, and why.
use vstd::prelude::*;
use vstd::string::StringExecFns;
use vstd::utf8::{decode_utf8, encode_utf8, valid_utf8};

use crate::error::RtcpError;
use crate::header::{RtcpHeader, header_bytes};
use crate::text::{string_bytes, string_from_utf8};
use crate::wire::{
    consume_padding, copy_bytes, has_bytes, pad_len, push_bytes, push_padding, push_u32s,
    read_u32s, spec_consume_padding, spec_read_u32s, u32s_bytes, zeros, lemma_u32s_len,
};

verus! {

/// The reason for leaving: text of at most 255 UTF-8 bytes on the wire.
#[derive(Debug, PartialEq)]
pub struct RtcpByeReason(pub String);

/// Decoding a reason at `pos`: a length byte and that many UTF-8 bytes.
pub open spec fn spec_read_reason(s: Seq<u8>, pos: int) -> Result<(Seq<char>, int), RtcpError> {
    if !has_bytes(s, pos, 1) || !has_bytes(s, pos + 1, s[pos] as int) {
        Err(RtcpError::TruncatedRead)
    } else if !valid_utf8(s.subrange(pos + 1, pos + 1 + s[pos])) {
        Err(RtcpError::InvalidUtf8)
    } else {
        Ok((decode_utf8(s.subrange(pos + 1, pos + 1 + s[pos])), pos + 1 + s[pos]))
    }
}

pub open spec fn reason_bytes(c: Seq<char>) -> Seq<u8> {
    seq![encode_utf8(c).len() as u8] + encode_utf8(c)
}

impl RtcpByeReason {
    pub fn new(reason: &str) -> (r: Self)
        ensures
            r.0@ == reason@,
    {
        RtcpByeReason(String::from_str(reason))
    }

    /// The length of the text in UTF-8 bytes.
    pub fn length_bytes(&self) -> (r: usize)
        ensures
            r == encode_utf8(self.0@).len(),
    {
        string_bytes(&self.0).len()
    }

    pub fn as_str(&self) -> (r: &str)
        ensures
            r@ == self.0@,
    {
        self.0.as_str()
    }

    /// Decodes the reason at `pos`.
    pub fn read(buf: &[u8], pos: usize) -> (r: Result<(RtcpByeReason, usize), RtcpError>)
        ensures
            match r {
                Ok((reason, end)) => spec_read_reason(buf@, pos as int) == Ok::<
                    (Seq<char>, int),
                    RtcpError,
                >((reason.0@, end as int)) && end <= buf@.len(),
                Err(e) => spec_read_reason(buf@, pos as int) == Err::<(Seq<char>, int), RtcpError>(e),
            },
    {
        if pos >= buf.len() {
            return Err(RtcpError::TruncatedRead);
        }
        let n = buf[pos] as usize;
        if buf.len() - pos - 1 < n {
            return Err(RtcpError::TruncatedRead);
        }
        let data = copy_bytes(buf, pos + 1, pos + 1 + n);
        match string_from_utf8(data) {
            Some(text) => Ok((RtcpByeReason(text), pos + 1 + n)),
            None => Err(RtcpError::InvalidUtf8),
        }
    }

    /// Appends the length byte and the text; fails on more than 255 bytes.
    pub fn write(&self, out: &mut Vec<u8>) -> (r: Result<(), RtcpError>)
        ensures
            encode_utf8(self.0@).len() > 255 ==> r == Err::<(), RtcpError>(RtcpError::FieldTooLarge)
                && final(out)@ == old(out)@,
            encode_utf8(self.0@).len() <= 255 ==> r is Ok && final(out)@ == old(out)@
                + reason_bytes(self.0@),
    {
        let bytes = string_bytes(&self.0);
        if bytes.len() > 255 {
            return Err(RtcpError::FieldTooLarge);
        }
        out.push(bytes.len() as u8);
        push_bytes(out, bytes);
        assert(final(out)@ =~= old(out)@ + reason_bytes(self.0@));
        Ok(())
    }
}

/// Decoding a BYE payload from `pos` with `n` sources: the SSRCs, then a
/// reason if any byte is left, then padding.
pub open spec fn spec_read_bye(s: Seq<u8>, pos: int, n: nat) -> Result<
    (Seq<u32>, Option<Seq<char>>, int),
    RtcpError,
> {
    match spec_read_u32s(s, pos, n) {
        Err(e) => Err(e),
        Ok((ssrcs, after_ssrcs)) => if after_ssrcs >= s.len() {
            Ok((ssrcs, None, after_ssrcs))
        } else {
            match spec_read_reason(s, after_ssrcs) {
                Err(e) => Err(e),
                Ok((reason, after_reason)) => match spec_consume_padding(s, after_reason) {
                    Err(e) => Err(e),
                    Ok(after_padding) => Ok((ssrcs, Some(reason), after_padding)),
                },
            }
        },
    }
}

pub open spec fn reason_view(r: Option<RtcpByeReason>) -> Option<Seq<char>> {
    match r {
        Some(x) => Some(x.0@),
        None => None,
    }
}

/// The payload of a BYE packet before padding.
pub open spec fn bye_payload_unpadded(ssrcs: Seq<u32>, reason: Option<Seq<char>>) -> Seq<u8> {
    u32s_bytes(ssrcs) + match reason {
        Some(c) => reason_bytes(c),
        None => Seq::empty(),
    }
}

pub open spec fn bye_payload_bytes(ssrcs: Seq<u32>, reason: Option<Seq<char>>) -> Seq<u8> {
    let b = bye_payload_unpadded(ssrcs, reason);
    b + zeros(pad_len(b.len() as int))
}

/// A BYE packet.
#[derive(Debug, PartialEq)]
pub struct RtcpByePacket {
    pub header: RtcpHeader,
    pub ssrcs: Vec<u32>,
    pub reason: Option<RtcpByeReason>,
}

impl RtcpByePacket {
    pub const PT: u8 = 203;

    /// The text of the reason fits its length byte.
    pub open spec fn reason_fits(&self) -> bool {
        self.reason matches Some(r) ==> encode_utf8(r.0@).len() <= 255
    }

    /// The payload length in bytes, padding included.
    pub fn payload_length_bytes(&self) -> (r: u16)
        requires
            self.ssrcs@.len() < 32,
            self.reason_fits(),
        ensures
            r == bye_payload_bytes(self.ssrcs@, reason_view(self.reason)).len(),
    {
        let mut n: usize = self.ssrcs.len() * 4;
        match &self.reason {
            Some(r) => {
                n = n + r.length_bytes() + 1;
            },
            None => {},
        }
        proof {
            lemma_u32s_len(self.ssrcs@);
        }
        let padded = n + (4 - n % 4) % 4;
        padded as u16
    }

    pub fn add_ssrc(self, ssrc: u32) -> (r: Self)
        ensures
            r.header == self.header,
            r.ssrcs@ == self.ssrcs@.push(ssrc),
            reason_view(r.reason) == reason_view(self.reason),
    {
        let mut p = self;
        p.ssrcs.push(ssrc);
        p
    }

    pub fn with_reason(self, reason: &str) -> (r: Self)
        ensures
            r.header == self.header,
            r.ssrcs@ == self.ssrcs@,
            reason_view(r.reason) == Some(reason@),
    {
        let mut p = self;
        p.reason = Some(RtcpByeReason::new(reason));
        p
    }

    /// Sets the length field to the payload and the count to the sources.
    pub fn sync(&mut self)
        requires
            old(self).ssrcs@.len() < 32,
            old(self).reason_fits(),
        ensures
            final(self).header == (RtcpHeader {
                length_field: (bye_payload_bytes(
                    old(self).ssrcs@,
                    reason_view(old(self).reason),
                ).len() / 4) as u16,
                report_count: old(self).ssrcs@.len() as u8,
                ..old(self).header
            }),
            final(self).ssrcs@ == old(self).ssrcs@,
            reason_view(final(self).reason) == reason_view(old(self).reason),
    {
        let n = self.payload_length_bytes();
        let count = self.ssrcs.len() as u8;
        self.header.sync(n, count);
    }

    /// Decodes the payload from `pos`, with as many sources as the header's
    /// count; zero bytes left after the sources means no reason.
    pub fn read(buf: &[u8], pos: usize, header: RtcpHeader) -> (r: Result<
        (RtcpByePacket, usize),
        RtcpError,
    >)
        requires
            pos <= buf@.len(),
        ensures
            match r {
                Ok((p, end)) => p.header == header && spec_read_bye(
                    buf@,
                    pos as int,
                    header.report_count as nat,
                ) == Ok::<(Seq<u32>, Option<Seq<char>>, int), RtcpError>(
                    (p.ssrcs@, reason_view(p.reason), end as int),
                ) && end <= buf@.len(),
                Err(e) => spec_read_bye(buf@, pos as int, header.report_count as nat) == Err::<
                    (Seq<u32>, Option<Seq<char>>, int),
                    RtcpError,
                >(e),
            },
    {
        let (ssrcs, after_ssrcs) = match read_u32s(buf, pos, header.report_count as usize) {
            Ok(x) => x,
            Err(e) => {
                return Err(e);
            },
        };
        if after_ssrcs >= buf.len() {
            return Ok((RtcpByePacket { header, ssrcs, reason: None }, after_ssrcs));
        }
        let (reason, after_reason) = match RtcpByeReason::read(buf, after_ssrcs) {
            Ok(x) => x,
            Err(e) => {
                return Err(e);
            },
        };
        match consume_padding(buf, after_reason) {
            Ok(after_padding) => Ok((RtcpByePacket { header, ssrcs, reason: Some(reason) }, after_padding)),
            Err(e) => Err(e),
        }
    }

    /// Appends the header, the sources, the reason and padding.
    pub fn write(&self, out: &mut Vec<u8>) -> (r: Result<(), RtcpError>)
        requires
            self.header.wf(),
        ensures
            !self.reason_fits() ==> r == Err::<(), RtcpError>(RtcpError::FieldTooLarge)
                && final(out)@ == old(out)@,
            self.reason_fits() ==> r is Ok && final(out)@ == old(out)@ + header_bytes(self.header)
                + bye_payload_bytes(self.ssrcs@, reason_view(self.reason)),
    {
        match &self.reason {
            Some(reason) => {
                if reason.length_bytes() > 255 {
                    return Err(RtcpError::FieldTooLarge);
                }
            },
            None => {},
        }
        self.header.write(out);
        let payload_start = out.len();
        let ghost start = out@;
        push_u32s(out, &self.ssrcs);
        match &self.reason {
            Some(reason) => {
                let res = reason.write(out);
                assert(res is Ok);
            },
            None => {},
        }
        assert(out@ =~= start + bye_payload_unpadded(self.ssrcs@, reason_view(self.reason)));
        push_padding(out, payload_start);
        assert(final(out)@ =~= old(out)@ + header_bytes(self.header) + bye_payload_bytes(
            self.ssrcs@,
            reason_view(self.reason),
        ));
        Ok(())
    }
}

impl Default for RtcpByePacket {
    fn default() -> (r: Self)
        ensures
            r.header == (RtcpHeader {
                version: 2,
                has_padding: false,
                report_count: 0,
                packet_type: Self::PT,
                length_field: 0,
            }),
            r.ssrcs@ == Seq::<u32>::empty(),
            r.reason is None,
    {
        RtcpByePacket {
            header: RtcpHeader::default().packet_type(Self::PT),
            ssrcs: Vec::new(),
            reason: None,
        }
    }
}

} // verus!
