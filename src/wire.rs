//! Big-endian fixed-width integers and four-byte alignment over byte buffers.
use vstd::prelude::*;

use crate::error::RtcpError;

verus! {

/// The 16-bit big-endian value of two bytes.
pub open spec fn be16(hi: u8, lo: u8) -> u16 {
    (hi as int * 256 + lo as int) as u16
}

/// The 24-bit big-endian value of three bytes.
pub open spec fn be24(b0: u8, b1: u8, b2: u8) -> u32 {
    (b0 as int * 65536 + b1 as int * 256 + b2 as int) as u32
}

/// The 32-bit big-endian value of four bytes.
pub open spec fn be32(b0: u8, b1: u8, b2: u8, b3: u8) -> u32 {
    (b0 as int * 16777216 + b1 as int * 65536 + b2 as int * 256 + b3 as int) as u32
}

pub open spec fn has_bytes(s: Seq<u8>, pos: int, n: int) -> bool {
    0 <= pos && pos + n <= s.len()
}

pub open spec fn spec_read_u8(s: Seq<u8>, pos: int) -> Result<u8, RtcpError> {
    if has_bytes(s, pos, 1) {
        Ok(s[pos])
    } else {
        Err(RtcpError::TruncatedRead)
    }
}

pub open spec fn spec_read_u16(s: Seq<u8>, pos: int) -> Result<u16, RtcpError> {
    if has_bytes(s, pos, 2) {
        Ok(be16(s[pos], s[pos + 1]))
    } else {
        Err(RtcpError::TruncatedRead)
    }
}

pub open spec fn spec_read_u24(s: Seq<u8>, pos: int) -> Result<u32, RtcpError> {
    if has_bytes(s, pos, 3) {
        Ok(be24(s[pos], s[pos + 1], s[pos + 2]))
    } else {
        Err(RtcpError::TruncatedRead)
    }
}

pub open spec fn spec_read_u32(s: Seq<u8>, pos: int) -> Result<u32, RtcpError> {
    if has_bytes(s, pos, 4) {
        Ok(be32(s[pos], s[pos + 1], s[pos + 2], s[pos + 3]))
    } else {
        Err(RtcpError::TruncatedRead)
    }
}

pub open spec fn u16_bytes(v: u16) -> Seq<u8> {
    seq![(v / 256) as u8, (v % 256) as u8]
}

pub open spec fn u24_bytes(v: u32) -> Seq<u8> {
    seq![((v / 65536) % 256) as u8, ((v / 256) % 256) as u8, (v % 256) as u8]
}

pub open spec fn u32_bytes(v: u32) -> Seq<u8> {
    seq![(v / 16777216) as u8, ((v / 65536) % 256) as u8, ((v / 256) % 256) as u8, (v % 256) as u8]
}

/// How many zero bytes bring an offset up to the next multiple of four.
pub open spec fn pad_len(n: int) -> int {
    (4 - n % 4) % 4
}

pub open spec fn zeros(n: int) -> Seq<u8> {
    Seq::new(n as nat, |i: int| 0u8)
}

pub open spec fn all_zero(s: Seq<u8>, from: int, to: int) -> bool {
    forall|i: int| from <= i < to ==> s[i] == 0
}

/// Skipping the padding that follows offset `pos` of `s`: the offset after it.
pub open spec fn spec_consume_padding(s: Seq<u8>, pos: int) -> Result<int, RtcpError> {
    if !has_bytes(s, pos, pad_len(pos)) {
        Err(RtcpError::TruncatedRead)
    } else if !all_zero(s, pos, pos + pad_len(pos)) {
        Err(RtcpError::NonZeroPadding)
    } else {
        Ok(pos + pad_len(pos))
    }
}

pub proof fn lemma_u16_bytes(v: u16)
    ensures
        be16(u16_bytes(v)[0], u16_bytes(v)[1]) == v,
        u16_bytes(v).len() == 2,
{
}

pub proof fn lemma_u24_bytes(v: u32)
    requires
        v < 0x1000000,
    ensures
        be24(u24_bytes(v)[0], u24_bytes(v)[1], u24_bytes(v)[2]) == v,
        u24_bytes(v).len() == 3,
{
}

pub proof fn lemma_u32_bytes(v: u32)
    ensures
        be32(u32_bytes(v)[0], u32_bytes(v)[1], u32_bytes(v)[2], u32_bytes(v)[3]) == v,
        u32_bytes(v).len() == 4,
{
}

pub fn read_u8(buf: &[u8], pos: usize) -> (r: Result<u8, RtcpError>)
    ensures
        r == spec_read_u8(buf@, pos as int),
{
    if pos < buf.len() {
        Ok(buf[pos])
    } else {
        Err(RtcpError::TruncatedRead)
    }
}

pub fn read_u16(buf: &[u8], pos: usize) -> (r: Result<u16, RtcpError>)
    ensures
        r == spec_read_u16(buf@, pos as int),
{
    if pos < buf.len() && buf.len() - pos >= 2 {
        Ok((buf[pos] as u16) * 256 + buf[pos + 1] as u16)
    } else {
        Err(RtcpError::TruncatedRead)
    }
}

pub fn read_u24(buf: &[u8], pos: usize) -> (r: Result<u32, RtcpError>)
    ensures
        r == spec_read_u24(buf@, pos as int),
{
    if pos < buf.len() && buf.len() - pos >= 3 {
        Ok((buf[pos] as u32) * 65536 + (buf[pos + 1] as u32) * 256 + buf[pos + 2] as u32)
    } else {
        Err(RtcpError::TruncatedRead)
    }
}

pub fn read_u32(buf: &[u8], pos: usize) -> (r: Result<u32, RtcpError>)
    ensures
        r == spec_read_u32(buf@, pos as int),
{
    if pos < buf.len() && buf.len() - pos >= 4 {
        Ok((buf[pos] as u32) * 16777216 + (buf[pos + 1] as u32) * 65536 + (buf[pos + 2] as u32)
            * 256 + buf[pos + 3] as u32)
    } else {
        Err(RtcpError::TruncatedRead)
    }
}

pub fn push_u16(out: &mut Vec<u8>, v: u16)
    ensures
        final(out)@ == old(out)@ + u16_bytes(v),
{
    out.push((v / 256) as u8);
    out.push((v % 256) as u8);
    assert(final(out)@ =~= old(out)@ + u16_bytes(v));
}

pub fn push_u24(out: &mut Vec<u8>, v: u32)
    ensures
        final(out)@ == old(out)@ + u24_bytes(v),
{
    out.push(((v / 65536) % 256) as u8);
    out.push(((v / 256) % 256) as u8);
    out.push((v % 256) as u8);
    assert(final(out)@ =~= old(out)@ + u24_bytes(v));
}

pub fn push_u32(out: &mut Vec<u8>, v: u32)
    ensures
        final(out)@ == old(out)@ + u32_bytes(v),
{
    out.push((v / 16777216) as u8);
    out.push(((v / 65536) % 256) as u8);
    out.push(((v / 256) % 256) as u8);
    out.push((v % 256) as u8);
    assert(final(out)@ =~= old(out)@ + u32_bytes(v));
}

/// Skips the zero bytes that bring `pos` to a multiple of four.
pub fn consume_padding(buf: &[u8], pos: usize) -> (r: Result<usize, RtcpError>)
    requires
        pos <= buf@.len(),
    ensures
        match r {
            Ok(p) => spec_consume_padding(buf@, pos as int) == Ok::<int, RtcpError>(p as int),
            Err(e) => spec_consume_padding(buf@, pos as int) == Err::<int, RtcpError>(e),
        },
{
    let n: usize = (4 - pos % 4) % 4;
    if buf.len() - pos < n {
        return Err(RtcpError::TruncatedRead);
    }
    let mut i: usize = 0;
    while i < n
        invariant
            n == pad_len(pos as int),
            pos + n <= buf@.len(),
            i <= n,
            all_zero(buf@, pos as int, pos + i),
        decreases n - i,
    {
        if buf[pos + i] != 0 {
            return Err(RtcpError::NonZeroPadding);
        }
        i = i + 1;
    }
    Ok(pos + n)
}

/// Appends the zero bytes that bring the bytes written since `start` to a
/// multiple of four.
pub fn push_padding(out: &mut Vec<u8>, start: usize)
    requires
        start <= old(out)@.len(),
    ensures
        final(out)@ == old(out)@ + zeros(pad_len(old(out)@.len() - start)),
{
    let n: usize = (4 - (out.len() - start) % 4) % 4;
    let ghost before = out@;
    let mut i: usize = 0;
    while i < n
        invariant
            n <= 3,
            i <= n,
            out@ == before + zeros(i as int),
        decreases n - i,
    {
        out.push(0u8);
        i = i + 1;
        assert(out@ =~= before + zeros(i as int));
    }
}


/// The bytes of `buf` from `from` to `to`.
pub fn copy_bytes(buf: &[u8], from: usize, to: usize) -> (r: Vec<u8>)
    requires
        from <= to <= buf@.len(),
    ensures
        r@ == buf@.subrange(from as int, to as int),
{
    let mut r: Vec<u8> = Vec::new();
    let mut i: usize = from;
    while i < to
        invariant
            from <= i <= to <= buf@.len(),
            r@ == buf@.subrange(from as int, i as int),
        decreases to - i,
    {
        r.push(buf[i]);
        i = i + 1;
        assert(r@ =~= buf@.subrange(from as int, i as int));
    }
    r
}

/// Appends every byte of `bytes`.
pub fn push_bytes(out: &mut Vec<u8>, bytes: &[u8])
    ensures
        final(out)@ == old(out)@ + bytes@,
{
    let ghost start = out@;
    let mut i: usize = 0;
    while i < bytes.len()
        invariant
            i <= bytes@.len(),
            out@ == start + bytes@.take(i as int),
        decreases bytes@.len() - i,
    {
        out.push(bytes[i]);
        i = i + 1;
        assert(out@ =~= start + bytes@.take(i as int));
    }
    assert(bytes@.take(i as int) =~= bytes@);
}

/// Decoding `n` big-endian 32-bit words from `pos`.
pub open spec fn spec_read_u32s(s: Seq<u8>, pos: int, n: nat) -> Result<(Seq<u32>, int), RtcpError>
    decreases n,
{
    if n == 0 {
        Ok((Seq::empty(), pos))
    } else if !has_bytes(s, pos, 4) {
        Err(RtcpError::TruncatedRead)
    } else {
        match spec_read_u32s(s, pos + 4, (n - 1) as nat) {
            Err(e) => Err(e),
            Ok((rest, end)) => Ok((seq![be32(s[pos], s[pos + 1], s[pos + 2], s[pos + 3])] + rest, end)),
        }
    }
}

pub open spec fn u32s_bytes(v: Seq<u32>) -> Seq<u8>
    decreases v.len(),
{
    if v.len() == 0 {
        Seq::empty()
    } else {
        u32s_bytes(v.drop_last()) + u32_bytes(v.last())
    }
}

/// Decodes `n` big-endian 32-bit words from `pos`.
pub fn read_u32s(buf: &[u8], pos: usize, n: usize) -> (r: Result<(Vec<u32>, usize), RtcpError>)
    requires
        pos <= buf@.len(),
    ensures
        match r {
            Ok((v, end)) => spec_read_u32s(buf@, pos as int, n as nat) == Ok::<(Seq<u32>, int), RtcpError>(
                (v@, end as int),
            ) && end <= buf@.len(),
            Err(e) => spec_read_u32s(buf@, pos as int, n as nat) == Err::<(Seq<u32>, int), RtcpError>(e),
        },
{
    let mut v: Vec<u32> = Vec::new();
    let mut p: usize = pos;
    let mut i: usize = 0;
    while i < n
        invariant
            i <= n,
            pos <= p <= buf@.len(),
            spec_read_u32s(buf@, pos as int, n as nat) == (match spec_read_u32s(
                buf@,
                p as int,
                (n - i) as nat,
            ) {
                Err(e) => Err(e),
                Ok((rest, end)) => Ok((v@ + rest, end)),
            }),
        decreases n - i,
    {
        match read_u32(buf, p) {
            Ok(x) => {
                let ghost before = v@;
                v.push(x);
                proof {
                    match spec_read_u32s(buf@, p + 4, (n - i - 1) as nat) {
                        Err(_) => {},
                        Ok((rest, end)) => {
                            assert(before + (seq![x] + rest) =~= v@ + rest);
                        },
                    }
                }
                assert(buf@.len() == buf.len());
                p = p + 4;
            },
            Err(e) => {
                return Err(e);
            },
        }
        i = i + 1;
    }
    assert(v@ + Seq::<u32>::empty() =~= v@);
    Ok((v, p))
}

/// Appends each word big-endian.
pub fn push_u32s(out: &mut Vec<u8>, v: &Vec<u32>)
    ensures
        final(out)@ == old(out)@ + u32s_bytes(v@),
{
    let ghost start = out@;
    let mut i: usize = 0;
    assert(v@.take(0) =~= Seq::<u32>::empty());
    while i < v.len()
        invariant
            i <= v@.len(),
            out@ == start + u32s_bytes(v@.take(i as int)),
        decreases v@.len() - i,
    {
        push_u32(out, v[i]);
        assert(v@.take(i + 1).drop_last() =~= v@.take(i as int));
        assert(out@ =~= start + u32s_bytes(v@.take(i + 1)));
        i = i + 1;
    }
    assert(v@.take(i as int) =~= v@);
}


pub proof fn lemma_u32s_len(v: Seq<u32>)
    ensures
        u32s_bytes(v).len() == 4 * v.len(),
    decreases v.len(),
{
    if v.len() > 0 {
        lemma_u32s_len(v.drop_last());
    }
}

} // verus!
