//! Source description (SDES) packets: chunks of items per source.
use vstd::prelude::*;
use vstd::string::StringExecFns;
use vstd::utf8::{decode_utf8, encode_utf8, valid_utf8};

use crate::error::RtcpError;
use crate::header::{RtcpHeader, header_bytes};
use crate::text::{string_bytes, string_from_utf8};
use crate::wire::{
    be32, consume_padding, copy_bytes, has_bytes, pad_len, push_bytes, push_padding, push_u32,
    read_u32, spec_consume_padding, u32_bytes, zeros,
};

verus! {

/// One SDES item: the terminating empty item, a CNAME, or another type kept
/// as raw bytes.
#[derive(Debug, PartialEq)]
pub enum SdesItem {
    Empty,
    Cname(String),
    Unknown { item_type: u8, data: Vec<u8> },
}

pub ghost enum SdesItemView {
    Empty,
    Cname(Seq<char>),
    Unknown { item_type: u8, data: Seq<u8> },
}

impl View for SdesItem {
    type V = SdesItemView;

    open spec fn view(&self) -> SdesItemView {
        match self {
            SdesItem::Empty => SdesItemView::Empty,
            SdesItem::Cname(s) => SdesItemView::Cname(s@),
            SdesItem::Unknown { item_type, data } => SdesItemView::Unknown {
                item_type: *item_type,
                data: data@,
            },
        }
    }
}

/// Decoding the item at `pos`: a type byte, and for all but the empty item a
/// length byte and that many bytes.
pub open spec fn spec_read_sdes_item(s: Seq<u8>, pos: int) -> Result<(SdesItemView, int), RtcpError> {
    if !has_bytes(s, pos, 1) {
        Err(RtcpError::TruncatedRead)
    } else if s[pos] == 0 {
        Ok((SdesItemView::Empty, pos + 1))
    } else if !has_bytes(s, pos + 1, 1) || !has_bytes(s, pos + 2, s[pos + 1] as int) {
        Err(RtcpError::TruncatedRead)
    } else {
        let data = s.subrange(pos + 2, pos + 2 + s[pos + 1]);
        let end = pos + 2 + s[pos + 1];
        if s[pos] == 1 {
            if valid_utf8(data) {
                Ok((SdesItemView::Cname(decode_utf8(data)), end))
            } else {
                Err(RtcpError::InvalidUtf8)
            }
        } else {
            Ok((SdesItemView::Unknown { item_type: s[pos], data }, end))
        }
    }
}

/// The wire form of an item.
pub open spec fn sdes_item_bytes(i: SdesItemView) -> Seq<u8> {
    match i {
        SdesItemView::Empty => seq![0u8],
        SdesItemView::Cname(c) => seq![1u8, encode_utf8(c).len() as u8] + encode_utf8(c),
        SdesItemView::Unknown { item_type, data } => seq![item_type, data.len() as u8] + data,
    }
}

/// An item whose data fits its length byte and whose type byte matches it.
pub open spec fn sdes_item_fits(i: SdesItemView) -> bool {
    match i {
        SdesItemView::Empty => true,
        SdesItemView::Cname(c) => encode_utf8(c).len() <= 255,
        SdesItemView::Unknown { item_type, data } => data.len() <= 255 && item_type != 0
            && item_type != 1,
    }
}

impl SdesItem {
    pub fn cname(cname: &str) -> (r: Self)
        ensures
            r@ == SdesItemView::Cname(cname@),
    {
        SdesItem::Cname(String::from_str(cname))
    }

    /// The size of the item in bytes.
    pub fn length_bytes(&self) -> (r: usize)
        requires
            sdes_item_fits(self@),
        ensures
            r == sdes_item_bytes(self@).len(),
    {
        match self {
            SdesItem::Empty => 1,
            SdesItem::Cname(s) => 2 + string_bytes(s).len(),
            SdesItem::Unknown { data, .. } => 2 + data.len(),
        }
    }

    /// Decodes the item at `pos`.
    pub fn read(buf: &[u8], pos: usize) -> (r: Result<(SdesItem, usize), RtcpError>)
        ensures
            match r {
                Ok((item, end)) => spec_read_sdes_item(buf@, pos as int) == Ok::<
                    (SdesItemView, int),
                    RtcpError,
                >((item@, end as int)) && end <= buf@.len(),
                Err(e) => spec_read_sdes_item(buf@, pos as int) == Err::<(SdesItemView, int), RtcpError>(
                    e,
                ),
            },
    {
        if pos >= buf.len() {
            return Err(RtcpError::TruncatedRead);
        }
        let id = buf[pos];
        if id == 0 {
            return Ok((SdesItem::Empty, pos + 1));
        }
        if buf.len() - pos < 2 {
            return Err(RtcpError::TruncatedRead);
        }
        let n = buf[pos + 1] as usize;
        if buf.len() - pos - 2 < n {
            return Err(RtcpError::TruncatedRead);
        }
        let data = copy_bytes(buf, pos + 2, pos + 2 + n);
        if id == 1 {
            match string_from_utf8(data) {
                Some(text) => Ok((SdesItem::Cname(text), pos + 2 + n)),
                None => Err(RtcpError::InvalidUtf8),
            }
        } else {
            Ok((SdesItem::Unknown { item_type: id, data }, pos + 2 + n))
        }
    }

    /// Appends the item.
    pub fn write(&self, out: &mut Vec<u8>) -> (r: Result<(), RtcpError>)
        ensures
            !sdes_item_fits(self@) ==> r == Err::<(), RtcpError>(RtcpError::FieldTooLarge)
                && final(out)@ == old(out)@,
            sdes_item_fits(self@) ==> r is Ok && final(out)@ == old(out)@ + sdes_item_bytes(self@),
    {
        match self {
            SdesItem::Empty => {
                out.push(0u8);
                assert(final(out)@ =~= old(out)@ + sdes_item_bytes(self@));
            },
            SdesItem::Cname(text) => {
                let bytes = string_bytes(text);
                if bytes.len() > 255 {
                    return Err(RtcpError::FieldTooLarge);
                }
                out.push(1u8);
                out.push(bytes.len() as u8);
                push_bytes(out, bytes);
                assert(final(out)@ =~= old(out)@ + sdes_item_bytes(self@));
            },
            SdesItem::Unknown { item_type, data } => {
                if data.len() > 255 || *item_type == 0 || *item_type == 1 {
                    return Err(RtcpError::FieldTooLarge);
                }
                out.push(*item_type);
                out.push(data.len() as u8);
                push_bytes(out, data.as_slice());
                assert(final(out)@ =~= old(out)@ + sdes_item_bytes(self@));
            },
        }
        Ok(())
    }
}

/// Decoding items from `pos` up to and including the empty item that ends
/// the list; the empty item is not part of the result.
pub open spec fn spec_read_sdes_items(s: Seq<u8>, pos: int) -> Result<
    (Seq<SdesItemView>, int),
    RtcpError,
>
    decreases s.len() - pos,
{
    match spec_read_sdes_item(s, pos) {
        Err(e) => Err(e),
        Ok((item, end)) => {
            if item is Empty {
                Ok((Seq::empty(), end))
            } else if end <= pos || end > s.len() {
                Err(RtcpError::TruncatedRead)
            } else {
                match spec_read_sdes_items(s, end) {
                    Err(e) => Err(e),
                    Ok((rest, end2)) => Ok((seq![item] + rest, end2)),
                }
            }
        },
    }
}

/// Decoding a chunk at `pos`: the SSRC, the items and the padding after them.
#[verifier::opaque]
pub open spec fn spec_read_sdes_chunk(s: Seq<u8>, pos: int) -> Result<
    (u32, Seq<SdesItemView>, int),
    RtcpError,
> {
    if !has_bytes(s, pos, 4) {
        Err(RtcpError::TruncatedRead)
    } else {
        match spec_read_sdes_items(s, pos + 4) {
            Err(e) => Err(e),
            Ok((items, after_items)) => match spec_consume_padding(s, after_items) {
                Err(e) => Err(e),
                Ok(after_padding) => Ok((be32(s[pos], s[pos + 1], s[pos + 2], s[pos + 3]), items, after_padding)),
            },
        }
    }
}

pub open spec fn sdes_items_bytes(items: Seq<SdesItemView>) -> Seq<u8>
    decreases items.len(),
{
    if items.len() == 0 {
        Seq::empty()
    } else {
        sdes_items_bytes(items.drop_last()) + sdes_item_bytes(items.last())
    }
}

/// The wire form of a chunk: SSRC, items, the empty item and padding.
pub open spec fn sdes_chunk_bytes(ssrc: u32, items: Seq<SdesItemView>) -> Seq<u8> {
    let b = u32_bytes(ssrc) + sdes_items_bytes(items) + seq![0u8];
    b + zeros(pad_len(b.len() as int))
}

pub open spec fn items_fit(items: Seq<SdesItemView>) -> bool {
    forall|i: int| 0 <= i < items.len() ==> sdes_item_fits(#[trigger] items[i])
}

pub open spec fn items_view(items: Seq<SdesItem>) -> Seq<SdesItemView> {
    Seq::new(items.len(), |i: int| items[i]@)
}

/// The items of one source.
#[derive(Debug, PartialEq)]
pub struct SdesChunk {
    pub ssrc: u32,
    /// The empty item that ends the list is written by `write`, not kept here.
    pub sdes_items: Vec<SdesItem>,
}

proof fn lemma_items_bytes_len(items: Seq<SdesItemView>)
    requires
        items_fit(items),
    ensures
        sdes_items_bytes(items).len() <= 257 * items.len(),
    decreases items.len(),
{
    if items.len() > 0 {
        let init = items.drop_last();
        assert forall|i: int| 0 <= i < init.len() implies sdes_item_fits(#[trigger] init[i]) by {
            assert(init[i] == items[i]);
        }
        lemma_items_bytes_len(init);
        assert(sdes_item_fits(items[items.len() - 1]));
    }
}

impl SdesChunk {
    pub fn new(ssrc: u32) -> (r: Self)
        ensures
            r.ssrc == ssrc,
            r.sdes_items@.len() == 0,
    {
        SdesChunk { ssrc, sdes_items: Vec::new() }
    }

    pub fn new_with_items(ssrc: u32, sdes_items: Vec<SdesItem>) -> (r: Self)
        ensures
            r.ssrc == ssrc,
            r.sdes_items@ == sdes_items@,
    {
        SdesChunk { ssrc, sdes_items }
    }

    pub fn add_item(self, item: SdesItem) -> (r: Self)
        ensures
            r.ssrc == self.ssrc,
            r.sdes_items@ == self.sdes_items@.push(item),
    {
        let mut c = self;
        c.sdes_items.push(item);
        c
    }

    /// The size of the chunk in bytes: SSRC, items, empty item, padding.
    pub fn length_bytes(&self) -> (r: usize)
        requires
            items_fit(items_view(self.sdes_items@)),
            self.sdes_items@.len() <= 255,
        ensures
            r == sdes_chunk_bytes(self.ssrc, items_view(self.sdes_items@)).len(),
    {
        let ghost iv = items_view(self.sdes_items@);
        let mut n: usize = 4;
        let mut i: usize = 0;
        assert(iv.take(0) =~= Seq::<SdesItemView>::empty());
        while i < self.sdes_items.len()
            invariant
                i <= self.sdes_items@.len() <= 255,
                iv == items_view(self.sdes_items@),
                items_fit(iv),
                n == 4 + sdes_items_bytes(iv.take(i as int)).len(),
                n <= 4 + 257 * i,
            decreases self.sdes_items@.len() - i,
        {
            assert(iv[i as int] == self.sdes_items@[i as int]@);
            assert(sdes_item_fits(iv[i as int]));
            let m = self.sdes_items[i].length_bytes();
            assert(iv.take(i + 1).drop_last() =~= iv.take(i as int));
            n = n + m;
            i = i + 1;
        }
        assert(iv.take(i as int) =~= iv);
        n = n + 1;
        n + (4 - n % 4) % 4
    }

    /// Decodes the chunk at `pos`, with its padding.
    pub fn read(buf: &[u8], pos: usize) -> (r: Result<(SdesChunk, usize), RtcpError>)
        ensures
            match r {
                Ok((c, end)) => spec_read_sdes_chunk(buf@, pos as int) == Ok::<
                    (u32, Seq<SdesItemView>, int),
                    RtcpError,
                >((c.ssrc, items_view(c.sdes_items@), end as int)) && end <= buf@.len(),
                Err(e) => spec_read_sdes_chunk(buf@, pos as int) == Err::<
                    (u32, Seq<SdesItemView>, int),
                    RtcpError,
                >(e),
            },
    {
        reveal(spec_read_sdes_chunk);
        if pos >= buf.len() || buf.len() - pos < 4 {
            return Err(RtcpError::TruncatedRead);
        }
        let ssrc = match read_u32(buf, pos) {
            Ok(v) => v,
            Err(e) => {
                return Err(e);
            },
        };
        let mut items: Vec<SdesItem> = Vec::new();
        let mut p: usize = pos + 4;
        let ghost total = spec_read_sdes_items(buf@, pos + 4);
        assert(items_view(items@) =~= Seq::<SdesItemView>::empty());
        loop
            invariant
                pos + 4 <= p <= buf@.len(),
                has_bytes(buf@, pos as int, 4),
                ssrc == be32(buf@[pos as int], buf@[pos + 1], buf@[pos + 2], buf@[pos + 3]),
                total == spec_read_sdes_items(buf@, pos + 4),
                total == (match spec_read_sdes_items(buf@, p as int) {
                    Err(e) => Err(e),
                    Ok((rest, end)) => Ok((items_view(items@) + rest, end)),
                }),
            decreases buf@.len() - p,
        {
            reveal(spec_read_sdes_chunk);
            let (item, end) = match SdesItem::read(buf, p) {
                Ok(x) => x,
                Err(e) => {
                    return Err(e);
                },
            };
            if let SdesItem::Empty = item {
                assert(item@ is Empty);
                assert(spec_read_sdes_items(buf@, p as int) == Ok::<(Seq<SdesItemView>, int), RtcpError>(
                    (Seq::<SdesItemView>::empty(), end as int),
                ));
                assert(items_view(items@) + Seq::<SdesItemView>::empty() =~= items_view(items@));
                assert(total == Ok::<(Seq<SdesItemView>, int), RtcpError>((items_view(items@), end as int)));
                let after_padding = match consume_padding(buf, end) {
                    Ok(after_padding) => after_padding,
                    Err(e) => {
                        return Err(e);
                    },
                };
                return Ok((SdesChunk { ssrc, sdes_items: items }, after_padding));
            }
            let ghost before = items_view(items@);
            let ghost iv = item@;
            items.push(item);
            proof {
                assert(items_view(items@) =~= before.push(iv));
                match spec_read_sdes_items(buf@, end as int) {
                    Err(_) => {},
                    Ok((rest, end2)) => {
                        assert(before + (seq![iv] + rest) =~= items_view(items@) + rest);
                    },
                }
            }
            p = end;
        }
    }

    /// Appends the SSRC, the items, the empty item and padding.
    pub fn write(&self, out: &mut Vec<u8>) -> (r: Result<(), RtcpError>)
        ensures
            !items_fit(items_view(self.sdes_items@)) ==> r == Err::<(), RtcpError>(
                RtcpError::FieldTooLarge,
            ),
            items_fit(items_view(self.sdes_items@)) ==> r is Ok && final(out)@ == old(out)@
                + sdes_chunk_bytes(self.ssrc, items_view(self.sdes_items@)),
    {
        let ghost iv = items_view(self.sdes_items@);
        let start = out.len();
        let ghost start_bytes = out@;
        push_u32(out, self.ssrc);
        let mut i: usize = 0;
        assert(iv.take(0) =~= Seq::<SdesItemView>::empty());
        while i < self.sdes_items.len()
            invariant
                i <= self.sdes_items@.len(),
                iv == items_view(self.sdes_items@),
                start == start_bytes.len(),
                forall|j: int| 0 <= j < i ==> sdes_item_fits(#[trigger] iv[j]),
                out@ == start_bytes + u32_bytes(self.ssrc) + sdes_items_bytes(iv.take(i as int)),
            decreases self.sdes_items@.len() - i,
        {
            assert(iv[i as int] == self.sdes_items@[i as int]@);
            let res = self.sdes_items[i].write(out);
            if res.is_err() {
                assert(!sdes_item_fits(iv[i as int]));
                return res;
            }
            assert(iv.take(i + 1).drop_last() =~= iv.take(i as int));
            assert(out@ =~= start_bytes + u32_bytes(self.ssrc) + sdes_items_bytes(iv.take(i + 1)));
            i = i + 1;
        }
        assert(iv.take(i as int) =~= iv);
        out.push(0u8);
        push_padding(out, start);
        assert(final(out)@ =~= old(out)@ + sdes_chunk_bytes(self.ssrc, iv));
        Ok(())
    }
}

/// Decoding `n` chunks from `pos`.
pub open spec fn spec_read_sdes_chunks(s: Seq<u8>, pos: int, n: nat) -> Result<
    (Seq<(u32, Seq<SdesItemView>)>, int),
    RtcpError,
>
    decreases n,
{
    if n == 0 {
        Ok((Seq::empty(), pos))
    } else {
        match spec_read_sdes_chunk(s, pos) {
            Err(e) => Err(e),
            Ok((ssrc, items, after_items)) => match spec_read_sdes_chunks(s, after_items, (n - 1) as nat) {
                Err(e) => Err(e),
                Ok((rest, end)) => Ok((seq![(ssrc, items)] + rest, end)),
            },
        }
    }
}

pub open spec fn chunks_view(cs: Seq<SdesChunk>) -> Seq<(u32, Seq<SdesItemView>)> {
    Seq::new(cs.len(), |i: int| (cs[i].ssrc, items_view(cs[i].sdes_items@)))
}

pub open spec fn sdes_chunks_bytes(cs: Seq<(u32, Seq<SdesItemView>)>) -> Seq<u8>
    decreases cs.len(),
{
    if cs.len() == 0 {
        Seq::empty()
    } else {
        sdes_chunks_bytes(cs.drop_last()) + sdes_chunk_bytes(cs.last().0, cs.last().1)
    }
}

pub open spec fn chunks_fit(cs: Seq<(u32, Seq<SdesItemView>)>) -> bool {
    forall|i: int| 0 <= i < cs.len() ==> items_fit(#[trigger] cs[i].1)
}

/// An SDES packet.
#[derive(Debug, PartialEq)]
pub struct RtcpSdesPacket {
    pub header: RtcpHeader,
    pub chunks: Vec<SdesChunk>,
}

impl RtcpSdesPacket {
    pub const PT: u8 = 202;

    pub fn add_chunk(self, chunk: SdesChunk) -> (r: Self)
        ensures
            r.header == self.header,
            r.chunks@ == self.chunks@.push(chunk),
    {
        let mut p = self;
        p.chunks.push(chunk);
        p
    }

    /// The payload length in bytes, where it fits in 16 bits.
    pub fn payload_length_bytes(&self) -> (r: Result<u16, RtcpError>)
        requires
            chunks_fit(chunks_view(self.chunks@)),
            forall|i: int| 0 <= i < self.chunks@.len() ==> (#[trigger] self.chunks@[i]).sdes_items@.len() <= 255,
        ensures
            sdes_chunks_bytes(chunks_view(self.chunks@)).len() <= u16::MAX ==> r == Ok::<u16, RtcpError>(
                sdes_chunks_bytes(chunks_view(self.chunks@)).len() as u16,
            ),
            sdes_chunks_bytes(chunks_view(self.chunks@)).len() > u16::MAX ==> r == Err::<u16, RtcpError>(
                RtcpError::FieldTooLarge,
            ),
    {
        let ghost cv = chunks_view(self.chunks@);
        let mut n: usize = 0;
        let mut i: usize = 0;
        assert(cv.take(0) =~= Seq::<(u32, Seq<SdesItemView>)>::empty());
        while i < self.chunks.len()
            invariant
                i <= self.chunks@.len(),
                cv == chunks_view(self.chunks@),
                chunks_fit(cv),
                forall|j: int| 0 <= j < self.chunks@.len() ==> (#[trigger] self.chunks@[j]).sdes_items@.len() <= 255,
                n == sdes_chunks_bytes(cv.take(i as int)).len(),
                n <= u16::MAX,
            decreases self.chunks@.len() - i,
        {
            assert(cv[i as int] == (self.chunks@[i as int].ssrc, items_view(self.chunks@[i as int].sdes_items@)));
            assert(items_fit(cv[i as int].1));
            let m = self.chunks[i].length_bytes();
            assert(cv.take(i + 1).drop_last() =~= cv.take(i as int));
            if m > 65535 - n {
                proof {
                    lemma_chunks_bytes_prefix(cv, i + 1);
                }
                return Err(RtcpError::FieldTooLarge);
            }
            n = n + m;
            i = i + 1;
        }
        assert(cv.take(i as int) =~= cv);
        Ok(n as u16)
    }

    /// Sets the length field to the payload and the count to the chunks.
    pub fn sync(&mut self) -> (r: Result<(), RtcpError>)
        requires
            chunks_fit(chunks_view(old(self).chunks@)),
            forall|i: int| 0 <= i < old(self).chunks@.len() ==> (#[trigger] old(self).chunks@[i]).sdes_items@.len() <= 255,
            old(self).chunks@.len() < 32,
        ensures
            final(self).chunks@ == old(self).chunks@,
            sdes_chunks_bytes(chunks_view(old(self).chunks@)).len() <= u16::MAX ==> r is Ok
                && final(self).header == (RtcpHeader {
                length_field: (sdes_chunks_bytes(chunks_view(old(self).chunks@)).len() / 4) as u16,
                report_count: old(self).chunks@.len() as u8,
                ..old(self).header
            }),
            sdes_chunks_bytes(chunks_view(old(self).chunks@)).len() > u16::MAX ==> r == Err::<
                (),
                RtcpError,
            >(RtcpError::FieldTooLarge) && final(self).header == old(self).header,
    {
        match self.payload_length_bytes() {
            Ok(n) => {
                let count = self.chunks.len() as u8;
                self.header.sync(n, count);
                Ok(())
            },
            Err(e) => Err(e),
        }
    }

    /// Decodes the payload from `pos`, with as many chunks as the header's
    /// count.
    pub fn read(buf: &[u8], pos: usize, header: RtcpHeader) -> (r: Result<
        (RtcpSdesPacket, usize),
        RtcpError,
    >)
        requires
            pos <= buf@.len(),
        ensures
            match r {
                Ok((p, end)) => p.header == header && spec_read_sdes_chunks(
                    buf@,
                    pos as int,
                    header.report_count as nat,
                ) == Ok::<(Seq<(u32, Seq<SdesItemView>)>, int), RtcpError>(
                    (chunks_view(p.chunks@), end as int),
                ) && end <= buf@.len(),
                Err(e) => spec_read_sdes_chunks(buf@, pos as int, header.report_count as nat)
                    == Err::<(Seq<(u32, Seq<SdesItemView>)>, int), RtcpError>(e),
            },
    {
        let mut chunks: Vec<SdesChunk> = Vec::new();
        let mut p: usize = pos;
        let mut i: u8 = 0;
        let ghost total = spec_read_sdes_chunks(buf@, pos as int, header.report_count as nat);
        assert(chunks_view(chunks@) =~= Seq::<(u32, Seq<SdesItemView>)>::empty());
        while i < header.report_count
            invariant
                i <= header.report_count,
                p <= buf@.len(),
                total == spec_read_sdes_chunks(buf@, pos as int, header.report_count as nat),
                total == (match spec_read_sdes_chunks(buf@, p as int, (header.report_count - i) as nat) {
                    Err(e) => Err(e),
                    Ok((rest, end)) => Ok((chunks_view(chunks@) + rest, end)),
                }),
            decreases header.report_count - i,
        {
            let (c, end) = match SdesChunk::read(buf, p) {
                Ok(x) => x,
                Err(e) => {
                    return Err(e);
                },
            };
            let ghost before = chunks_view(chunks@);
            let ghost cv = (c.ssrc, items_view(c.sdes_items@));
            chunks.push(c);
            proof {
                assert(chunks_view(chunks@) =~= before.push(cv));
                match spec_read_sdes_chunks(buf@, end as int, (header.report_count - i - 1) as nat) {
                    Err(_) => {},
                    Ok((rest, end2)) => {
                        assert(before + (seq![cv] + rest) =~= chunks_view(chunks@) + rest);
                    },
                }
            }
            p = end;
            i = i + 1;
        }
        assert(chunks_view(chunks@) + Seq::<(u32, Seq<SdesItemView>)>::empty() =~= chunks_view(chunks@));
        Ok((RtcpSdesPacket { header, chunks }, p))
    }

    /// Appends the header and the chunks.
    pub fn write(&self, out: &mut Vec<u8>) -> (r: Result<(), RtcpError>)
        requires
            self.header.wf(),
        ensures
            !chunks_fit(chunks_view(self.chunks@)) ==> r == Err::<(), RtcpError>(
                RtcpError::FieldTooLarge,
            ),
            chunks_fit(chunks_view(self.chunks@)) ==> r is Ok && final(out)@ == old(out)@
                + header_bytes(self.header) + sdes_chunks_bytes(chunks_view(self.chunks@)),
    {
        let ghost cv = chunks_view(self.chunks@);
        self.header.write(out);
        let ghost start = out@;
        let mut i: usize = 0;
        assert(cv.take(0) =~= Seq::<(u32, Seq<SdesItemView>)>::empty());
        while i < self.chunks.len()
            invariant
                i <= self.chunks@.len(),
                cv == chunks_view(self.chunks@),
                forall|j: int| 0 <= j < i ==> items_fit(#[trigger] cv[j].1),
                out@ == start + sdes_chunks_bytes(cv.take(i as int)),
            decreases self.chunks@.len() - i,
        {
            assert(cv[i as int] == (self.chunks@[i as int].ssrc, items_view(self.chunks@[i as int].sdes_items@)));
            let res = self.chunks[i].write(out);
            if res.is_err() {
                assert(!items_fit(cv[i as int].1));
                return res;
            }
            assert(cv.take(i + 1).drop_last() =~= cv.take(i as int));
            assert(out@ =~= start + sdes_chunks_bytes(cv.take(i + 1)));
            i = i + 1;
        }
        assert(cv.take(i as int) =~= cv);
        Ok(())
    }
}

proof fn lemma_chunks_bytes_prefix(cv: Seq<(u32, Seq<SdesItemView>)>, k: int)
    requires
        0 <= k <= cv.len(),
    ensures
        sdes_chunks_bytes(cv.take(k)).len() <= sdes_chunks_bytes(cv).len(),
    decreases cv.len() - k,
{
    if k < cv.len() {
        lemma_chunks_bytes_prefix(cv, k + 1);
        assert(cv.take(k + 1).drop_last() =~= cv.take(k));
    } else {
        assert(cv.take(k) =~= cv);
    }
}

impl Default for RtcpSdesPacket {
    fn default() -> (r: Self)
        ensures
            r.header == (RtcpHeader {
                version: 2,
                has_padding: false,
                report_count: 0,
                packet_type: Self::PT,
                length_field: 0,
            }),
            r.chunks@.len() == 0,
    {
        RtcpSdesPacket { header: RtcpHeader::default().packet_type(Self::PT), chunks: Vec::new() }
    }
}

} // verus!
