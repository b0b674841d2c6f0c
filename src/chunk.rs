//! Transport-wide congestion-control packet status symbols and the three
//! 16-bit chunk forms that carry them.
use vstd::prelude::*;

use crate::error::RtcpError;
use crate::wire::{push_u16, read_u16, spec_read_u16, u16_bytes};

verus! {

/// The status of one packet in a TCC feedback report.
#[derive(Debug, Clone, Copy, PartialEq, Eq, Structural)]
pub enum PacketStatusSymbol {
    NotReceived,
    ReceivedSmallDelta,
    ReceivedLargeOrNegativeDelta,
}

/// The two-bit wire code of a symbol.
pub open spec fn symbol_code(s: PacketStatusSymbol) -> u16 {
    match s {
        PacketStatusSymbol::NotReceived => 0,
        PacketStatusSymbol::ReceivedSmallDelta => 1,
        PacketStatusSymbol::ReceivedLargeOrNegativeDelta => 2,
    }
}

/// The symbol of a two-bit code other than 3.
pub open spec fn code_symbol(c: u16) -> PacketStatusSymbol {
    if c == 0 {
        PacketStatusSymbol::NotReceived
    } else if c == 1 {
        PacketStatusSymbol::ReceivedSmallDelta
    } else {
        PacketStatusSymbol::ReceivedLargeOrNegativeDelta
    }
}

/// How many delta bytes follow in the report for a symbol.
pub open spec fn spec_delta_size(s: PacketStatusSymbol) -> u8 {
    match s {
        PacketStatusSymbol::NotReceived => 0,
        PacketStatusSymbol::ReceivedSmallDelta => 1,
        PacketStatusSymbol::ReceivedLargeOrNegativeDelta => 2,
    }
}

impl PacketStatusSymbol {
    pub fn delta_size_bytes(&self) -> (r: u8)
        ensures
            r == spec_delta_size(*self),
    {
        match self {
            PacketStatusSymbol::NotReceived => 0,
            PacketStatusSymbol::ReceivedSmallDelta => 1,
            PacketStatusSymbol::ReceivedLargeOrNegativeDelta => 2,
        }
    }

    /// The symbol of a one-bit code: 0 not received, 1 small delta.
    pub fn from_one_bit(bit: u16) -> (r: PacketStatusSymbol)
        requires
            bit <= 1,
        ensures
            r == code_symbol(bit),
    {
        if bit == 0 {
            PacketStatusSymbol::NotReceived
        } else {
            PacketStatusSymbol::ReceivedSmallDelta
        }
    }

    /// The symbol of a two-bit code; code 3 is not a symbol.
    pub fn try_from_two_bits(code: u16) -> (r: Result<PacketStatusSymbol, RtcpError>)
        requires
            code <= 3,
        ensures
            code < 3 ==> r == Ok::<PacketStatusSymbol, RtcpError>(code_symbol(code)),
            code == 3 ==> r == Err::<PacketStatusSymbol, RtcpError>(
                RtcpError::InvalidStatusSymbol(3),
            ),
    {
        if code == 0 {
            Ok(PacketStatusSymbol::NotReceived)
        } else if code == 1 {
            Ok(PacketStatusSymbol::ReceivedSmallDelta)
        } else if code == 2 {
            Ok(PacketStatusSymbol::ReceivedLargeOrNegativeDelta)
        } else {
            Err(RtcpError::InvalidStatusSymbol(3))
        }
    }

    /// The two-bit code of the symbol.
    pub fn two_bit_code(&self) -> (r: u16)
        ensures
            r == symbol_code(*self),
    {
        match self {
            PacketStatusSymbol::NotReceived => 0,
            PacketStatusSymbol::ReceivedSmallDelta => 1,
            PacketStatusSymbol::ReceivedLargeOrNegativeDelta => 2,
        }
    }

    /// The one-bit code of the symbol; a large or negative delta has none.
    pub fn try_one_bit_code(&self) -> (r: Result<u16, RtcpError>)
        ensures
            *self != PacketStatusSymbol::ReceivedLargeOrNegativeDelta ==> r == Ok::<u16, RtcpError>(
                symbol_code(*self),
            ),
            *self == PacketStatusSymbol::ReceivedLargeOrNegativeDelta ==> r == Err::<u16, RtcpError>(
                RtcpError::ChunkCapacityExceeded,
            ),
    {
        match self {
            PacketStatusSymbol::NotReceived => Ok(0),
            PacketStatusSymbol::ReceivedSmallDelta => Ok(1),
            PacketStatusSymbol::ReceivedLargeOrNegativeDelta => Err(RtcpError::ChunkCapacityExceeded),
        }
    }
}

/// A status vector chunk: up to 14 one-bit or up to 7 two-bit symbols.
/// ```text
/// |T|S|       symbol list         |
/// ```
#[derive(Debug, Clone, PartialEq)]
pub struct StatusVectorChunk(pub Vec<PacketStatusSymbol>);

/// A run-length chunk: one symbol repeated `run_length` (13 bits) times.
/// ```text
/// |T| S |       Run Length        |
/// ```
#[derive(Debug, Clone, Copy, PartialEq, Eq, Structural)]
pub struct RunLengthEncodingChunk {
    pub symbol: PacketStatusSymbol,
    pub run_length: u16,
}

/// One packet status chunk of either form.
#[derive(Debug, Clone, PartialEq)]
pub enum SomePacketStatusChunk {
    StatusVectorChunk(StatusVectorChunk),
    RunLengthEncodingChunk(RunLengthEncodingChunk),
}

/// What a chunk holds.
pub ghost enum ChunkView {
    RunLength { symbol: PacketStatusSymbol, run_length: u16 },
    Vector(Seq<PacketStatusSymbol>),
}

impl View for SomePacketStatusChunk {
    type V = ChunkView;

    open spec fn view(&self) -> ChunkView {
        match self {
            SomePacketStatusChunk::StatusVectorChunk(v) => ChunkView::Vector(v.0@),
            SomePacketStatusChunk::RunLengthEncodingChunk(c) => ChunkView::RunLength {
                symbol: c.symbol,
                run_length: c.run_length,
            },
        }
    }
}

/// The largest run that 13 bits can count.
pub const MAX_RUN_LENGTH: u16 = 8191;

/// The symbols a chunk stands for, in order.
pub open spec fn chunk_symbols(c: ChunkView) -> Seq<PacketStatusSymbol> {
    match c {
        ChunkView::RunLength { symbol, run_length } => Seq::new(
            run_length as nat,
            |i: int| symbol,
        ),
        ChunkView::Vector(s) => s,
    }
}

/// A chunk that fits its wire form: a run of at most 8191, a vector of at
/// most 14 symbols, and at most 7 where one of them needs two bits.
pub open spec fn chunk_encodable(c: ChunkView) -> bool {
    match c {
        ChunkView::RunLength { symbol, run_length } => run_length <= MAX_RUN_LENGTH,
        ChunkView::Vector(s) => s.len() <= 14 && (s.contains(
            PacketStatusSymbol::ReceivedLargeOrNegativeDelta,
        ) ==> s.len() <= 7),
    }
}

/// The symbols of a sequence of chunks, one after another.
pub open spec fn chunks_symbols(cs: Seq<ChunkView>) -> Seq<PacketStatusSymbol>
    decreases cs.len(),
{
    if cs.len() == 0 {
        Seq::empty()
    } else {
        chunks_symbols(cs.drop_last()) + chunk_symbols(cs.last())
    }
}

pub open spec fn one_bit_symbol(w: u16, i: int) -> PacketStatusSymbol {
    code_symbol((w >> ((13 - i) as u16)) & 1u16)
}

/// The 14 one-bit symbols of a vector word, first symbol in the high bit.
pub open spec fn one_bit_symbols(w: u16) -> Seq<PacketStatusSymbol> {
    Seq::new(14, |i: int| one_bit_symbol(w, i))
}

pub open spec fn two_bit_code(w: u16, i: int) -> u16 {
    (w >> ((12 - 2 * i) as u16)) & 3u16
}

/// The 7 two-bit symbols of a vector word, first symbol in the high bits.
pub open spec fn two_bit_symbols(w: u16) -> Seq<PacketStatusSymbol> {
    Seq::new(7, |i: int| code_symbol(two_bit_code(w, i)))
}

pub open spec fn two_bit_valid(w: u16) -> bool {
    forall|i: int| 0 <= i < 7 ==> two_bit_code(w, i) != 3
}

pub open spec fn min(a: int, b: int) -> int {
    if a < b {
        a
    } else {
        b
    }
}

/// Decoding a chunk word; a vector keeps at most `max_symbols` symbols.
pub open spec fn spec_decode_chunk(w: u16, max_symbols: int) -> Result<ChunkView, RtcpError> {
    if w >> 15u16 == 0 {
        if (w >> 13u16) & 3u16 == 3 {
            Err(RtcpError::InvalidStatusSymbol(3))
        } else {
            Ok(
                ChunkView::RunLength {
                    symbol: code_symbol((w >> 13u16) & 3u16),
                    run_length: w & 0x1fffu16,
                },
            )
        }
    } else if (w >> 14u16) & 1u16 == 0 {
        Ok(ChunkView::Vector(one_bit_symbols(w).take(min(14, max_symbols))))
    } else if !two_bit_valid(w) {
        Err(RtcpError::InvalidStatusSymbol(3))
    } else {
        Ok(ChunkView::Vector(two_bit_symbols(w).take(min(7, max_symbols))))
    }
}

pub open spec fn one_bit_word_upto(s: Seq<PacketStatusSymbol>, k: int) -> u16
    decreases k,
{
    if k <= 0 {
        0x8000u16
    } else {
        one_bit_word_upto(s, k - 1) | (symbol_code(s[k - 1]) << ((13 - (k - 1)) as u16))
    }
}

pub open spec fn two_bit_word_upto(s: Seq<PacketStatusSymbol>, k: int) -> u16
    decreases k,
{
    if k <= 0 {
        0xc000u16
    } else {
        two_bit_word_upto(s, k - 1) | (symbol_code(s[k - 1]) << ((12 - 2 * (k - 1)) as u16))
    }
}

/// Encoding a chunk as its word: a vector of at most seven symbols in
/// two-bit form, a longer one (without two-bit symbols) in one-bit form.
/// A vector fills its word's slots from the front and leaves the rest zero,
/// so only the last chunk of a report may hold fewer symbols than slots.
pub open spec fn spec_encode_chunk(c: ChunkView) -> Result<u16, RtcpError> {
    match c {
        ChunkView::RunLength { symbol, run_length } => {
            if run_length > MAX_RUN_LENGTH {
                Err(RtcpError::ChunkCapacityExceeded)
            } else {
                Ok(((symbol_code(symbol) << 13u16) | run_length) as u16)
            }
        },
        ChunkView::Vector(s) => {
            if s.len() <= 7 {
                Ok(two_bit_word_upto(s, s.len() as int))
            } else if s.contains(PacketStatusSymbol::ReceivedLargeOrNegativeDelta) || s.len() > 14 {
                Err(RtcpError::ChunkCapacityExceeded)
            } else {
                Ok(one_bit_word_upto(s, s.len() as int))
            }
        },
    }
}

/// A chunk whose word has no unused slots: a run, or a vector of exactly
/// seven or fourteen symbols.
pub open spec fn chunk_full(c: ChunkView) -> bool {
    match c {
        ChunkView::RunLength { .. } => true,
        ChunkView::Vector(s) => s.len() == 7 || s.len() == 14,
    }
}


proof fn lemma_one_bit_set(w: u16, c: u16, p: u16)
    requires
        c <= 1,
        p < 14,
    ensures
        ((w | (c << p)) >> p) & 1u16 == ((w >> p) & 1u16) | c,
        (w | (c << p)) >> 15u16 == w >> 15u16,
        ((w | (c << p)) >> 14u16) & 1u16 == (w >> 14u16) & 1u16,
{
    assert(((w | (c << p)) >> p) & 1u16 == ((w >> p) & 1u16) | c) by (bit_vector)
        requires
            c <= 1,
            p < 14,
    ;
    assert((w | (c << p)) >> 15u16 == w >> 15u16) by (bit_vector)
        requires
            c <= 1,
            p < 14,
    ;
    assert(((w | (c << p)) >> 14u16) & 1u16 == (w >> 14u16) & 1u16) by (bit_vector)
        requires
            c <= 1,
            p < 14,
    ;
}

proof fn lemma_one_bit_other(w: u16, c: u16, p: u16, q: u16)
    requires
        c <= 1,
        p < 14,
        q < 14,
        p != q,
    ensures
        ((w | (c << p)) >> q) & 1u16 == (w >> q) & 1u16,
{
    assert(((w | (c << p)) >> q) & 1u16 == (w >> q) & 1u16) by (bit_vector)
        requires
            c <= 1,
            p < 14,
            q < 14,
            p != q,
    ;
}

proof fn lemma_two_bit_set(w: u16, c: u16, p: u16)
    requires
        c <= 3,
        p <= 12,
    ensures
        ((w | (c << p)) >> p) & 3u16 == ((w >> p) & 3u16) | c,
        (w | (c << p)) >> 14u16 == w >> 14u16,
{
    assert(((w | (c << p)) >> p) & 3u16 == ((w >> p) & 3u16) | c) by (bit_vector)
        requires
            c <= 3,
            p <= 12,
    ;
    assert((w | (c << p)) >> 14u16 == w >> 14u16) by (bit_vector)
        requires
            c <= 3,
            p <= 12,
    ;
}

proof fn lemma_two_bit_other(w: u16, c: u16, p: u16, q: u16)
    requires
        c <= 3,
        p <= 12,
        q <= 12,
        p + 2 <= q || q + 2 <= p,
    ensures
        ((w | (c << p)) >> q) & 3u16 == (w >> q) & 3u16,
{
    assert(((w | (c << p)) >> q) & 3u16 == (w >> q) & 3u16) by (bit_vector)
        requires
            c <= 3,
            p <= 12,
            q <= 12,
            p + 2 <= q || q + 2 <= p,
    ;
}

proof fn lemma_one_bit_word(s: Seq<PacketStatusSymbol>, k: int)
    requires
        0 <= k <= 14,
        k <= s.len(),
        forall|j: int| 0 <= j < k ==> s[j] != PacketStatusSymbol::ReceivedLargeOrNegativeDelta,
    ensures
        one_bit_word_upto(s, k) >> 15u16 == 1,
        (one_bit_word_upto(s, k) >> 14u16) & 1u16 == 0,
        forall|i: int|
            0 <= i < 14 ==> (#[trigger] (one_bit_word_upto(s, k) >> ((13 - i) as u16)) & 1u16) == (
            if i < k {
                symbol_code(s[i])
            } else {
                0u16
            }),
    decreases k,
{
    let w = one_bit_word_upto(s, k);
    if k == 0 {
        assert(0x8000u16 >> 15u16 == 1) by (bit_vector);
        assert((0x8000u16 >> 14u16) & 1u16 == 0) by (bit_vector);
        assert forall|i: int| 0 <= i < 14 implies (#[trigger] (0x8000u16 >> ((13 - i) as u16))
            & 1u16) == 0u16 by {
            let q = (13 - i) as u16;
            assert(q < 14 ==> (0x8000u16 >> q) & 1u16 == 0u16) by (bit_vector);
        }
    } else {
        lemma_one_bit_word(s, k - 1);
        let prev = one_bit_word_upto(s, k - 1);
        let c = symbol_code(s[k - 1]);
        let p = (13 - (k - 1)) as u16;
        assert(c <= 1);
        lemma_one_bit_set(prev, c, p);
        assert((prev >> p) & 1u16 == 0u16);
        assert(((prev >> p) & 1u16) | c == c) by (bit_vector)
            requires
                (prev >> p) & 1u16 == 0u16,
                c <= 1,
        ;
        assert forall|i: int| 0 <= i < 14 implies (#[trigger] (w >> ((13 - i) as u16)) & 1u16) == (
        if i < k {
            symbol_code(s[i])
        } else {
            0u16
        }) by {
            if i != k - 1 {
                lemma_one_bit_other(prev, c, p, (13 - i) as u16);
            }
        }
    }
}

proof fn lemma_two_bit_word(s: Seq<PacketStatusSymbol>, k: int)
    requires
        0 <= k <= 7,
        k <= s.len(),
    ensures
        two_bit_word_upto(s, k) >> 14u16 == 3,
        forall|i: int|
            0 <= i < 7 ==> #[trigger] two_bit_code(two_bit_word_upto(s, k), i) == (if i < k {
                symbol_code(s[i])
            } else {
                0u16
            }),
    decreases k,
{
    let w = two_bit_word_upto(s, k);
    if k == 0 {
        assert(0xc000u16 >> 14u16 == 3) by (bit_vector);
        assert forall|i: int| 0 <= i < 7 implies #[trigger] two_bit_code(0xc000u16, i) == 0u16 by {
            let q = (12 - 2 * i) as u16;
            assert(q <= 12 ==> (0xc000u16 >> q) & 3u16 == 0u16) by (bit_vector);
        }
    } else {
        lemma_two_bit_word(s, k - 1);
        let prev = two_bit_word_upto(s, k - 1);
        let c = symbol_code(s[k - 1]);
        let p = (12 - 2 * (k - 1)) as u16;
        lemma_two_bit_set(prev, c, p);
        assert(two_bit_code(prev, k - 1) == 0u16);
        assert(((prev >> p) & 3u16) | c == c) by (bit_vector)
            requires
                (prev >> p) & 3u16 == 0u16,
                c <= 3,
        ;
        assert forall|i: int| 0 <= i < 7 implies #[trigger] two_bit_code(w, i) == (if i < k {
            symbol_code(s[i])
        } else {
            0u16
        }) by {
            assert(w == prev | (c << p));
            if i != k - 1 {
                let q = (12 - 2 * i) as u16;
                assert(two_bit_code(w, i) == (w >> q) & 3u16);
                assert(two_bit_code(prev, i) == (prev >> q) & 3u16);
                lemma_two_bit_other(prev, c, p, q);
            } else {
                assert(two_bit_code(w, i) == (w >> p) & 3u16);
            }
        }
    }
}

/// A chunk that fits its wire form decodes from its word to itself, when
/// the decoder still needs at least its symbols and, for a chunk with unused
/// slots, exactly its symbols.
pub proof fn lemma_chunk_round_trip(c: ChunkView, max_symbols: int)
    requires
        chunk_encodable(c),
        max_symbols >= chunk_symbols(c).len(),
        chunk_full(c) || max_symbols == chunk_symbols(c).len(),
    ensures
        spec_encode_chunk(c) is Ok,
        spec_decode_chunk(spec_encode_chunk(c)->Ok_0, max_symbols) == Ok::<ChunkView, RtcpError>(c),
{
    match c {
        ChunkView::RunLength { symbol, run_length } => {
            let code = symbol_code(symbol);
            let w = ((code << 13u16) | run_length) as u16;
            assert(w >> 15u16 == 0 && (w >> 13u16) & 3u16 == code && w & 0x1fffu16 == run_length)
                by (bit_vector)
                requires
                    code <= 2,
                    run_length <= 8191,
                    w == ((code << 13u16) | run_length) as u16,
            ;
        },
        ChunkView::Vector(s) => {
            if s.len() <= 7 {
                let w = two_bit_word_upto(s, s.len() as int);
                lemma_two_bit_word(s, s.len() as int);
                assert((w >> 14u16) & 1u16 == 1u16 && w >> 15u16 == 1) by (bit_vector)
                    requires
                        w >> 14u16 == 3,
                ;
                assert(min(7, max_symbols) == s.len());
                assert(two_bit_symbols(w).take(min(7, max_symbols)) =~= s);
            } else {
                let w = one_bit_word_upto(s, s.len() as int);
                assert forall|j: int| 0 <= j < s.len() implies s[j]
                    != PacketStatusSymbol::ReceivedLargeOrNegativeDelta by {
                    if s[j] == PacketStatusSymbol::ReceivedLargeOrNegativeDelta {
                        assert(s.contains(s[j]));
                    }
                }
                lemma_one_bit_word(s, s.len() as int);
                assert(min(14, max_symbols) == s.len());
                assert(one_bit_symbols(w).take(min(14, max_symbols)) =~= s);
            }
        },
    }
}

impl StatusVectorChunk {
    /// Whether a symbol needs the two-bit form.
    pub fn has_two_bit_symbols(&self) -> (r: bool)
        ensures
            r == self.0@.contains(PacketStatusSymbol::ReceivedLargeOrNegativeDelta),
    {
        let mut i: usize = 0;
        while i < self.0.len()
            invariant
                i <= self.0@.len(),
                forall|j: int| 0 <= j < i ==> self.0@[j]
                    != PacketStatusSymbol::ReceivedLargeOrNegativeDelta,
            decreases self.0@.len() - i,
        {
            if self.0[i] == PacketStatusSymbol::ReceivedLargeOrNegativeDelta {
                assert(self.0@[i as int] == PacketStatusSymbol::ReceivedLargeOrNegativeDelta);
                return true;
            }
            i = i + 1;
        }
        false
    }
}

impl SomePacketStatusChunk {
    /// How many symbols the chunk stands for.
    pub fn num_symbols(&self) -> (r: usize)
        ensures
            r == chunk_symbols(self@).len(),
    {
        match self {
            SomePacketStatusChunk::StatusVectorChunk(v) => v.0.len(),
            SomePacketStatusChunk::RunLengthEncodingChunk(c) => c.run_length as usize,
        }
    }

    /// The symbols the chunk stands for, in order.
    pub fn iter(&self) -> (r: Vec<PacketStatusSymbol>)
        ensures
            r@ == chunk_symbols(self@),
    {
        let mut out: Vec<PacketStatusSymbol> = Vec::new();
        match self {
            SomePacketStatusChunk::StatusVectorChunk(v) => {
                let mut i: usize = 0;
                while i < v.0.len()
                    invariant
                        i <= v.0@.len(),
                        out@ == v.0@.take(i as int),
                    decreases v.0@.len() - i,
                {
                    out.push(v.0[i]);
                    i = i + 1;
                    assert(out@ =~= v.0@.take(i as int));
                }
                assert(v.0@.take(i as int) =~= v.0@);
            },
            SomePacketStatusChunk::RunLengthEncodingChunk(c) => {
                let mut i: u16 = 0;
                while i < c.run_length
                    invariant
                        i <= c.run_length,
                        out@ == Seq::new(i as nat, |k: int| c.symbol),
                    decreases c.run_length - i,
                {
                    out.push(c.symbol);
                    i = i + 1;
                    assert(out@ =~= Seq::new(i as nat, |k: int| c.symbol));
                }
            },
        }
        out
    }

    /// Decodes a chunk word. A vector keeps at most `max_symbols` of its
    /// slots, although the word always holds all 14 (or 7).
    pub fn decode(word: u16, max_symbols: usize) -> (r: Result<SomePacketStatusChunk, RtcpError>)
        ensures
            match r {
                Ok(c) => spec_decode_chunk(word, max_symbols as int) == Ok::<ChunkView, RtcpError>(c@),
                Err(e) => spec_decode_chunk(word, max_symbols as int) == Err::<ChunkView, RtcpError>(e),
            },
    {
        if word >> 15u16 == 0 {
            let code = (word >> 13u16) & 3u16;
            assert(code <= 3) by (bit_vector)
                requires
                    code == (word >> 13u16) & 3u16,
            ;
            match PacketStatusSymbol::try_from_two_bits(code) {
                Ok(symbol) => Ok(
                    SomePacketStatusChunk::RunLengthEncodingChunk(
                        RunLengthEncodingChunk { symbol, run_length: word & 0x1fffu16 },
                    ),
                ),
                Err(e) => Err(e),
            }
        } else if (word >> 14u16) & 1u16 == 0 {
            let n: usize = if max_symbols < 14 { max_symbols } else { 14 };
            let mut v: Vec<PacketStatusSymbol> = Vec::new();
            let mut i: u16 = 0;
            while (i as usize) < n
                invariant
                    n == min(14, max_symbols as int),
                    i <= n,
                    v@ == one_bit_symbols(word).take(i as int),
                decreases n - i,
            {
                let sh: u16 = 13 - i;
                let bit = (word >> sh) & 1u16;
                assert(bit <= 1) by (bit_vector)
                    requires
                        bit == (word >> sh) & 1u16,
                ;
                v.push(PacketStatusSymbol::from_one_bit(bit));
                i = i + 1;
                assert(v@ =~= one_bit_symbols(word).take(i as int));
            }
            Ok(SomePacketStatusChunk::StatusVectorChunk(StatusVectorChunk(v)))
        } else {
            let mut v: Vec<PacketStatusSymbol> = Vec::new();
            let mut i: u16 = 0;
            while i < 7
                invariant
                    i <= 7,
                    word >> 15u16 != 0,
                    (word >> 14u16) & 1u16 != 0,
                    forall|j: int| 0 <= j < i ==> two_bit_code(word, j) != 3,
                    v@ == two_bit_symbols(word).take(min(i as int, max_symbols as int)),
                decreases 7 - i,
            {
                let sh: u16 = 12 - 2 * i;
                let code = (word >> sh) & 3u16;
                assert(code <= 3) by (bit_vector)
                    requires
                        code == (word >> sh) & 3u16,
                ;
                assert(code == two_bit_code(word, i as int));
                match PacketStatusSymbol::try_from_two_bits(code) {
                    Ok(symbol) => {
                        if (i as usize) < max_symbols {
                            v.push(symbol);
                        }
                    },
                    Err(e) => {
                        assert(two_bit_code(word, i as int) == 3);
                        assert(!two_bit_valid(word));
                        return Err(e);
                    },
                }
                i = i + 1;
                assert(v@ =~= two_bit_symbols(word).take(min(i as int, max_symbols as int)));
            }
            Ok(SomePacketStatusChunk::StatusVectorChunk(StatusVectorChunk(v)))
        }
    }

    /// The word of a chunk that fits its wire form.
    pub fn encode(&self) -> (r: Result<u16, RtcpError>)
        ensures
            r == spec_encode_chunk(self@),
    {
        match self {
            SomePacketStatusChunk::RunLengthEncodingChunk(c) => {
                if c.run_length > MAX_RUN_LENGTH {
                    Err(RtcpError::ChunkCapacityExceeded)
                } else {
                    Ok((c.symbol.two_bit_code() << 13u16) | c.run_length)
                }
            },
            SomePacketStatusChunk::StatusVectorChunk(v) => {
                let symbols = &v.0;
                let two_bit = symbols.len() <= 7;
                if !two_bit && (v.has_two_bit_symbols() || symbols.len() > 14) {
                    return Err(RtcpError::ChunkCapacityExceeded);
                }
                let capacity: usize = if two_bit { 7 } else { 14 };
                let mut word: u16 = if two_bit { 0xc000 } else { 0x8000 };
                let mut k: usize = 0;
                while k < symbols.len()
                    invariant
                        k <= symbols@.len() <= capacity,
                        capacity == (if two_bit { 7usize } else { 14usize }),
                        word == (if two_bit {
                            two_bit_word_upto(symbols@, k as int)
                        } else {
                            one_bit_word_upto(symbols@, k as int)
                        }),
                    decreases symbols@.len() - k,
                {
                    let code = symbols[k].two_bit_code();
                    if two_bit {
                        word = word | (code << (12 - 2 * k as u16));
                    } else {
                        word = word | (code << (13 - k as u16));
                    }
                    k = k + 1;
                }
                Ok(word)
            },
        }
    }

    /// Decodes the chunk word at `pos`.
    pub fn read(buf: &[u8], pos: usize, max_symbols: usize) -> (r: Result<
        SomePacketStatusChunk,
        RtcpError,
    >)
        ensures
            match r {
                Ok(c) => spec_read_u16(buf@, pos as int) is Ok && spec_decode_chunk(
                    spec_read_u16(buf@, pos as int)->Ok_0,
                    max_symbols as int,
                ) == Ok::<ChunkView, RtcpError>(c@),
                Err(e) => spec_read_u16(buf@, pos as int) == Err::<u16, RtcpError>(e) || (spec_read_u16(
                    buf@,
                    pos as int,
                ) is Ok && spec_decode_chunk(spec_read_u16(buf@, pos as int)->Ok_0, max_symbols as int)
                    == Err::<ChunkView, RtcpError>(e)),
            },
    {
        match read_u16(buf, pos) {
            Ok(word) => Self::decode(word, max_symbols),
            Err(e) => Err(e),
        }
    }

    /// Appends the chunk's word.
    pub fn write(&self, out: &mut Vec<u8>) -> (r: Result<(), RtcpError>)
        ensures
            match spec_encode_chunk(self@) {
                Ok(w) => r is Ok && final(out)@ == old(out)@ + u16_bytes(w),
                Err(e) => r == Err::<(), RtcpError>(e) && final(out)@ == old(out)@,
            },
    {
        match self.encode() {
            Ok(w) => {
                push_u16(out, w);
                Ok(())
            },
            Err(e) => Err(e),
        }
    }
}


/// A chunk that fits its wire form has a word.
pub proof fn lemma_chunk_encodes(c: ChunkView)
    requires
        chunk_encodable(c),
    ensures
        spec_encode_chunk(c) is Ok,
{
}

} // verus!
