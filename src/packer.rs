//! The greedy packer that turns a stream of status symbols into the most
//! compact sequence of status chunks.
use vstd::prelude::*;

use crate::chunk::{
    ChunkView, PacketStatusSymbol, RunLengthEncodingChunk, SomePacketStatusChunk,
    StatusVectorChunk, chunk_encodable, chunk_full, chunk_symbols, chunks_symbols, min,
};

verus! {

/// Symbols that a one-bit status vector can hold.
pub const MAX_ONE_BIT_CAPACITY: usize = 14;

/// Symbols that a two-bit status vector can hold.
pub const MAX_TWO_BIT_CAPACITY: usize = 7;

/// Symbols that a run-length chunk can count.
pub const MAX_RUN_LENGTH_CAPACITY: usize = 8191;

pub open spec fn all_same(s: Seq<PacketStatusSymbol>) -> bool {
    forall|i: int| 0 <= i < s.len() ==> #[trigger] s[i] == s[0]
}

pub open spec fn has_large(s: Seq<PacketStatusSymbol>) -> bool {
    s.contains(PacketStatusSymbol::ReceivedLargeOrNegativeDelta)
}

/// Whether a symbol can join the pending symbols so that some chunk form
/// still holds them all.
pub open spec fn spec_can_add(s: Seq<PacketStatusSymbol>, symbol: PacketStatusSymbol) -> bool {
    ||| s.len() < 7
    ||| (s.len() < 14 && !has_large(s) && symbol
        != PacketStatusSymbol::ReceivedLargeOrNegativeDelta)
    ||| (s.len() < 8191 && all_same(s) && s[0] == symbol)
}

/// Pending symbols that one chunk form can hold.
pub open spec fn packable(s: Seq<PacketStatusSymbol>) -> bool {
    &&& s.len() <= 8191
    &&& s.len() > 7 ==> all_same(s) || !has_large(s)
    &&& s.len() > 14 ==> all_same(s)
}

/// The chunk that emitting pending symbols gives, and what stays pending.
pub open spec fn spec_emit(s: Seq<PacketStatusSymbol>) -> (ChunkView, Seq<PacketStatusSymbol>) {
    if all_same(s) {
        (ChunkView::RunLength { symbol: s[0], run_length: s.len() as u16 }, Seq::empty())
    } else if s.len() == 14 {
        (ChunkView::Vector(s), Seq::empty())
    } else {
        (ChunkView::Vector(s.take(min(7, s.len() as int))), s.skip(min(7, s.len() as int)))
    }
}

/// The chunks that emitting until nothing is pending gives.
pub open spec fn spec_flush(s: Seq<PacketStatusSymbol>) -> Seq<ChunkView>
    decreases s.len(),
{
    if s.len() == 0 {
        Seq::empty()
    } else {
        let (c, rest) = spec_emit(s);
        if rest.len() < s.len() {
            seq![c] + spec_flush(rest)
        } else {
            seq![c]
        }
    }
}

/// The chunks of the greedy packer for the symbols of `input` from index
/// `i` on, with `pending` symbols not yet emitted.
pub open spec fn spec_pack_from(
    input: Seq<PacketStatusSymbol>,
    i: int,
    pending: Seq<PacketStatusSymbol>,
) -> Seq<ChunkView>
    decreases input.len() - i,
{
    if i >= input.len() {
        spec_flush(pending)
    } else if spec_can_add(pending, input[i]) {
        spec_pack_from(input, i + 1, pending.push(input[i]))
    } else {
        let (c, rest) = spec_emit(pending);
        seq![c] + spec_pack_from(input, i + 1, rest.push(input[i]))
    }
}

/// The chunks of the greedy packer for a symbol stream.
pub open spec fn spec_pack(input: Seq<PacketStatusSymbol>) -> Seq<ChunkView> {
    spec_pack_from(input, 0, Seq::empty())
}

pub open spec fn chunk_views(cs: Seq<SomePacketStatusChunk>) -> Seq<ChunkView> {
    Seq::new(cs.len(), |i: int| cs[i]@)
}

/// The accumulator of the packer: the symbols not yet emitted, whether they
/// are all equal, and whether one of them needs two bits.
#[derive(Debug)]
pub struct Chunk {
    pub all_same: bool,
    pub has_large_delta: bool,
    pub symbols: Vec<PacketStatusSymbol>,
}

fn copy_range(v: &Vec<PacketStatusSymbol>, from: usize, to: usize) -> (r: Vec<PacketStatusSymbol>)
    requires
        from <= to <= v@.len(),
    ensures
        r@ == v@.subrange(from as int, to as int),
{
    let mut r: Vec<PacketStatusSymbol> = Vec::new();
    let mut i: usize = from;
    while i < to
        invariant
            from <= i <= to <= v@.len(),
            r@ == v@.subrange(from as int, i as int),
        decreases to - i,
    {
        r.push(v[i]);
        i = i + 1;
        assert(r@ =~= v@.subrange(from as int, i as int));
    }
    r
}

fn compute_all_same(v: &Vec<PacketStatusSymbol>) -> (r: bool)
    ensures
        r == all_same(v@),
{
    let mut i: usize = 0;
    while i < v.len()
        invariant
            i <= v@.len(),
            forall|j: int| 0 <= j < i ==> #[trigger] v@[j] == v@[0],
        decreases v@.len() - i,
    {
        if v[i] != v[0] {
            return false;
        }
        i = i + 1;
    }
    true
}

fn compute_has_large(v: &Vec<PacketStatusSymbol>) -> (r: bool)
    ensures
        r == has_large(v@),
{
    let mut i: usize = 0;
    while i < v.len()
        invariant
            i <= v@.len(),
            forall|j: int| 0 <= j < i ==> v@[j] != PacketStatusSymbol::ReceivedLargeOrNegativeDelta,
        decreases v@.len() - i,
    {
        if v[i] == PacketStatusSymbol::ReceivedLargeOrNegativeDelta {
            assert(v@[i as int] == PacketStatusSymbol::ReceivedLargeOrNegativeDelta);
            return true;
        }
        i = i + 1;
    }
    false
}

impl Chunk {
    pub open spec fn wf(&self) -> bool {
        &&& self.all_same == all_same(self.symbols@)
        &&& self.has_large_delta == has_large(self.symbols@)
        &&& packable(self.symbols@)
    }

    pub fn new() -> (r: Self)
        ensures
            r.wf(),
            r.symbols@ == Seq::<PacketStatusSymbol>::empty(),
    {
        Chunk { all_same: true, has_large_delta: false, symbols: Vec::new() }
    }

    pub fn is_empty(&self) -> (r: bool)
        ensures
            r == (self.symbols@.len() == 0),
    {
        self.symbols.len() == 0
    }

    pub fn clear(&mut self)
        ensures
            final(self).wf(),
            final(self).symbols@ == Seq::<PacketStatusSymbol>::empty(),
    {
        self.all_same = true;
        self.has_large_delta = false;
        self.symbols = Vec::new();
    }

    /// Whether `symbol` fits: there is always room for seven two-bit
    /// symbols, for fourteen one-bit ones, and for a run of 8191 equal ones.
    pub fn can_add(&self, symbol: PacketStatusSymbol) -> (r: bool)
        requires
            self.wf(),
        ensures
            r == spec_can_add(self.symbols@, symbol),
    {
        if self.symbols.len() < MAX_TWO_BIT_CAPACITY {
            return true;
        }
        if self.symbols.len() < MAX_ONE_BIT_CAPACITY && !self.has_large_delta && symbol
            != PacketStatusSymbol::ReceivedLargeOrNegativeDelta {
            return true;
        }
        if self.symbols.len() < MAX_RUN_LENGTH_CAPACITY && self.all_same && self.symbols[0]
            == symbol {
            return true;
        }
        false
    }

    /// Appends a symbol that fits.
    pub fn add(&mut self, symbol: PacketStatusSymbol)
        requires
            old(self).wf(),
            spec_can_add(old(self).symbols@, symbol),
        ensures
            final(self).wf(),
            final(self).symbols@ == old(self).symbols@.push(symbol),
    {
        let ghost before = self.symbols@;
        self.symbols.push(symbol);
        self.all_same = self.all_same && self.symbols[0] == symbol;
        self.has_large_delta = self.has_large_delta || symbol
            == PacketStatusSymbol::ReceivedLargeOrNegativeDelta;
        let ghost s = self.symbols@;
        assert(s[s.len() - 1] == symbol);
        assert(all_same(s) <==> all_same(before) && s[0] == symbol) by {
            if all_same(s) {
                assert forall|i: int| 0 <= i < before.len() implies #[trigger] before[i] == before[0] by {
                    assert(s[i] == before[i]);
                    assert(s[0] == before[0] || before.len() == 0);
                }
                assert(s[s.len() - 1] == s[0]);
            }
            if all_same(before) && s[0] == symbol {
                assert forall|i: int| 0 <= i < s.len() implies #[trigger] s[i] == s[0] by {
                    if i < before.len() {
                        assert(s[i] == before[i]);
                    }
                }
            }
        }
        assert(has_large(s) <==> has_large(before) || symbol
            == PacketStatusSymbol::ReceivedLargeOrNegativeDelta) by {
            if has_large(s) {
                let w = choose|w: int|
                    0 <= w < s.len() && #[trigger] s[w]
                        == PacketStatusSymbol::ReceivedLargeOrNegativeDelta;
                if w < before.len() {
                    assert(before[w] == s[w]);
                }
            }
            if has_large(before) {
                let w = choose|w: int|
                    0 <= w < before.len() && #[trigger] before[w]
                        == PacketStatusSymbol::ReceivedLargeOrNegativeDelta;
                assert(s[w] == before[w]);
            }
        }
    }

    /// Fills an empty accumulator with `num_missing` not-received symbols.
    pub fn add_missing_packets(&mut self, num_missing: usize)
        requires
            old(self).wf(),
            old(self).symbols@.len() == 0,
            num_missing <= MAX_RUN_LENGTH_CAPACITY,
        ensures
            final(self).wf(),
            final(self).symbols@ == Seq::new(
                num_missing as nat,
                |i: int| PacketStatusSymbol::NotReceived,
            ),
    {
        let mut i: usize = 0;
        while i < num_missing
            invariant
                i <= num_missing <= MAX_RUN_LENGTH_CAPACITY,
                self.wf(),
                self.symbols@ == Seq::new(i as nat, |j: int| PacketStatusSymbol::NotReceived),
            decreases num_missing - i,
        {
            self.add(PacketStatusSymbol::NotReceived);
            i = i + 1;
            assert(self.symbols@ =~= Seq::new(i as nat, |j: int| PacketStatusSymbol::NotReceived));
        }
    }

    /// Emits the most compact chunk for the pending symbols: a run when they
    /// are all equal, a one-bit vector when there are fourteen, and otherwise
    /// a two-bit vector of the first seven, keeping the rest pending.
    pub fn emit(&mut self) -> (r: SomePacketStatusChunk)
        requires
            old(self).wf(),
            old(self).symbols@.len() > 0,
        ensures
            final(self).wf(),
            (r@, final(self).symbols@) == spec_emit(old(self).symbols@),
            ({
                let s = old(self).symbols@;
                if all_same(s) {
                    &&& r@ == ChunkView::RunLength { symbol: s[0], run_length: s.len() as u16 }
                    &&& final(self).symbols@ == Seq::<PacketStatusSymbol>::empty()
                } else if s.len() == 14 {
                    &&& r@ == ChunkView::Vector(s)
                    &&& final(self).symbols@ == Seq::<PacketStatusSymbol>::empty()
                } else {
                    &&& r@ == ChunkView::Vector(s.take(min(7, s.len() as int)))
                    &&& final(self).symbols@ == s.skip(min(7, s.len() as int))
                }
            }),
            chunk_encodable(r@),
            chunk_symbols(r@) + final(self).symbols@ == old(self).symbols@,
            final(self).symbols@.len() < old(self).symbols@.len(),
            old(self).symbols@.len() >= 7 ==> final(self).symbols@.len() < 7,
    {
        let ghost s = self.symbols@;
        let len = self.symbols.len();
        if self.all_same {
            let chunk = SomePacketStatusChunk::RunLengthEncodingChunk(
                RunLengthEncodingChunk { symbol: self.symbols[0], run_length: len as u16 },
            );
            self.clear();
            assert(chunk_symbols(chunk@) =~= s);
            assert(chunk_symbols(chunk@) + self.symbols@ =~= s);
            return chunk;
        }
        if len == MAX_ONE_BIT_CAPACITY {
            let all = copy_range(&self.symbols, 0, len);
            assert(all@ =~= s);
            self.clear();
            let chunk = SomePacketStatusChunk::StatusVectorChunk(StatusVectorChunk(all));
            assert(chunk_symbols(chunk@) + self.symbols@ =~= s);
            return chunk;
        }
        let n: usize = if len < MAX_TWO_BIT_CAPACITY { len } else { MAX_TWO_BIT_CAPACITY };
        let first = copy_range(&self.symbols, 0, n);
        let rest = copy_range(&self.symbols, n, len);
        assert(first@ =~= s.take(n as int));
        assert(rest@ =~= s.skip(n as int));
        self.all_same = compute_all_same(&rest);
        self.has_large_delta = compute_has_large(&rest);
        self.symbols = rest;
        let chunk = SomePacketStatusChunk::StatusVectorChunk(StatusVectorChunk(first));
        assert(chunk_symbols(chunk@) + self.symbols@ =~= s);
        assert(has_large(first@) ==> first@.len() <= 7);
        chunk
    }
}

impl Default for Chunk {
    fn default() -> (r: Self)
        ensures
            r.wf(),
            r.symbols@ == Seq::<PacketStatusSymbol>::empty(),
    {
        Chunk::new()
    }
}

proof fn lemma_chunks_symbols_push(cs: Seq<ChunkView>, c: ChunkView)
    ensures
        chunks_symbols(cs.push(c)) == chunks_symbols(cs) + chunk_symbols(c),
{
    assert(cs.push(c).drop_last() =~= cs);
}

/// Feeds every symbol, in order, through the accumulator, emitting a chunk
/// whenever the next symbol does not fit, and flushes what is left at the
/// end. The chunks carry exactly the input symbols, in order, and each fits
/// its wire form.
pub fn pack_symbols(symbols: &Vec<PacketStatusSymbol>) -> (r: Vec<SomePacketStatusChunk>)
    ensures
        chunk_views(r@) == spec_pack(symbols@),
        chunks_symbols(chunk_views(r@)) == symbols@,
        forall|i: int|
            0 <= i < r@.len() ==> chunk_encodable(#[trigger] r@[i]@) && chunk_symbols(
                r@[i]@,
            ).len() > 0,
{
    let mut chunks: Vec<SomePacketStatusChunk> = Vec::new();
    let mut acc = Chunk::new();
    let mut i: usize = 0;
    assert(chunk_views(chunks@) =~= Seq::<ChunkView>::empty());
    assert(chunk_views(chunks@) + spec_pack_from(symbols@, 0, acc.symbols@) =~= spec_pack(symbols@));
    while i < symbols.len()
        invariant
            i <= symbols@.len(),
            acc.wf(),
            chunks_symbols(chunk_views(chunks@)) + acc.symbols@ == symbols@.take(i as int),
            chunk_views(chunks@) + spec_pack_from(symbols@, i as int, acc.symbols@) == spec_pack(
                symbols@,
            ),
            forall|j: int|
                0 <= j < chunks@.len() ==> chunk_encodable(#[trigger] chunks@[j]@) && chunk_symbols(
                    chunks@[j]@,
                ).len() > 0,
        decreases symbols@.len() - i,
    {
        let symbol = symbols[i];
        if !acc.can_add(symbol) {
            let ghost before = chunk_views(chunks@);
            let ghost pending = acc.symbols@;
            let c = acc.emit();
            chunks.push(c);
            proof {
                assert(chunk_views(chunks@) =~= before.push(c@));
                lemma_chunks_symbols_push(before, c@);
                assert(spec_pack_from(symbols@, i as int, pending) == seq![c@] + spec_pack_from(
                    symbols@,
                    i + 1,
                    acc.symbols@.push(symbol),
                ));
                assert(chunk_views(chunks@) + spec_pack_from(symbols@, i + 1, acc.symbols@.push(symbol))
                    =~= before + (seq![c@] + spec_pack_from(symbols@, i + 1, acc.symbols@.push(symbol))));
            }
        } else {
            assert(spec_pack_from(symbols@, i as int, acc.symbols@) == spec_pack_from(
                symbols@,
                i + 1,
                acc.symbols@.push(symbol),
            ));
        }
        acc.add(symbol);
        i = i + 1;
        assert(symbols@.take(i as int) =~= symbols@.take(i - 1).push(symbol));
    }
    while !acc.is_empty()
        invariant
            acc.wf(),
            chunks_symbols(chunk_views(chunks@)) + acc.symbols@ == symbols@,
            chunk_views(chunks@) + spec_flush(acc.symbols@) == spec_pack(symbols@),
            forall|j: int|
                0 <= j < chunks@.len() ==> chunk_encodable(#[trigger] chunks@[j]@) && chunk_symbols(
                    chunks@[j]@,
                ).len() > 0,
        decreases acc.symbols@.len(),
    {
        let ghost before = chunk_views(chunks@);
        let ghost pending = acc.symbols@;
        let c = acc.emit();
        chunks.push(c);
        proof {
            assert(chunk_views(chunks@) =~= before.push(c@));
            lemma_chunks_symbols_push(before, c@);
            assert(spec_flush(pending) == seq![c@] + spec_flush(acc.symbols@));
            assert(chunk_views(chunks@) + spec_flush(acc.symbols@) =~= before + (seq![c@]
                + spec_flush(acc.symbols@)));
        }
    }
    assert(spec_flush(acc.symbols@) =~= Seq::<ChunkView>::empty());
    assert(symbols@.take(symbols@.len() as int) =~= symbols@);
    chunks
}


/// Chunks that a decoder reads back as they were written: each fits its
/// wire form and holds a symbol, and all but the last fill their word.
pub open spec fn chunks_ok(cs: Seq<ChunkView>) -> bool {
    &&& forall|i: int|
        0 <= i < cs.len() ==> chunk_encodable(#[trigger] cs[i]) && chunk_symbols(cs[i]).len() > 0
    &&& forall|i: int| 0 <= i < cs.len() - 1 ==> chunk_full(#[trigger] cs[i])
}

pub proof fn lemma_chunks_symbols_front(c: ChunkView, cs: Seq<ChunkView>)
    ensures
        chunks_symbols(seq![c] + cs) == chunk_symbols(c) + chunks_symbols(cs),
    decreases cs.len(),
{
    if cs.len() == 0 {
        assert(seq![c] + cs =~= seq![c]);
        assert(seq![c].drop_last() =~= Seq::<ChunkView>::empty());
        assert(seq![c].last() == c);
        assert(chunks_symbols(Seq::<ChunkView>::empty()) == Seq::<PacketStatusSymbol>::empty());
        assert(chunks_symbols(cs) == Seq::<PacketStatusSymbol>::empty());
        assert(chunks_symbols(seq![c]) == chunks_symbols(Seq::<ChunkView>::empty()) + chunk_symbols(c));
        assert(Seq::<PacketStatusSymbol>::empty() + chunk_symbols(c) =~= chunk_symbols(c));
        assert(chunk_symbols(c) + Seq::<PacketStatusSymbol>::empty() =~= chunk_symbols(c));
    } else {
        lemma_chunks_symbols_front(c, cs.drop_last());
        assert((seq![c] + cs).drop_last() =~= seq![c] + cs.drop_last());
        assert((seq![c] + cs).last() == cs.last());
        assert(chunks_symbols(seq![c] + cs) =~= chunk_symbols(c) + chunks_symbols(cs));
    }
}

proof fn lemma_chunks_ok_cons(c: ChunkView, cs: Seq<ChunkView>)
    requires
        chunks_ok(cs),
        chunk_encodable(c),
        chunk_symbols(c).len() > 0,
        cs.len() > 0 ==> chunk_full(c),
    ensures
        chunks_ok(seq![c] + cs),
{
    let r = seq![c] + cs;
    assert forall|i: int| 0 <= i < r.len() implies chunk_encodable(#[trigger] r[i])
        && chunk_symbols(r[i]).len() > 0 by {
        if i > 0 {
            assert(r[i] == cs[i - 1]);
        }
    }
    assert forall|i: int| 0 <= i < r.len() - 1 implies chunk_full(#[trigger] r[i]) by {
        if i > 0 {
            assert(r[i] == cs[i - 1]);
        }
    }
}

/// What emitting gives: a chunk that fits, holds the first pending symbols
/// and fills its word unless it is the last, and fewer symbols pending.
pub proof fn lemma_emit(s: Seq<PacketStatusSymbol>)
    requires
        packable(s),
        s.len() > 0,
    ensures
        ({
            let (c, rest) = spec_emit(s);
            &&& chunk_encodable(c)
            &&& chunk_symbols(c) + rest == s
            &&& chunk_symbols(c).len() > 0
            &&& rest.len() < s.len()
            &&& packable(rest)
            &&& rest.len() > 0 ==> chunk_full(c)
            &&& s.len() >= 7 ==> chunk_full(c) && rest.len() < 7
        }),
{
    let (c, rest) = spec_emit(s);
    if all_same(s) {
        assert(chunk_symbols(c) =~= s);
        assert(chunk_symbols(c) + rest =~= s);
    } else if s.len() == 14 {
        assert(chunk_symbols(c) + rest =~= s);
    } else {
        let n = min(7, s.len() as int);
        assert(chunk_symbols(c) + rest =~= s);
        assert(has_large(s.take(n)) ==> s.take(n).len() <= 7);
    }
}

/// Flushing pending symbols gives chunks that carry them and read back.
pub proof fn lemma_flush(s: Seq<PacketStatusSymbol>)
    requires
        packable(s),
    ensures
        chunks_symbols(spec_flush(s)) == s,
        chunks_ok(spec_flush(s)),
    decreases s.len(),
{
    if s.len() == 0 {
        assert(spec_flush(s) =~= Seq::<ChunkView>::empty());
        assert(s =~= Seq::<PacketStatusSymbol>::empty());
    } else {
        lemma_emit(s);
        let (c, rest) = spec_emit(s);
        lemma_flush(rest);
        lemma_chunks_symbols_front(c, spec_flush(rest));
        if rest.len() == 0 {
            assert(spec_flush(rest) =~= Seq::<ChunkView>::empty());
        }
        lemma_chunks_ok_cons(c, spec_flush(rest));
    }
}

proof fn lemma_add_packable(s: Seq<PacketStatusSymbol>, x: PacketStatusSymbol)
    requires
        packable(s),
        spec_can_add(s, x),
    ensures
        packable(s.push(x)),
{
    let t = s.push(x);
    if all_same(s) && (s.len() == 0 || s[0] == x) {
        assert forall|i: int| 0 <= i < t.len() implies #[trigger] t[i] == t[0] by {
            if i < s.len() {
                assert(t[i] == s[i]);
            }
        }
    }
    if !has_large(s) && x != PacketStatusSymbol::ReceivedLargeOrNegativeDelta {
        assert(!has_large(t)) by {
            if has_large(t) {
                let w = choose|w: int|
                    0 <= w < t.len() && #[trigger] t[w]
                        == PacketStatusSymbol::ReceivedLargeOrNegativeDelta;
                if w < s.len() {
                    assert(s[w] == t[w]);
                }
            }
        }
    }
}

/// The greedy packer's chunks carry the remaining input after the pending
/// symbols, and read back as written.
pub proof fn lemma_pack_from(input: Seq<PacketStatusSymbol>, i: int, pending: Seq<PacketStatusSymbol>)
    requires
        0 <= i <= input.len(),
        packable(pending),
    ensures
        chunks_symbols(spec_pack_from(input, i, pending)) == pending + input.skip(i),
        chunks_ok(spec_pack_from(input, i, pending)),
    decreases input.len() - i,
{
    if i >= input.len() {
        lemma_flush(pending);
        assert(pending + input.skip(i) =~= pending);
    } else if spec_can_add(pending, input[i]) {
        lemma_add_packable(pending, input[i]);
        lemma_pack_from(input, i + 1, pending.push(input[i]));
        assert(pending.push(input[i]) + input.skip(i + 1) =~= pending + input.skip(i));
    } else {
        lemma_emit(pending);
        let (c, rest) = spec_emit(pending);
        assert(packable(rest.push(input[i])));
        lemma_pack_from(input, i + 1, rest.push(input[i]));
        let tail = spec_pack_from(input, i + 1, rest.push(input[i]));
        lemma_chunks_symbols_front(c, tail);
        lemma_chunks_ok_cons(c, tail);
        assert(chunk_symbols(c) + (rest.push(input[i]) + input.skip(i + 1)) =~= pending + input.skip(
            i,
        ));
    }
}

/// The greedy packer's chunks carry exactly the input symbols, in order;
/// each fits its wire form (a run of at most 8191, a vector of at most 14
/// symbols and of at most 7 where one needs two bits) and holds a symbol,
/// and all but the last fill their word.
pub proof fn lemma_pack(input: Seq<PacketStatusSymbol>)
    ensures
        chunks_symbols(spec_pack(input)) == input,
        chunks_ok(spec_pack(input)),
{
    lemma_pack_from(input, 0, Seq::empty());
    assert(Seq::<PacketStatusSymbol>::empty() + input.skip(0) =~= input);
}

} // verus!
