//! NACK feedback: sets of missing sequence numbers carried as (PID, BLP)
//! bitmask blocks.
use vstd::prelude::*;

use crate::error::RtcpError;
use crate::fb_header::{RtcpFbHeader, RTCP_FB_TL_PT, fb_header_bytes};
use crate::header::{RtcpHeader, header_bytes};
use crate::wire::{be16, has_bytes, push_u16, read_u16, u16_bytes, lemma_u16_bytes};

verus! {

/// Strictly increasing: a set of sequence numbers in numeric order.
pub open spec fn sorted_unique(s: Seq<u16>) -> bool {
    forall|i: int, j: int| 0 <= i < j < s.len() ==> s[i] < s[j]
}

/// How far `x` lies after `pid` in wrapping sequence-number order.
pub open spec fn seq_distance(pid: u16, x: u16) -> int {
    (x as int - pid as int) % 65536
}

/// Bit `i` (counted from the least significant) of `v`.
pub open spec fn bit_set(v: u16, i: int) -> bool {
    0 <= i < 16 && (v >> (i as u16)) & 1u16 == 1u16
}

/// Whether a block with packet id `pid` and bitmask `blp` reports `x` missing.
pub open spec fn block_reports(pid: u16, blp: u16, x: u16) -> bool {
    let d = seq_distance(pid, x);
    d == 0 || (1 <= d <= 16 && bit_set(blp, d - 1))
}

/// The sequence numbers that one block reports missing.
pub open spec fn block_set(pid: u16, blp: u16) -> Set<u16> {
    Set::new(|x: u16| block_reports(pid, blp, x))
}

/// The sequence numbers that the blocks from offset `pos` to the last whole
/// block of `s` report missing.
pub open spec fn nack_blocks_set(s: Seq<u8>, pos: int) -> Set<u16>
    decreases s.len() - pos,
{
    if !has_bytes(s, pos, 4) {
        Set::empty()
    } else {
        block_set(be16(s[pos], s[pos + 1]), be16(s[pos + 2], s[pos + 3])).union(
            nack_blocks_set(s, pos + 4),
        )
    }
}

/// The offset after the last whole block that starts at or after `pos`.
pub open spec fn nack_blocks_end(s: Seq<u8>, pos: int) -> int {
    pos + ((s.len() - pos) / 4) * 4
}

/// The bitmask of a sorted chunk, from its first `k` members.
pub open spec fn blp_upto(c: Seq<u16>, k: int) -> u16
    decreases k,
{
    if k <= 1 || k > c.len() {
        0u16
    } else {
        blp_upto(c, k - 1) | (1u16 << ((c[k - 1] - c[0] - 1) as u16))
    }
}

/// The bitmask that carries every member of a sorted chunk but its first.
pub open spec fn block_blp(c: Seq<u16>) -> u16 {
    blp_upto(c, c.len() as int)
}

/// The wire form of one block for a sorted chunk.
pub open spec fn block_bytes(c: Seq<u16>) -> Seq<u8> {
    u16_bytes(c[0]) + u16_bytes(block_blp(c))
}

/// The wire form of the blocks for a sequence of chunks.
pub open spec fn blocks_bytes(cs: Seq<Seq<u16>>) -> Seq<u8>
    decreases cs.len(),
{
    if cs.len() == 0 {
        Seq::empty()
    } else {
        block_bytes(cs[0]) + blocks_bytes(cs.drop_first())
    }
}

/// The sequence numbers that the blocks of a sequence of chunks report.
pub open spec fn blocks_union(cs: Seq<Seq<u16>>) -> Set<u16>
    decreases cs.len(),
{
    if cs.len() == 0 {
        Set::empty()
    } else {
        block_set(cs[0][0], block_blp(cs[0])).union(blocks_union(cs.drop_first()))
    }
}

/// The end of the run that starts a sorted sequence: the first index from
/// `i` on whose value lies more than `max_diff` above the first value.
pub open spec fn run_end(s: Seq<u16>, max_diff: int, i: int) -> int
    decreases s.len() - i,
{
    if i >= s.len() {
        s.len() as int
    } else if s[i] - s[0] > max_diff {
        i
    } else {
        run_end(s, max_diff, i + 1)
    }
}

/// The greedy left-to-right grouping of a sorted sequence into runs whose
/// values lie at most `max_diff` above the run's first value.
pub open spec fn greedy_chunks(s: Seq<u16>, max_diff: int) -> Seq<Seq<u16>>
    decreases s.len(),
{
    let k = run_end(s, max_diff, 1);
    if s.len() == 0 || k < 1 || k > s.len() {
        Seq::empty()
    } else {
        seq![s.take(k)] + greedy_chunks(s.skip(k), max_diff)
    }
}

pub open spec fn chunks_view(cs: Seq<Vec<u16>>) -> Seq<Seq<u16>> {
    Seq::new(cs.len(), |i: int| cs[i]@)
}

proof fn lemma_run_end_props(s: Seq<u16>, max_diff: int, i: int)
    requires
        1 <= i <= s.len(),
    ensures
        i <= run_end(s, max_diff, i) <= s.len(),
        forall|l: int| i <= l < run_end(s, max_diff, i) ==> #[trigger] s[l] - s[0] <= max_diff,
        run_end(s, max_diff, i) < s.len() ==> s[run_end(s, max_diff, i)] - s[0] > max_diff,
    decreases s.len() - i,
{
    if i < s.len() && s[i] - s[0] <= max_diff {
        lemma_run_end_props(s, max_diff, i + 1);
    }
}

proof fn lemma_run_end_at(s: Seq<u16>, max_diff: int, j: int, k: int)
    requires
        1 <= j <= k <= s.len(),
        forall|l: int| j <= l < k ==> #[trigger] s[l] - s[0] <= max_diff,
        k == s.len() || s[k] - s[0] > max_diff,
    ensures
        run_end(s, max_diff, j) == k,
    decreases k - j,
{
    if j < k {
        lemma_run_end_at(s, max_diff, j + 1, k);
    }
}

proof fn lemma_zero_bits(b: u16)
    requires
        b < 16,
    ensures
        (0u16 >> b) & 1u16 != 1u16,
{
    assert((0u16 >> b) & 1u16 != 1u16) by (bit_vector)
        requires
            b < 16,
    ;
}

proof fn lemma_or_bit(v: u16, t: u16, b: u16)
    requires
        t < 16,
        b < 16,
    ensures
        (((v | (1u16 << t)) >> b) & 1u16 == 1u16) <==> (((v >> b) & 1u16 == 1u16) || b == t),
{
    assert((((v | (1u16 << t)) >> b) & 1u16 == 1u16) <==> (((v >> b) & 1u16 == 1u16) || b == t))
        by (bit_vector)
        requires
            t < 16,
            b < 16,
    ;
}

proof fn lemma_distance_unique(pid: u16, x: u16, y: u16)
    requires
        seq_distance(pid, x) == seq_distance(pid, y),
    ensures
        x == y,
{
}

/// The block of a sorted chunk whose values lie within 16 of its first
/// reports exactly the chunk's members.
pub proof fn lemma_block_set(c: Seq<u16>)
    requires
        c.len() >= 1,
        sorted_unique(c),
        c.last() - c[0] <= 16,
    ensures
        block_set(c[0], block_blp(c)) == c.to_set(),
{
    lemma_block_set_upto(c, c.len() as int);
    assert(c.take(c.len() as int) =~= c);
    assert(block_set(c[0], block_blp(c)) =~= c.to_set());
}

proof fn lemma_block_set_upto(c: Seq<u16>, k: int)
    requires
        1 <= k <= c.len(),
        sorted_unique(c),
        c.last() - c[0] <= 16,
    ensures
        forall|x: u16| block_reports(c[0], blp_upto(c, k), x) <==> c.take(k).contains(x),
    decreases k,
{
    if k == 1 {
        assert forall|x: u16| block_reports(c[0], blp_upto(c, k), x) <==> c.take(k).contains(x) by {
            let d = seq_distance(c[0], x);
            if 1 <= d <= 16 {
                lemma_zero_bits((d - 1) as u16);
            }
            if x == c[0] {
                assert(c.take(k)[0] == x);
            }
            if c.take(k).contains(x) {
                let w = choose|w: int| 0 <= w < c.take(k).len() && #[trigger] c.take(k)[w] == x;
                assert(w == 0);
            }
        }
    } else {
        lemma_block_set_upto(c, k - 1);
        let t = (c[k - 1] - c[0] - 1) as u16;
        assert(c[0] < c[k - 1]);
        assert(c[k - 1] <= c.last()) by {
            if k - 1 < c.len() - 1 {
                assert(c[k - 1] < c[c.len() - 1]);
            }
        }
        assert(t < 16);
        assert forall|x: u16| block_reports(c[0], blp_upto(c, k), x) <==> c.take(k).contains(x) by {
            let d = seq_distance(c[0], x);
            if 1 <= d <= 16 {
                lemma_or_bit(blp_upto(c, k - 1), t, (d - 1) as u16);
            }
            assert(seq_distance(c[0], c[k - 1]) == t + 1);
            if d == t + 1 {
                lemma_distance_unique(c[0], x, c[k - 1]);
            }
            if c.take(k).contains(x) {
                let w = choose|w: int| 0 <= w < c.take(k).len() && #[trigger] c.take(k)[w] == x;
                if w < k - 1 {
                    assert(c.take(k - 1)[w] == x);
                }
            }
            if c.take(k - 1).contains(x) {
                let w = choose|w: int| 0 <= w < c.take(k - 1).len() && #[trigger] c.take(k - 1)[w] == x;
                assert(c.take(k)[w] == x);
            }
            if x == c[k - 1] {
                assert(c.take(k)[k - 1] == x);
            }
        }
    }
}


/// The greedy grouping of a sorted sequence puts every value, in order, in
/// exactly one non-empty chunk, and no chunk spreads more than `max_diff`.
pub proof fn lemma_greedy_chunks(s: Seq<u16>, max_diff: int)
    requires
        sorted_unique(s),
        max_diff >= 0,
    ensures
        greedy_chunks(s, max_diff).flatten() == s,
        forall|i: int|
            0 <= i < greedy_chunks(s, max_diff).len() ==> {
                let c = #[trigger] greedy_chunks(s, max_diff)[i];
                &&& c.len() >= 1
                &&& sorted_unique(c)
                &&& c.last() - c[0] <= max_diff
            },
    decreases s.len(),
{
    if s.len() == 0 {
        assert(greedy_chunks(s, max_diff) =~= Seq::<Seq<u16>>::empty());
        assert(s =~= Seq::<u16>::empty());
    } else {
        lemma_run_end_props(s, max_diff, 1);
        let k = run_end(s, max_diff, 1);
        let head = s.take(k);
        let tail = s.skip(k);
        lemma_greedy_chunks(tail, max_diff);
        let cs = greedy_chunks(s, max_diff);
        assert(cs == seq![head] + greedy_chunks(tail, max_diff));
        assert(cs.drop_first() =~= greedy_chunks(tail, max_diff));
        assert(cs.flatten() == head + greedy_chunks(tail, max_diff).flatten());
        assert(s =~= head + tail);
        assert forall|i: int| 0 <= i < cs.len() implies {
            let c = #[trigger] cs[i];
            &&& c.len() >= 1
            &&& sorted_unique(c)
            &&& c.last() - c[0] <= max_diff
        } by {
            if i == 0 {
                if k > 1 {
                    assert(head.last() == s[k - 1]);
                }
            } else {
                assert(cs[i] == greedy_chunks(tail, max_diff)[i - 1]);
            }
        }
    }
}

/// The blocks of the greedy grouping report exactly the values grouped.
pub proof fn lemma_blocks_union_greedy(s: Seq<u16>)
    requires
        sorted_unique(s),
    ensures
        blocks_union(greedy_chunks(s, 16)) == s.to_set(),
    decreases s.len(),
{
    if s.len() == 0 {
        assert(s.to_set() =~= Set::<u16>::empty());
    } else {
        lemma_greedy_chunks(s, 16);
        lemma_run_end_props(s, 16, 1);
        let k = run_end(s, 16, 1);
        let head = s.take(k);
        let tail = s.skip(k);
        let cs = greedy_chunks(s, 16);
        assert(cs[0] == head);
        assert(cs.drop_first() =~= greedy_chunks(tail, 16));
        lemma_blocks_union_greedy(tail);
        lemma_block_set(head);
        assert(s =~= head + tail);
        assert forall|x: u16| s.contains(x) <==> head.contains(x) || tail.contains(x) by {
            if s.contains(x) {
                let w = choose|w: int| 0 <= w < s.len() && #[trigger] s[w] == x;
                if w < k {
                    assert(head[w] == x);
                } else {
                    assert(tail[w - k] == x);
                }
            }
            if head.contains(x) {
                let w = choose|w: int| 0 <= w < head.len() && #[trigger] head[w] == x;
                assert(s[w] == x);
            }
            if tail.contains(x) {
                let w = choose|w: int| 0 <= w < tail.len() && #[trigger] tail[w] == x;
                assert(s[w + k] == x);
            }
        }
        assert(blocks_union(cs) =~= s.to_set());
    }
}

/// Decoding the blocks written for a sequence of chunks gives back the
/// values those blocks report.
pub proof fn lemma_blocks_decode(cs: Seq<Seq<u16>>, prefix: Seq<u8>)
    requires
        forall|i: int| 0 <= i < cs.len() ==> (#[trigger] cs[i]).len() >= 1,
    ensures
        nack_blocks_set(prefix + blocks_bytes(cs), prefix.len() as int) == blocks_union(cs),
        nack_blocks_end(prefix + blocks_bytes(cs), prefix.len() as int) == (prefix
            + blocks_bytes(cs)).len(),
        blocks_bytes(cs).len() == 4 * cs.len(),
    decreases cs.len(),
{
    let s = prefix + blocks_bytes(cs);
    let p = prefix.len() as int;
    if cs.len() == 0 {
        assert(blocks_bytes(cs) =~= Seq::<u8>::empty());
    } else {
        let c = cs[0];
        let rest = cs.drop_first();
        assert forall|i: int| 0 <= i < rest.len() implies (#[trigger] rest[i]).len() >= 1 by {
            assert(rest[i] == cs[i + 1]);
        }
        let prefix2 = prefix + block_bytes(c);
        lemma_blocks_decode(rest, prefix2);
        assert(s =~= prefix2 + blocks_bytes(rest));
        lemma_u16_bytes(c[0]);
        lemma_u16_bytes(block_blp(c));
        assert(s[p] == u16_bytes(c[0])[0]);
        assert(s[p + 1] == u16_bytes(c[0])[1]);
        assert(s[p + 2] == u16_bytes(block_blp(c))[0]);
        assert(s[p + 3] == u16_bytes(block_blp(c))[1]);
    }
}

spec fn reports_upto(pid: u16, blp: u16, x: u16, n: int) -> bool {
    let d = seq_distance(pid, x);
    d == 0 || (1 <= d <= n && bit_set(blp, d - 1))
}

proof fn lemma_wrapping_distance(pid: u16, k: u16)
    requires
        1 <= k <= 16,
    ensures
        seq_distance(pid, pid.wrapping_add(k)) == k,
{
}

/// Inserts `x` into a sorted set of sequence numbers.
fn insert_sorted(v: &mut Vec<u16>, x: u16)
    requires
        sorted_unique(old(v)@),
    ensures
        sorted_unique(final(v)@),
        final(v)@.to_set() == old(v)@.to_set().insert(x),
{
    let mut i: usize = 0;
    while i < v.len() && v[i] < x
        invariant
            i <= v@.len(),
            forall|j: int| 0 <= j < i ==> v@[j] < x,
        decreases v@.len() - i,
    {
        i = i + 1;
    }
    if i < v.len() && v[i] == x {
        assert(v@.to_set() =~= v@.to_set().insert(x));
        return;
    }
    let ghost before = v@;
    v.insert(i, x);
    assert forall|j: int| 0 <= j < v@.len() implies #[trigger] v@[j] == (if j < i {
        before[j]
    } else if j == i {
        x
    } else {
        before[j - 1]
    }) by {}
    assert forall|a: int, b: int| 0 <= a < b < v@.len() implies v@[a] < v@[b] by {
        if b > i && a < i {
            assert(before[a] < x);
        }
    }
    assert forall|y: u16| v@.contains(y) <==> before.contains(y) || y == x by {
        if v@.contains(y) {
            let w = choose|w: int| 0 <= w < v@.len() && #[trigger] v@[w] == y;
            if w < i {
                assert(before[w] == y);
            } else if w > i {
                assert(before[w - 1] == y);
            }
        }
        if before.contains(y) {
            let w = choose|w: int| 0 <= w < before.len() && #[trigger] before[w] == y;
            if w < i {
                assert(v@[w] == y);
            } else {
                assert(v@[w + 1] == y);
            }
        }
        if y == x {
            assert(v@[i as int] == y);
        }
    }
    assert forall|y: u16| #[trigger] v@.to_set().contains(y) <==> before.to_set().insert(x).contains(
        y,
    ) by {
        assert(v@.contains(y) <==> before.contains(y) || y == x);
    }
    assert(v@.to_set() =~= before.to_set().insert(x));
}

/// Splits a sorted set into the chunks of the greedy left-to-right scan: a
/// new chunk starts where a value lies more than `max_diff` above the first
/// value of the current chunk.
pub fn chunk_by_max_difference(values: &Vec<u16>, max_diff: u16) -> (r: Vec<Vec<u16>>)
    requires
        sorted_unique(values@),
    ensures
        chunks_view(r@) == greedy_chunks(values@, max_diff as int),
        r@.len() * (max_diff + 1) <= 65536 + max_diff,
{
    let mut all_chunks: Vec<Vec<u16>> = Vec::new();
    if values.len() == 0 {
        assert(chunks_view(all_chunks@) =~= greedy_chunks(values@, max_diff as int));
        return all_chunks;
    }
    let ghost s = values@;
    let ghost md = max_diff as int;
    let mut start: usize = 0;
    let mut curr: Vec<u16> = Vec::new();
    curr.push(values[0]);
    let mut i: usize = 1;
    assert(s.skip(0) =~= s);
    assert(all_chunks@.len() == 0);
    assert(0 * (md + 1) == 0) by (nonlinear_arith);
    while i < values.len()
        invariant
            s == values@,
            md == max_diff as int,
            sorted_unique(s),
            start < i <= s.len(),
            curr@ == s.subrange(start as int, i as int),
            forall|j: int| start <= j < i ==> #[trigger] s[j] - s[start as int] <= md,
            chunks_view(all_chunks@) + greedy_chunks(s.skip(start as int), md) == greedy_chunks(
                s,
                md,
            ),
            all_chunks@.len() * (md + 1) <= s[start as int],
        decreases s.len() - i,
    {
        if values[i] - curr[0] > max_diff {
            let ghost t = s.skip(start as int);
            assert forall|l: int| 1 <= l < i - start implies #[trigger] t[l] - t[0] <= md by {
                assert(t[l] == s[start + l]);
            }
            proof {
                lemma_run_end_at(t, md, 1, i - start);
            }
            assert(t.take(i - start) =~= curr@);
            assert(t.skip(i - start) =~= s.skip(i as int));
            assert(greedy_chunks(t, md) == seq![curr@] + greedy_chunks(s.skip(i as int), md));
            let ghost old_len = all_chunks@.len();
            let ghost old_view = chunks_view(all_chunks@);
            all_chunks.push(curr);
            assert(chunks_view(all_chunks@) =~= old_view.push(all_chunks@.last()@));
            curr = Vec::new();
            curr.push(values[i]);
            assert((old_len + 1) * (md + 1) == old_len * (md + 1) + md + 1) by (nonlinear_arith);
            start = i;
        } else {
            curr.push(values[i]);
        }
        i = i + 1;
        assert(curr@ =~= s.subrange(start as int, i as int));
    }
    let ghost t = s.skip(start as int);
    assert forall|l: int| 1 <= l < s.len() - start implies #[trigger] t[l] - t[0] <= md by {
        assert(t[l] == s[start + l]);
    }
    proof {
        lemma_run_end_at(t, md, 1, s.len() - start as int);
    }
    assert(t.take(s.len() - start as int) =~= curr@);
    assert(t.skip(s.len() - start as int) =~= Seq::<u16>::empty());
    assert(greedy_chunks(Seq::<u16>::empty(), md) =~= Seq::<Seq<u16>>::empty());
    assert(greedy_chunks(t, md) =~= seq![curr@]);
    let ghost old_len = all_chunks@.len();
    let ghost old_view = chunks_view(all_chunks@);
    all_chunks.push(curr);
    assert(chunks_view(all_chunks@) =~= old_view.push(all_chunks@.last()@));
    assert(chunks_view(all_chunks@) =~= greedy_chunks(s, md));
    assert((old_len + 1) * (md + 1) == old_len * (md + 1) + md + 1) by (nonlinear_arith);
    all_chunks
}


proof fn lemma_blocks_bytes_push(cs: Seq<Seq<u16>>, c: Seq<u16>)
    ensures
        blocks_bytes(cs.push(c)) == blocks_bytes(cs) + block_bytes(c),
    decreases cs.len(),
{
    if cs.len() == 0 {
        assert(cs.push(c).drop_first() =~= Seq::<Seq<u16>>::empty());
        assert(cs.push(c)[0] == c);
        assert(blocks_bytes(cs.push(c).drop_first()) == Seq::<u8>::empty());
        assert(blocks_bytes(cs) == Seq::<u8>::empty());
        assert(blocks_bytes(cs.push(c)) == block_bytes(c) + Seq::<u8>::empty());
        assert(blocks_bytes(cs.push(c)) =~= blocks_bytes(cs) + block_bytes(c));
    } else {
        assert(cs.push(c).drop_first() =~= cs.drop_first().push(c));
        assert(cs.push(c)[0] == cs[0]);
        lemma_blocks_bytes_push(cs.drop_first(), c);
        assert(blocks_bytes(cs.push(c)) == block_bytes(cs[0]) + (blocks_bytes(cs.drop_first())
            + block_bytes(c)));
        assert(blocks_bytes(cs.push(c)) =~= blocks_bytes(cs) + block_bytes(c));
    }
}

/// Inserts every member of `items` into the sorted set `v`.
fn insert_all(v: &mut Vec<u16>, items: &Vec<u16>)
    requires
        sorted_unique(old(v)@),
    ensures
        sorted_unique(final(v)@),
        final(v)@.to_set() == old(v)@.to_set().union(items@.to_set()),
{
    let ghost start = v@.to_set();
    let mut j: usize = 0;
    while j < items.len()
        invariant
            j <= items@.len(),
            sorted_unique(v@),
            v@.to_set() == start.union(items@.take(j as int).to_set()),
        decreases items@.len() - j,
    {
        insert_sorted(v, items[j]);
        assert forall|y: u16| #[trigger] items@.take(j + 1).to_set().contains(y) <==> items@.take(
            j as int,
        ).to_set().contains(y) || y == items@[j as int] by {
            if items@.take(j + 1).contains(y) {
                let w = choose|w: int| 0 <= w < j + 1 && #[trigger] items@.take(j + 1)[w] == y;
                if w < j {
                    assert(items@.take(j as int)[w] == y);
                }
            }
            if items@.take(j as int).contains(y) {
                let w = choose|w: int| 0 <= w < j && #[trigger] items@.take(j as int)[w] == y;
                assert(items@.take(j + 1)[w] == y);
            }
            if y == items@[j as int] {
                assert(items@.take(j + 1)[j as int] == y);
            }
        }
        j = j + 1;
        assert(v@.to_set() =~= start.union(items@.take(j as int).to_set()));
    }
    assert(items@.take(j as int) =~= items@);
}

/// Encodes a sorted chunk as one block: its first member as packet id, and
/// a bit for every other member.
fn write_block(c: &Vec<u16>, out: &mut Vec<u8>) -> (r: Result<(), RtcpError>)
    requires
        sorted_unique(c@),
    ensures
        c@.len() == 0 ==> r == Err::<(), RtcpError>(RtcpError::EmptyNackBlock),
        c@.len() > 0 && c@.last() - c@[0] > 16 ==> r == Err::<(), RtcpError>(
            RtcpError::SpanTooLarge,
        ),
        r is Err ==> final(out)@ == old(out)@,
        c@.len() > 0 && c@.last() - c@[0] <= 16 ==> r is Ok && final(out)@ == old(out)@
            + block_bytes(c@),
{
    if c.len() == 0 {
        return Err(RtcpError::EmptyNackBlock);
    }
    let pid = c[0];
    let mut blp: u16 = 0;
    let mut k: usize = 1;
    while k < c.len()
        invariant
            1 <= k <= c@.len(),
            pid == c@[0],
            sorted_unique(c@),
            blp == blp_upto(c@, k as int),
            forall|j: int| 0 <= j < k ==> #[trigger] c@[j] - c@[0] <= 16,
        decreases c@.len() - k,
    {
        let delta = c[k] - pid;
        if delta > 16 {
            assert(c@[k as int] <= c@.last()) by {
                if k < c@.len() - 1 {
                    assert(c@[k as int] < c@[c@.len() - 1]);
                }
            }
            return Err(RtcpError::SpanTooLarge);
        }
        blp = blp | (1u16 << (delta - 1));
        k = k + 1;
    }
    assert(c@.last() == c@[c@.len() - 1]);
    push_u16(out, pid);
    push_u16(out, blp);
    assert(final(out)@ =~= old(out)@ + block_bytes(c@));
    Ok(())
}

/// One NACK block: a packet id and the sequence numbers after it that its
/// bitmask marks, kept as a sorted set.
#[derive(Debug, PartialEq)]
pub struct NackBlock {
    pub missing_seq_nums: Vec<u16>,
}

impl NackBlock {
    pub const SIZE_BYTES: usize = 4;

    pub fn add_missing_seq_num(&mut self, missing_seq_num: u16)
        requires
            sorted_unique(old(self).missing_seq_nums@),
        ensures
            sorted_unique(final(self).missing_seq_nums@),
            final(self).missing_seq_nums@.to_set() == old(self).missing_seq_nums@.to_set().insert(
                missing_seq_num,
            ),
    {
        insert_sorted(&mut self.missing_seq_nums, missing_seq_num);
    }

    /// Decodes the block at `pos`: its packet id and every sequence number
    /// that its bitmask marks, with wrapping arithmetic.
    pub fn read(buf: &[u8], pos: usize) -> (r: Result<NackBlock, RtcpError>)
        ensures
            match r {
                Ok(b) => {
                    &&& has_bytes(buf@, pos as int, 4)
                    &&& sorted_unique(b.missing_seq_nums@)
                    &&& b.missing_seq_nums@.to_set() == block_set(
                        be16(buf@[pos as int], buf@[pos + 1]),
                        be16(buf@[pos + 2], buf@[pos + 3]),
                    )
                },
                Err(e) => !has_bytes(buf@, pos as int, 4) && e == RtcpError::TruncatedRead,
            },
    {
        if pos >= buf.len() || buf.len() - pos < 4 {
            return Err(RtcpError::TruncatedRead);
        }
        let (pid, blp) = match (read_u16(buf, pos), read_u16(buf, pos + 2)) {
            (Ok(pid), Ok(blp)) => (pid, blp),
            _ => {
                return Err(RtcpError::TruncatedRead);
            },
        };
        let mut v: Vec<u16> = Vec::new();
        v.push(pid);
        assert forall|x: u16| #[trigger] v@.to_set().contains(x) <==> reports_upto(pid, blp, x, 0) by {
            if x == pid {
                assert(v@[0] == x);
            }
            if seq_distance(pid, x) == 0 {
                assert(seq_distance(pid, pid) == 0);
                lemma_distance_unique(pid, x, pid);
            }
        }
        let mut i: u16 = 0;
        while i < 16
            invariant
                i <= 16,
                sorted_unique(v@),
                forall|x: u16| #[trigger] v@.to_set().contains(x) <==> reports_upto(pid, blp, x, i as int),
            decreases 16 - i,
        {
            let ghost before = v@.to_set();
            let bit = (blp >> i) & 1;
            let y = pid.wrapping_add(i + 1);
            if bit == 1 {
                insert_sorted(&mut v, y);
            }
            proof {
                lemma_wrapping_distance(pid, (i + 1) as u16);
                assert forall|x: u16| #[trigger] v@.to_set().contains(x) <==> reports_upto(pid, blp, x, i + 1) by {
                    if seq_distance(pid, x) == i + 1 {
                        lemma_distance_unique(pid, x, y);
                    }
                    assert(before.contains(x) <==> reports_upto(pid, blp, x, i as int));
                }
            }
            i = i + 1;
        }
        assert(v@.to_set() =~= block_set(pid, blp));
        Ok(NackBlock { missing_seq_nums: v })
    }

    /// Appends the block's wire form. Fails on an empty block, and on one
    /// whose members lie more than 16 apart.
    pub fn write(&self, out: &mut Vec<u8>) -> (r: Result<(), RtcpError>)
        requires
            sorted_unique(self.missing_seq_nums@),
        ensures
            ({
                let c = self.missing_seq_nums@;
                &&& c.len() == 0 ==> r == Err::<(), RtcpError>(RtcpError::EmptyNackBlock)
                &&& c.len() > 0 && c.last() - c[0] > 16 ==> r == Err::<(), RtcpError>(
                    RtcpError::SpanTooLarge,
                )
                &&& r is Err ==> final(out)@ == old(out)@
                &&& c.len() > 0 && c.last() - c[0] <= 16 ==> r is Ok && final(out)@ == old(out)@
                    + block_bytes(c)
            }),
    {
        write_block(&self.missing_seq_nums, out)
    }
}

impl Default for NackBlock {
    fn default() -> (r: Self)
        ensures
            r.missing_seq_nums@ == Seq::<u16>::empty(),
    {
        NackBlock { missing_seq_nums: Vec::new() }
    }
}

/// ```text
/// |            PID                |             BLP               |
/// ```
/// A NACK feedback packet; its missing sequence numbers are kept as a sorted
/// set and grouped into blocks when written.
#[derive(Debug, PartialEq)]
pub struct RtcpFbNackPacket {
    pub header: RtcpHeader,
    pub fb_header: RtcpFbHeader,
    pub missing_seq_nums: Vec<u16>,
}

impl RtcpFbNackPacket {
    pub const FMT: u8 = 1;

    pub open spec fn wf(&self) -> bool {
        self.header.wf() && sorted_unique(self.missing_seq_nums@)
    }

    pub fn add_missing_seq_num(&mut self, missing_seq_num: u16)
        requires
            sorted_unique(old(self).missing_seq_nums@),
        ensures
            sorted_unique(final(self).missing_seq_nums@),
            final(self).missing_seq_nums@.to_set() == old(self).missing_seq_nums@.to_set().insert(
                missing_seq_num,
            ),
            final(self).header == old(self).header,
            final(self).fb_header == old(self).fb_header,
    {
        insert_sorted(&mut self.missing_seq_nums, missing_seq_num);
    }

    /// The size of the blocks in bytes: four for each chunk of the grouping.
    pub fn payload_length_bytes(&self) -> (r: u16)
        requires
            sorted_unique(self.missing_seq_nums@),
        ensures
            r == 4 * greedy_chunks(self.missing_seq_nums@, 16).len(),
            r <= 15424,
    {
        let chunks = chunk_by_max_difference(&self.missing_seq_nums, 16);
        assert(chunks_view(chunks@).len() == chunks@.len());
        (chunks.len() * 4) as u16
    }

    /// Sets the length field to the feedback header and the blocks, and the
    /// count field to the NACK format.
    pub fn sync(&mut self)
        requires
            sorted_unique(old(self).missing_seq_nums@),
        ensures
            final(self).header == (RtcpHeader {
                length_field: (2 + greedy_chunks(old(self).missing_seq_nums@, 16).len()) as u16,
                report_count: Self::FMT,
                ..old(self).header
            }),
            final(self).fb_header == old(self).fb_header,
            final(self).missing_seq_nums@ == old(self).missing_seq_nums@,
    {
        let payload = self.payload_length_bytes();
        self.header.sync(payload + 8, Self::FMT);
    }

    /// Decodes the blocks from `pos` while four bytes remain; the result
    /// holds every sequence number they report, and the offset after the
    /// last block.
    pub fn read(buf: &[u8], pos: usize, header: RtcpHeader, fb_header: RtcpFbHeader) -> (r: Result<
        (RtcpFbNackPacket, usize),
        RtcpError,
    >)
        requires
            pos <= buf@.len(),
        ensures
            r matches Ok((p, end)) && p.header == header && p.fb_header == fb_header
                && sorted_unique(p.missing_seq_nums@) && p.missing_seq_nums@.to_set()
                == nack_blocks_set(buf@, pos as int) && end == nack_blocks_end(buf@, pos as int) && end
                <= buf@.len(),
    {
        let mut v: Vec<u16> = Vec::new();
        let mut p: usize = pos;
        assert(v@.to_set() =~= Set::<u16>::empty());
        while buf.len() - p >= 4
            invariant
                pos <= p <= buf@.len(),
                sorted_unique(v@),
                v@.to_set().union(nack_blocks_set(buf@, p as int)) == nack_blocks_set(
                    buf@,
                    pos as int,
                ),
                nack_blocks_end(buf@, p as int) == nack_blocks_end(buf@, pos as int),
            decreases buf@.len() - p,
        {
            let block = NackBlock::read(buf, p);
            match block {
                Ok(block) => {
                    let ghost before = v@.to_set();
                    insert_all(&mut v, &block.missing_seq_nums);
                    assert(v@.to_set().union(nack_blocks_set(buf@, p + 4)) =~= before.union(
                        nack_blocks_set(buf@, p as int),
                    ));
                },
                Err(_) => {
                    // four bytes remain, so a block is there to read
                    assert(false);
                },
            }
            p = p + 4;
        }
        assert(nack_blocks_set(buf@, p as int) =~= Set::<u16>::empty());
        assert(v@.to_set() =~= nack_blocks_set(buf@, pos as int));
        Ok((RtcpFbNackPacket { header, fb_header, missing_seq_nums: v }, p))
    }

    /// Appends the header, the feedback header and one block for each chunk
    /// of the grouping.
    pub fn write(&self, out: &mut Vec<u8>) -> (r: Result<(), RtcpError>)
        requires
            self.wf(),
        ensures
            r is Ok,
            final(out)@ == old(out)@ + header_bytes(self.header) + fb_header_bytes(self.fb_header)
                + blocks_bytes(greedy_chunks(self.missing_seq_nums@, 16)),
    {
        self.header.write(out);
        self.fb_header.write(out);
        let ghost base = out@;
        let chunks = chunk_by_max_difference(&self.missing_seq_nums, 16);
        let ghost cs = chunks_view(chunks@);
        proof {
            lemma_greedy_chunks(self.missing_seq_nums@, 16);
        }
        let mut i: usize = 0;
        assert(cs.take(0) =~= Seq::<Seq<u16>>::empty());
        while i < chunks.len()
            invariant
                i <= chunks@.len(),
                cs == chunks_view(chunks@),
                cs == greedy_chunks(self.missing_seq_nums@, 16),
                forall|j: int|
                    0 <= j < cs.len() ==> {
                        let c = #[trigger] cs[j];
                        &&& c.len() >= 1
                        &&& sorted_unique(c)
                        &&& c.last() - c[0] <= 16
                    },
                out@ == base + blocks_bytes(cs.take(i as int)),
            decreases chunks@.len() - i,
        {
            assert(cs[i as int] == chunks@[i as int]@);
            let res = write_block(&chunks[i], out);
            if res.is_err() {
                // a chunk of the grouping is never empty nor too wide
                assert(false);
                return res;
            }
            proof {
                lemma_blocks_bytes_push(cs.take(i as int), cs[i as int]);
                assert(cs.take(i as int).push(cs[i as int]) =~= cs.take(i + 1));
            }
            i = i + 1;
        }
        assert(cs.take(i as int) =~= cs);
        Ok(())
    }
}

impl Default for RtcpFbNackPacket {
    fn default() -> (r: Self)
        ensures
            r.header == (RtcpHeader {
                version: 2,
                has_padding: false,
                report_count: Self::FMT,
                packet_type: RTCP_FB_TL_PT,
                length_field: 0,
            }),
            r.fb_header == (RtcpFbHeader { sender_ssrc: 0, media_source_ssrc: 0 }),
            r.missing_seq_nums@ == Seq::<u16>::empty(),
    {
        RtcpFbNackPacket {
            header: RtcpHeader::default().packet_type(RTCP_FB_TL_PT).report_count(Self::FMT),
            fb_header: RtcpFbHeader::default(),
            missing_seq_nums: Vec::new(),
        }
    }
}


/// The greedy grouping with spread 16 starts a chunk at most once every 17
/// sequence numbers.
pub proof fn lemma_greedy_chunks_count(s: Seq<u16>)
    requires
        sorted_unique(s),
    ensures
        greedy_chunks(s, 16).len() * 17 <= 65552,
{
    lemma_greedy_chunks_count_from(s);
}

proof fn lemma_greedy_chunks_count_from(s: Seq<u16>)
    requires
        sorted_unique(s),
    ensures
        s.len() > 0 ==> (greedy_chunks(s, 16).len() - 1) * 17 <= 65535 - s[0],
        s.len() == 0 ==> greedy_chunks(s, 16).len() == 0,
        greedy_chunks(s, 16).len() * 17 <= 65552,
    decreases s.len(),
{
    if s.len() > 0 {
        lemma_run_end_props(s, 16, 1);
        let k = run_end(s, 16, 1);
        let tail = s.skip(k);
        lemma_greedy_chunks_count_from(tail);
        assert(greedy_chunks(s, 16).len() == 1 + greedy_chunks(tail, 16).len());
        if tail.len() > 0 {
            assert(tail[0] == s[k]);
            assert(s[k] - s[0] > 16);
        }
    }
}


/// Grouping a set of sequence numbers: every chunk lies within 16 of its
/// first member, the chunks hold the set's members in order, and the blocks
/// written for the chunks report exactly the set.
pub proof fn lemma_nack_grouping(s: Seq<u16>)
    requires
        sorted_unique(s),
    ensures
        forall|i: int|
            0 <= i < greedy_chunks(s, 16).len() ==> {
                let c = #[trigger] greedy_chunks(s, 16)[i];
                &&& c.len() >= 1
                &&& c.last() - c[0] <= 16
            },
        greedy_chunks(s, 16).flatten() == s,
        blocks_union(greedy_chunks(s, 16)) == s.to_set(),
{
    lemma_greedy_chunks(s, 16);
    lemma_blocks_union_greedy(s);
}

} // verus!
