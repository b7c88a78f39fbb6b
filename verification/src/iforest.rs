//! The interval forest: a per-track index that answers range queries over
//! block summaries in logarithmic time.
//!
//! The index is one array. Even positions hold the summary of one block each
//! (the leaves); the odd position between two leaves holds the summary of a
//! power-of-two run of blocks around it. A position with `t` trailing one bits
//! stands for `2^t` blocks, and the position itself sits in the middle of the
//! array slots of those blocks:
//!
//! ```text
//!                #
//! _______________|
//! _______|_______|   #
//! ___|___|___|___|___|
//! 0|1|2|3|4|5|6|7|8|9|
//! ```

use crate::index::{
    join_all, lemma_join_all_concat, lemma_summary_of_blocks, summaries, summary, Aggregate,
    AggregateModel, TrackIndex,
};
use crate::trace::{blocks_at, located, BlockPool, TraceBlock, TraceEvent, Track};
use std::ops::Range;
use vstd::arithmetic::div_mod::{lemma_fundamental_div_mod, lemma_mod_multiples_basic};
use vstd::arithmetic::power2::{
    lemma2_to64, lemma2_to64_rest, lemma_pow2_pos, lemma_pow2_strictly_increases, lemma_pow2_unfold,
    pow2,
};
use vstd::bits::{lemma_usize_pow2_no_overflow, lemma_usize_shl_is_mul, lemma_usize_shr_is_div};
use vstd::prelude::*;
use vstd::std_specs::bits::axiom_u64_trailing_ones;

verus! {

/// How many one bits `p` ends in.
pub open spec fn trailing_ones(p: nat) -> nat
    decreases p,
{
    if p % 2 == 0 {
        0
    } else {
        1 + trailing_ones(p / 2)
    }
}

/// The number of blocks that position `p` stands for.
pub open spec fn span_len(p: nat) -> nat {
    pow2(trailing_ones(p))
}

/// The first block that position `p` stands for.
pub open spec fn span_start(p: nat) -> int {
    (p + 1 - span_len(p)) / 2
}

/// One past the last block that position `p` sums up once `n` blocks are in:
/// all of its span if that is complete, else the left half, which always is.
pub open spec fn span_end(p: nat, n: nat) -> int {
    if span_start(p) + span_len(p) <= n {
        span_start(p) + span_len(p)
    } else {
        span_start(p) + span_len(p) / 2
    }
}

/// A span is no wider than what lies to its left allows, and starts on a whole
/// block.
proof fn lemma_span_fits(p: nat)
    ensures
        1 <= span_len(p) <= p + 1,
        2 * span_start(p) == p + 1 - span_len(p),
        p % 2 == 0 ==> span_len(p) == 1,
        p % 2 == 1 ==> span_len(p) % 2 == 0,
    decreases p,
{
    if p % 2 == 0 {
        lemma2_to64();
    } else {
        lemma_pow2_unfold(trailing_ones(p));
        lemma_span_fits(p / 2);
    }
}

/// Position `2m + 1 - 2^(k+1)` ends in `k + 1` ones when `m` ends in more than
/// `k`.
proof fn lemma_left_neighbour(m: nat, k: nat)
    requires
        k < trailing_ones(m),
    ensures
        2 * m + 1 >= pow2(k + 1),
        trailing_ones((2 * m + 1 - pow2(k + 1)) as nat) == k + 1,
    decreases k,
{
    lemma_pow2_unfold(k + 1);
    if k == 0 {
        lemma2_to64();
        let p = (2 * m - 1) as nat;
        assert(p / 2 == m - 1);
        assert(trailing_ones((m - 1) as nat) == 0);
    } else {
        let half = m / 2;
        lemma_left_neighbour(half, (k - 1) as nat);
        let p = (2 * m + 1 - pow2(k + 1)) as nat;
        assert(p / 2 == 2 * half + 1 - pow2(k));
    }
}

/// A position whose span ends right behind block `m` is no taller than the
/// ones that `m` ends in.
proof fn lemma_completed_by(p: nat, m: nat)
    requires
        p + span_len(p) == m,
    ensures
        trailing_ones(p) < trailing_ones(m),
    decreases p,
{
    if p % 2 == 0 {
        lemma2_to64();
    } else {
        lemma_pow2_unfold(trailing_ones(p));
        lemma_completed_by(p / 2, m / 2);
    }
}

/// The position in the middle of an aligned run of `2^(level+1)` array slots
/// ends in exactly `level` ones.
proof fn lemma_middle_of_run(start: nat, level: nat)
    requires
        start % pow2(level + 1) == 0,
    ensures
        trailing_ones((start + pow2(level) - 1) as nat) == level,
        start % 2 == 0,
    decreases level,
{
    lemma_pow2_unfold(level + 1);
    lemma_pow2_pos(level);
    let w = pow2(level);
    assert(start % 2 == 0 && (start / 2) % w == 0) by {
        let d = 2 * w as int;
        let c = start as int / d;
        lemma_fundamental_div_mod(start as int, d);
        assert(start == 2 * (c * w)) by (nonlinear_arith)
            requires
                start == d * c,
                d == 2 * w,
        ;
        lemma_mod_multiples_basic(c, w as int);
    }
    if level == 0 {
        lemma2_to64();
    } else {
        lemma_pow2_unfold(level);
        lemma_middle_of_run(start / 2, (level - 1) as nat);
        let p = (start + w - 1) as nat;
        assert(p / 2 == start / 2 + pow2((level - 1) as nat) - 1);
    }
}

/// What a 64-bit word's bits say of the ones it ends in.
proof fn lemma_ones_from_bits(i: u64, t: nat)
    requires
        t <= 64,
        forall|j: u64| 0 <= j < t ==> #[trigger] (i >> j) & 1u64 == 1u64,
        t < 64 ==> (i >> (t as u64)) & 1u64 == 0u64,
    ensures
        trailing_ones(i as nat) == t,
    decreases t,
{
    if t == 0 {
        assert((i >> 0u64) & 1u64 == 0u64 ==> i % 2 == 0) by (bit_vector);
    } else {
        assert((i >> 0u64) & 1u64 == 1u64);
        assert((i >> 0u64) & 1u64 == 1u64 ==> i % 2 == 1) by (bit_vector);
        let half = i / 2;
        assert forall|j: u64| 0 <= j < t - 1 implies #[trigger] (half >> j) & 1u64 == 1u64 by {
            let up = (j + 1) as u64;
            assert((i >> up) & 1u64 == 1u64);
            assert(((i / 2) >> j) & 1u64 == (i >> up) & 1u64) by (bit_vector)
                requires
                    j < 63,
                    up == j + 1,
            ;
        }
        if t < 64 {
            let top = t as u64;
            let below = (t - 1) as u64;
            assert(((i / 2) >> below) & 1u64 == (i >> top) & 1u64) by (bit_vector)
                requires
                    below < 63,
                    top == below + 1,
            ;
        } else {
            assert(((i / 2) >> 63u64) & 1u64 == 0u64) by (bit_vector);
        }
        lemma_ones_from_bits(half, (t - 1) as nat);
    }
}

/// How many one bits `n` ends in.
fn count_trailing_ones(n: usize) -> (t: u32)
    ensures
        t == trailing_ones(n as nat),
{
    let t = (n as u64).trailing_ones();
    proof {
        axiom_u64_trailing_ones(n as u64);
        lemma_ones_from_bits(n as u64, t as nat);
    }
    t
}

/// A power of two that fits a `usize` has an exponent below its bit width.
proof fn lemma_level_fits(level: nat)
    requires
        pow2(level) <= usize::MAX,
    ensures
        level < usize::BITS,
{
    if level >= usize::BITS {
        lemma2_to64();
        lemma2_to64_rest();
        if level > usize::BITS {
            lemma_pow2_strictly_increases(usize::BITS as nat, level);
        }
    }
}

/// Whether `node` lies in the left half of its run of `2^(level+1)` slots.
fn left_child_at(node: usize, level: usize) -> (left: bool)
    requires
        level < usize::BITS,
    ensures
        left == ((node as nat / pow2(level as nat)) % 2 == 0),
{
    proof {
        lemma_usize_shr_is_div(node, level);
        let shifted = node >> level;
        assert(shifted & 1 == shifted % 2) by (bit_vector);
    }
    (node >> level) & 1 == 0
}

/// The number of array slots that a node of `level` stands for: itself and
/// the aggregation node next to it at level 0, twice as many each level up.
fn skip(level: usize) -> (slots: usize)
    requires
        2 * pow2(level as nat) <= usize::MAX,
    ensures
        slots == 2 * pow2(level as nat),
{
    proof {
        lemma_pow2_pos(level as nat);
        lemma_level_fits(level as nat);
        lemma_usize_shl_is_mul(2, level);
    }
    2 << level
}

/// The position that sums up the run of `2^(level+1)` slots starting at
/// `node`: the leaf itself at level 0.
fn agg_node(node: usize, level: usize) -> (position: usize)
    requires
        node + pow2(level as nat) <= usize::MAX,
    ensures
        position == node + pow2(level as nat) - 1,
{
    proof {
        lemma_pow2_pos(level as nat);
        lemma_level_fits(level as nat);
        lemma_usize_shl_is_mul(1, level);
    }
    node + (1 << level) - 1
}

/// What position `p` holds once `leaves.len()` blocks are in: the join of the
/// leaves that it sums up.
pub open spec fn node_value<A: AggregateModel>(leaves: Seq<A>, p: nat) -> A {
    join_all(leaves.subrange(span_start(p), span_end(p, leaves.len())))
}

/// The interval forest over the blocks of one track.
#[derive(Debug)]
pub struct IForestIndex<A> {
    pub values: Vec<A>,
}

impl<A> IForestIndex<A> {
    /// The block summaries that were pushed, in order.
    pub open spec fn leaves(&self) -> Seq<A> {
        Seq::new(self.values@.len() / 2, |i: int| self.values@[2 * i])
    }

    /// An index over no blocks.
    pub fn new() -> (index: Self)
        ensures
            index.values@ == Seq::<A>::empty(),
    {
        IForestIndex { values: Vec::new() }
    }
}

impl<A> Default for IForestIndex<A> {
    fn default() -> (index: Self)
        ensures
            index.values@ == Seq::<A>::empty(),
    {
        Self::new()
    }
}

/// What position `p` holds while block `m` is being pushed and the nodes that
/// it completes have been joined up to `level`.
spec fn during_push<A: AggregateModel>(
    old_values: Seq<A>,
    new_leaves: Seq<A>,
    level: nat,
    p: nat,
) -> A {
    let m = new_leaves.len() - 1;
    if p == 2 * m {
        new_leaves[m]
    } else if p % 2 == 1 && p + span_len(p) == 2 * m + 1 && trailing_ones(p) <= level {
        join_all(new_leaves.subrange(span_start(p), m + 1))
    } else {
        old_values[p as int]
    }
}

/// One part joins to itself.
proof fn lemma_join_all_single<A: AggregateModel>(leaves: Seq<A>, i: int)
    requires
        0 <= i < leaves.len(),
    ensures
        join_all(leaves.subrange(i, i + 1)) == leaves[i],
{
    let one = leaves.subrange(i, i + 1);
    assert(one.drop_last() =~= Seq::<A>::empty());
    assert(join_all(one.drop_last()) == A::nothing());
    A::lemma_join_identity(leaves[i]);
}

/// A run of parts joins to the join of its two halves.
proof fn lemma_join_all_split<A: AggregateModel>(leaves: Seq<A>, a: int, b: int, c: int)
    requires
        0 <= a <= b <= c <= leaves.len(),
    ensures
        join_all(leaves.subrange(a, c)) == join_all(leaves.subrange(a, b)).joined(
            join_all(leaves.subrange(b, c)),
        ),
{
    assert(leaves.subrange(a, c) =~= leaves.subrange(a, b) + leaves.subrange(b, c));
    lemma_join_all_concat(leaves.subrange(a, b), leaves.subrange(b, c));
}

impl<A: Aggregate> IForestIndex<A> {
    /// Whether the array is an interval forest: an even number of positions,
    /// each holding the join of the leaves that it sums up.
    pub open spec fn wf(&self) -> bool {
        &&& self.values@.len() % 2 == 0
        &&& forall|p: int|
            0 <= p < self.values@.len() ==> #[trigger] self.values@[p] == node_value(
                self.leaves(),
                p as nat,
            )
    }

    /// Appends the summary of `block` as the next leaf, joins it into the
    /// aggregation nodes whose span it completes, and adds the aggregation node
    /// that follows it.
    pub fn push(&mut self, block: &TraceBlock)
        requires
            old(self).wf(),
        ensures
            final(self).wf(),
            final(self).leaves() == old(self).leaves().push(summary::<A>(block@)),
            final(self).values@.len() == old(self).values@.len() + 2,
    {
        let ghost old_values = self.values@;
        let ghost old_leaves = self.leaves();
        let ghost m = old_leaves.len() as int;
        let leaf = A::from_block(block);
        let ghost new_leaves = old_leaves.push(leaf);
        self.values.push(leaf);

        let len = self.values.len();
        // Level 1 is complete every 2 blocks, level 2 every 4 blocks, and so on:
        // as many levels as the block's number ends in ones.
        let levels_to_index = count_trailing_ones(len) - 1;
        proof {
            assert(len == 2 * m + 1);
            assert(len as nat / 2 == m as nat);
            lemma2_to64();
            lemma_join_all_single(new_leaves, m as int);
            assert forall|p: int| 0 <= p < len implies #[trigger] self.values@[p] == during_push(
                old_values,
                new_leaves,
                0,
                p as nat,
            ) by {
                if p % 2 == 1 {
                    lemma_span_fits(p as nat);
                }
            }
        }

        // Complete the aggregation nodes that this block finishes.
        let mut cur = len - 1;
        let mut level: u32 = 0;
        while level < levels_to_index
            invariant
                len == 2 * m + 1,
                self.values@.len() == len,
                new_leaves == old_leaves.push(leaf),
                old_leaves.len() == m,
                old_values.len() == 2 * m,
                old_leaves == Seq::new(m as nat, |i: int| old_values[2 * i]),
                forall|p: int|
                    0 <= p < old_values.len() ==> #[trigger] old_values[p] == node_value(
                        old_leaves,
                        p as nat,
                    ),
                level <= levels_to_index == trailing_ones(m as nat),
                pow2(level as nat) <= len,
                cur == len - pow2(level as nat),
                self.values@[cur as int] == join_all(
                    new_leaves.subrange(m + 1 - pow2(level as nat), m + 1),
                ),
                forall|p: int|
                    0 <= p < len ==> #[trigger] self.values@[p] == during_push(
                        old_values,
                        new_leaves,
                        level as nat,
                        p as nat,
                    ),
            decreases levels_to_index - level,
        {
            let ghost k = level as nat;
            let ghost before = self.values@;
            proof {
                lemma_left_neighbour(m as nat, k);
                lemma_pow2_unfold(k + 1);
                lemma_pow2_pos(k);
                lemma_level_fits(k);
                lemma_usize_shl_is_mul(1, level as usize);
            }
            let prev = cur - (1usize << level);
            proof {
                // The node to the left still holds the left half of its span.
                assert(trailing_ones(prev as nat) == k + 1);
                lemma_span_fits(prev as nat);
                assert(span_start(prev as nat) == m + 1 - pow2(k + 1));
                assert(before[prev as int] == old_values[prev as int]);
                assert(old_values[prev as int] == node_value(old_leaves, prev as nat));
                assert(span_end(prev as nat, m as nat) == m + 1 - pow2(k));
                assert(old_leaves.subrange(m + 1 - pow2(k + 1), m + 1 - pow2(k))
                    =~= new_leaves.subrange(m + 1 - pow2(k + 1), m + 1 - pow2(k)));
                lemma_join_all_split(
                    new_leaves,
                    m + 1 - pow2(k + 1),
                    m + 1 - pow2(k),
                    m + 1,
                );
            }
            let combined = A::join(&self.values[prev], &self.values[cur]);
            self.values[prev] = combined;
            cur = prev;
            level += 1;
            proof {
                assert forall|p: int| 0 <= p < len implies #[trigger] self.values@[p]
                    == during_push(old_values, new_leaves, level as nat, p as nat) by {
                    if p != prev {
                        assert(self.values@[p] == before[p]);
                        if p % 2 == 1 && p + span_len(p as nat) == 2 * m + 1 && trailing_ones(
                            p as nat,
                        ) == k + 1 {
                            assert(false);
                        }
                    }
                }
            }
        }

        // The next aggregation node starts out as the run that ends here.
        proof {
            lemma_pow2_pos(levels_to_index as nat);
            lemma_level_fits(levels_to_index as nat);
            lemma_usize_shl_is_mul(1, levels_to_index as usize);
        }
        let ghost joined_up = self.values@;
        let placeholder = self.values[len - (1usize << levels_to_index)].clone();
        proof {
            A::lemma_clone_exact(joined_up[cur as int], placeholder);
        }
        self.values.push(placeholder);

        proof {
            let height = levels_to_index as nat;
            assert(self.leaves() =~= new_leaves) by {
                assert forall|i: int| 0 <= i < m + 1 implies self.values@[2 * i]
                    == new_leaves[i] by {
                    assert(self.values@[2 * i] == during_push(
                        old_values,
                        new_leaves,
                        height,
                        (2 * i) as nat,
                    ));
                }
            }
            assert forall|p: int| 0 <= p < self.values@.len() implies #[trigger] self.values@[p]
                == node_value(new_leaves, p as nat) by {
                lemma_span_fits(p as nat);
                if p == 2 * m + 1 {
                    lemma_pow2_unfold(height + 1);
                    assert(trailing_ones(p as nat) == height + 1);
                } else if p == 2 * m {
                    lemma_join_all_single(new_leaves, m as int);
                } else {
                    assert(self.values@[p] == during_push(old_values, new_leaves, height, p as nat));
                    assert(old_values[p] == node_value(old_leaves, p as nat));
                    if p % 2 == 1 && p + span_len(p as nat) == 2 * m + 1 {
                        lemma_pow2_unfold(trailing_ones(p as nat));
                        lemma_completed_by((p / 2) as nat, m as nat);
                    } else {
                        assert(span_end(p as nat, (m + 1) as nat) == span_end(p as nat, m as nat));
                        assert(old_leaves.subrange(span_start(p as nat), span_end(p as nat, m as nat))
                            =~= new_leaves.subrange(
                            span_start(p as nat),
                            span_end(p as nat, (m + 1) as nat),
                        ));
                    }
                }
            }
        }
    }

    /// The join of the leaves of the blocks `queried_range`, from left to right:
    /// nothing for an empty range.
    pub fn range_query(&self, queried_range: Range<usize>) -> (combined: A)
        requires
            self.wf(),
            queried_range.start <= queried_range.end <= self.leaves().len(),
        ensures
            combined == join_all(
                self.leaves().subrange(queried_range.start as int, queried_range.end as int),
            ),
            queried_range.start == queried_range.end ==> combined == A::nothing(),
    {
        let ghost leaves = self.leaves();
        let ghost lo = queried_range.start as int;
        let ghost hi = queried_range.end as int;
        assert(2 * leaves.len() == self.values.len());
        // Leaves and aggregation nodes alternate: block `i` is at position `2i`.
        let mut start = queried_range.start * 2;
        let end = queried_range.end * 2;

        let mut combined = A::empty();
        assert(leaves.subrange(lo, lo) =~= Seq::<A>::empty());
        while start < end
            invariant
                self.wf(),
                leaves == self.leaves(),
                2 * leaves.len() == self.values@.len(),
                end == 2 * hi,
                0 <= lo <= hi <= leaves.len(),
                2 * lo <= start <= end,
                start % 2 == 0,
                combined == join_all(leaves.subrange(lo, start as int / 2)),
            decreases end - start,
        {
            // Skip via the highest level where we are on the very left and the
            // run does not reach too far.
            let mut up_level: usize = 1;
            proof {
                lemma2_to64();
            }
            while up_level + 1 < usize::BITS as usize && left_child_at(start, up_level) && skip(
                up_level,
            ) <= end - start
                invariant
                    start < end,
                    1 <= up_level < usize::BITS,
                    start as nat % pow2(up_level as nat) == 0,
                    start + pow2(up_level as nat) <= end,
                    up_level + 1 < usize::BITS ==> 2 * pow2(up_level as nat) <= usize::MAX,
                decreases usize::BITS - up_level,
            {
                proof {
                    let w = pow2(up_level as nat) as int;
                    let d = start as int / w;
                    lemma_pow2_pos(up_level as nat);
                    lemma_pow2_unfold((up_level + 1) as nat);
                    lemma_fundamental_div_mod(start as int, w);
                    assert(start == (2 * w) * (d / 2)) by (nonlinear_arith)
                        requires
                            start == w * d,
                            d % 2 == 0,
                    ;
                    lemma_mod_multiples_basic(d / 2, 2 * w);
                    if up_level + 2 < usize::BITS {
                        lemma_usize_pow2_no_overflow((up_level + 2) as nat);
                        lemma_pow2_unfold((up_level + 2) as nat);
                    }
                }
                up_level += 1;
            }

            let level = up_level - 1;
            proof {
                lemma_pow2_unfold(up_level as nat);
                lemma_pow2_pos(level as nat);
                lemma_middle_of_run(start as nat, level as nat);
                let p = (start + pow2(level as nat) - 1) as nat;
                lemma_span_fits(p);
                assert(span_start(p) == start as int / 2);
                assert(span_end(p, leaves.len()) == start as int / 2 + pow2(level as nat));
                assert(self.values@[p as int] == node_value(leaves, p));
                lemma_join_all_split(
                    leaves,
                    lo,
                    start as int / 2,
                    start as int / 2 + pow2(level as nat),
                );
            }
            combined = A::join(&combined, &self.values[agg_node(start, level)]);

            start += skip(level);
        }

        combined
    }
}

/// A forest over `n` blocks has `2n` positions, and position `2i` holds the
/// summary of block `i`.
pub proof fn lemma_leaf_positions<A: Aggregate>(index: &IForestIndex<A>, i: int)
    requires
        index.wf(),
        0 <= i < index.leaves().len(),
    ensures
        index.values@.len() == 2 * index.leaves().len(),
        index.values@[2 * i] == index.leaves()[i],
{
}

/// What a query over the blocks `lo..hi` of an index built from `blocks` gives
/// is the summary of all events of those blocks.
pub proof fn lemma_query_sums_events<A: AggregateModel>(
    blocks: Seq<Seq<TraceEvent>>,
    lo: int,
    hi: int,
)
    requires
        0 <= lo <= hi <= blocks.len(),
    ensures
        join_all(summaries::<A>(blocks).subrange(lo, hi)) == summary::<A>(
            blocks.subrange(lo, hi).flatten(),
        ),
{
    assert(summaries::<A>(blocks).subrange(lo, hi) =~= summaries::<A>(blocks.subrange(lo, hi)));
    lemma_summary_of_blocks::<A>(blocks.subrange(lo, hi));
}

/// A query over an empty range of leaves gives nothing.
pub proof fn lemma_range_empty<A: AggregateModel>(leaves: Seq<A>, k: int)
    requires
        0 <= k <= leaves.len(),
    ensures
        join_all(leaves.subrange(k, k)) == A::nothing(),
{
    assert(leaves.subrange(k, k) =~= Seq::<A>::empty());
}

/// A query over `a..c` gives the join of the queries over `a..b` and `b..c`.
pub proof fn lemma_range_splits<A: AggregateModel>(leaves: Seq<A>, a: int, b: int, c: int)
    requires
        0 <= a <= b <= c <= leaves.len(),
    ensures
        join_all(leaves.subrange(a, c)) == join_all(leaves.subrange(a, b)).joined(
            join_all(leaves.subrange(b, c)),
        ),
{
    lemma_join_all_split(leaves, a, b, c);
}

impl<A: Aggregate> TrackIndex<A> for IForestIndex<A> {
    open spec fn covered(&self) -> Seq<A> {
        self.leaves()
    }

    fn build(track: &Track, pool: &BlockPool) -> (index: Self)
        ensures
            index.wf(),
    {
        let mut forest = IForestIndex::new();
        let mut i: usize = 0;
        let ghost blocks = blocks_at(pool@, track.block_locations@);
        assert(forest.leaves() =~= summaries::<A>(blocks.take(0)));
        while i < track.block_locations.len()
            invariant
                located(pool@, track.block_locations@),
                blocks == blocks_at(pool@, track.block_locations@),
                i <= track.block_locations.len(),
                forest.wf(),
                forest.leaves() == summaries::<A>(blocks.take(i as int)),
            decreases track.block_locations.len() - i,
        {
            let idx = track.block_locations[i];
            forest.push(&pool.blocks[idx as usize]);
            i += 1;
            assert(forest.leaves() =~= summaries::<A>(blocks.take(i as int)));
        }
        assert(blocks.take(i as int) =~= blocks);
        forest
    }
}

} // verus!
