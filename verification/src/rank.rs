//! Best-first rankings of scores.
//!
//! A score is a 32-bit real, known here by its bits. The bits of two reals that
//! are not NaN, read as a sign and a magnitude, compare as the reals do.

use crate::order::{before, is_permutation, is_stable_order};
use crate::order::{law_stable_order_is_permutation, lemma_permutation_covers, stable_order};
use vstd::prelude::*;

verus! {

/// The weight of the sign bit.
pub const SIGN: u32 = 0x8000_0000;

/// The magnitude of infinity.
pub const INFINITY_BITS: u32 = 0x7F80_0000;

/// The bits of a real without its sign.
pub open spec fn magnitude(bits: u32) -> int {
    bits as int % SIGN as int
}

/// Whether the bits are those of a NaN.
pub open spec fn is_nan(bits: u32) -> bool {
    magnitude(bits) > INFINITY_BITS
}

/// A number that orders reals: the magnitude with the sign. Both zeros have zero.
pub open spec fn real_key(bits: u32) -> int {
    if bits < SIGN {
        magnitude(bits)
    } else {
        -magnitude(bits)
    }
}

/// Whether scores can be ranked: a NaN cannot be compared with another score.
pub open spec fn can_rank(scores: Seq<u32>) -> bool {
    scores.len() < 2 || forall|i: int| 0 <= i < scores.len() ==> !is_nan(#[trigger] scores[i])
}

/// Keys that rank the greatest score first.
pub open spec fn rank_keys(scores: Seq<u32>) -> Seq<i128> {
    Seq::new(scores.len(), |i: int| (-real_key(scores[i])) as i128)
}

/// Whether `order` lists the positions of `scores` best first; equal scores stay in
/// the order of their positions.
pub open spec fn is_ranking(scores: Seq<u32>, order: Seq<usize>) -> bool {
    is_stable_order(rank_keys(scores), order)
}

/// Whether `top` is the first `limit` positions of a ranking, or all of them where
/// there are not as many.
pub open spec fn is_top(scores: Seq<u32>, limit: int, top: Seq<usize>) -> bool {
    exists|order: Seq<usize>| #[trigger]
        is_ranking(scores, order) && top == order.take(
            if limit < order.len() {
                limit
            } else {
                order.len() as int
            },
        )
}

/// A number that orders reals by their bits.
pub fn score_key(bits: u32) -> (r: i128)
    ensures
        r == real_key(bits),
{
    if bits < SIGN {
        bits as i128
    } else {
        -((bits - SIGN) as i128)
    }
}

/// Whether scores can be ranked: a NaN cannot be compared with another score.
pub fn is_rankable(scores: &Vec<u32>) -> (r: bool)
    ensures
        r == can_rank(scores@),
{
    if scores.len() < 2 {
        return true;
    }
    let mut i: usize = 0;
    while i < scores.len()
        invariant
            i <= scores@.len(),
            scores@.len() >= 2,
            forall|j: int| 0 <= j < i ==> !is_nan(#[trigger] scores@[j]),
        decreases scores@.len() - i,
    {
        if scores[i] % SIGN > INFINITY_BITS {
            assert(is_nan(scores@[i as int]));
            return false;
        }
        i += 1;
    }
    true
}

/// The positions of scores, best first.
pub fn rank(scores: &Vec<u32>) -> (r: Vec<usize>)
    requires
        can_rank(scores@),
    ensures
        is_ranking(scores@, r@),
{
    let mut keys: Vec<i128> = Vec::new();
    let mut i: usize = 0;
    while i < scores.len()
        invariant
            i <= scores@.len(),
            keys@ == rank_keys(scores@).take(i as int),
        decreases scores@.len() - i,
    {
        keys.push(-score_key(scores[i]));
        i += 1;
        assert(keys@ =~= rank_keys(scores@).take(i as int));
    }
    assert(keys@ =~= rank_keys(scores@));
    stable_order(&keys)
}

/// The positions of the `limit` best scores, best first; without a limit, of all.
pub fn top(scores: &Vec<u32>, limit: Option<usize>) -> (r: Vec<usize>)
    requires
        can_rank(scores@),
    ensures
        match limit {
            Some(n) => is_top(scores@, n as int, r@),
            None => is_ranking(scores@, r@),
        },
{
    let mut order = rank(scores);
    if let Some(n) = limit {
        let ghost all = order@;
        if n < order.len() {
            order.truncate(n);
            assert(order@ =~= all.take(n as int));
        } else {
            assert(order@ =~= all.take(all.len() as int));
        }
        assert(is_ranking(scores@, all));
    }
    order
}

/// The positions of the three best scores, best first.
pub fn top3(scores: &Vec<u32>) -> (r: Vec<usize>)
    requires
        can_rank(scores@),
    ensures
        is_top(scores@, 3, r@),
{
    top(scores, Some(3))
}

/// A ranking descends: no position is followed by one with a greater score.
pub proof fn law_ranking_descends(scores: Seq<u32>, order: Seq<usize>, i: int, j: int)
    requires
        is_ranking(scores, order),
        0 <= i < j < scores.len(),
    ensures
        order[i] < scores.len(),
        order[j] < scores.len(),
        real_key(scores[order[i] as int]) >= real_key(scores[order[j] as int]),
        real_key(scores[order[i] as int]) == real_key(scores[order[j] as int]) ==> order[i]
            < order[j],
{
    assert(before(rank_keys(scores), order[i] as int, order[j] as int));
}

/// A ranking lists every position exactly once.
pub proof fn law_ranking_lists_all(scores: Seq<u32>, order: Seq<usize>)
    requires
        is_ranking(scores, order),
    ensures
        is_permutation(order, scores.len()),
{
    law_stable_order_is_permutation(rank_keys(scores), order);
}

/// Nothing that is left out of the top beats what is in it, what is left out with an
/// equal score stands later, and as many positions are in it as the limit and the
/// scores allow.
pub proof fn law_top_holds_the_best(scores: Seq<u32>, limit: int, top: Seq<usize>, d: int)
    requires
        limit >= 0,
        is_top(scores, limit, top),
        0 <= d < scores.len(),
        forall|i: int| 0 <= i < top.len() ==> #[trigger] top[i] != d,
    ensures
        top.len() == limit,
        forall|i: int|
            0 <= i < top.len() ==> #[trigger] top[i] < scores.len() && real_key(
                scores[top[i] as int],
            ) >= real_key(scores[d]),
        forall|i: int|
            0 <= i < top.len() && real_key(scores[#[trigger] top[i] as int]) == real_key(scores[d])
                ==> top[i] < d,
{
    let order = choose|order: Seq<usize>| #[trigger]
        is_ranking(scores, order) && top == order.take(
            if limit < order.len() {
                limit
            } else {
                order.len() as int
            },
        );
    law_ranking_lists_all(scores, order);
    lemma_permutation_covers(order, scores.len(), d);
    let p = choose|p: int| 0 <= p < scores.len() && #[trigger] order[p] == d;
    assert(p >= top.len()) by {
        if p < top.len() {
            assert(top[p] == d);
        }
    }
    assert forall|i: int| 0 <= i < top.len() implies #[trigger] top[i] < scores.len() && real_key(
        scores[top[i] as int],
    ) >= real_key(scores[d]) && (real_key(scores[top[i] as int]) == real_key(scores[d]) ==> top[i]
        < d) by {
        law_ranking_descends(scores, order, i, p);
    }
}

/// The sum of measured times.
pub open spec fn total_of(times: Seq<u64>) -> int
    decreases times.len(),
{
    if times.len() == 0 {
        0
    } else {
        total_of(times.drop_last()) + times.last()
    }
}

/// Times as sort keys.
pub open spec fn time_keys(times: Seq<u64>) -> Seq<i128> {
    Seq::new(times.len(), |i: int| times[i] as i128)
}

/// What is reported of a list of measured times.
#[derive(Clone, Copy, Debug, PartialEq, Eq, Structural)]
pub struct Timing {
    pub min: u64,
    /// The time in the middle of the sorted list, the later of two.
    pub median: u64,
    /// The sum; divided by the number of times it is their mean.
    pub total: u128,
}

/// Whether `t` is what is reported of `times`.
pub open spec fn is_timing(t: Timing, times: Seq<u64>) -> bool {
    &&& exists|order: Seq<usize>| #[trigger]
        is_stable_order(time_keys(times), order) && t.min == times[order[0] as int] && t.median
            == times[order[times.len() as int / 2] as int]
    &&& t.total == total_of(times)
}

/// Sums up a list of measured times.
pub fn timing(times: &Vec<u64>) -> (r: Timing)
    requires
        times@.len() > 0,
    ensures
        is_timing(r, times@),
{
    let mut keys: Vec<i128> = Vec::new();
    let mut total: u128 = 0;
    let mut i: usize = 0;
    while i < times.len()
        invariant
            i <= times@.len(),
            keys@ == time_keys(times@).take(i as int),
            total == total_of(times@.take(i as int)),
            total <= i * u64::MAX,
        decreases times@.len() - i,
    {
        assert(times@.take(i + 1).drop_last() =~= times@.take(i as int));
        assert(i * u64::MAX + u64::MAX <= u128::MAX) by (nonlinear_arith)
            requires
                0 <= i <= u64::MAX,
        ;
        keys.push(times[i] as i128);
        total = total + times[i] as u128;
        i += 1;
        assert(keys@ =~= time_keys(times@).take(i as int));
    }
    assert(keys@ =~= time_keys(times@));
    assert(times@.take(times@.len() as int) =~= times@);
    let order = stable_order(&keys);
    Timing { min: times[order[0]], median: times[order[times.len() / 2]], total }
}

/// The least time is no greater than any.
pub proof fn law_min_is_least(t: Timing, times: Seq<u64>, i: int)
    requires
        is_timing(t, times),
        0 <= i < times.len(),
    ensures
        t.min <= times[i],
{
    let order = choose|order: Seq<usize>| #[trigger]
        is_stable_order(time_keys(times), order) && t.min == times[order[0] as int] && t.median
            == times[order[times.len() as int / 2] as int];
    law_stable_order_is_permutation(time_keys(times), order);
    lemma_permutation_covers(order, times.len(), i);
    let p = choose|p: int| 0 <= p < times.len() && #[trigger] order[p] == i;
    if p > 0 {
        assert(before(time_keys(times), order[0] as int, order[p] as int));
    }
}

} // verus!
