//! Orders of indices by keys, and values put back where they came from.

use vstd::prelude::*;
use vstd::set_lib::{lemma_int_range, lemma_subset_equality};

verus! {

/// Whether index `a` comes before index `b`: by key, and among equal keys by index.
pub open spec fn before(keys: Seq<i128>, a: int, b: int) -> bool {
    keys[a] < keys[b] || (keys[a] == keys[b] && a < b)
}

/// Whether every index of `order` comes before the later ones.
pub open spec fn is_sorted(keys: Seq<i128>, order: Seq<usize>) -> bool {
    forall|i: int, j: int|
        0 <= i < j < order.len() ==> before(keys, #[trigger] order[i] as int, #[trigger] order[j] as int)
}

/// Whether `order` lists the indices of `keys` by ascending key, equal keys in
/// the order of their indices.
pub open spec fn is_stable_order(keys: Seq<i128>, order: Seq<usize>) -> bool {
    &&& order.len() == keys.len()
    &&& forall|i: int| 0 <= i < order.len() ==> #[trigger] order[i] < keys.len()
    &&& is_sorted(keys, order)
}

/// Whether `order` lists every number below `n` exactly once.
pub open spec fn is_permutation(order: Seq<usize>, n: nat) -> bool {
    &&& order.len() == n
    &&& order.no_duplicates()
    &&& forall|i: int| 0 <= i < n ==> #[trigger] order[i] < n
}

/// Every number below `n` stands somewhere in a permutation of them.
pub proof fn lemma_permutation_covers(order: Seq<usize>, n: nat, d: int)
    requires
        is_permutation(order, n),
        0 <= d < n,
    ensures
        exists|i: int| 0 <= i < n && #[trigger] order[i] == d,
{
    let all = order.map_values(|x: usize| x as int);
    assert(all.no_duplicates());
    all.unique_seq_to_set();
    lemma_int_range(0, n as int);
    let range = vstd::set_lib::set_int_range(0, n as int);
    assert forall|x: int| all.to_set().contains(x) implies range.contains(x) by {
        let i = choose|i: int| 0 <= i < all.len() && all[i] == x;
        assert(order[i] < n);
    }
    lemma_subset_equality(all.to_set(), range);
    assert(all.to_set().contains(d));
    let i = choose|i: int| 0 <= i < all.len() && all[i] == d;
    assert(order[i] == d);
}

/// An order by keys lists every index exactly once.
pub proof fn law_stable_order_is_permutation(keys: Seq<i128>, order: Seq<usize>)
    requires
        is_stable_order(keys, order),
    ensures
        is_permutation(order, keys.len()),
{
    assert forall|i: int, j: int| 0 <= i < order.len() && 0 <= j < order.len() && i != j implies
        order[i] != order[j] by {
        if i < j {
            assert(before(keys, order[i] as int, order[j] as int));
        } else {
            assert(before(keys, order[j] as int, order[i] as int));
        }
    }
}

proof fn lemma_stable_orders_agree(keys: Seq<i128>, a: Seq<usize>, b: Seq<usize>, n: int)
    requires
        is_stable_order(keys, a),
        is_stable_order(keys, b),
        0 <= n <= keys.len(),
    ensures
        forall|i: int| 0 <= i < n ==> a[i] == b[i],
    decreases n,
{
    if n > 0 {
        let i = n - 1;
        lemma_stable_orders_agree(keys, a, b, i);
        law_stable_order_is_permutation(keys, a);
        law_stable_order_is_permutation(keys, b);
        if a[i] != b[i] {
            lemma_permutation_covers(b, keys.len(), a[i] as int);
            lemma_permutation_covers(a, keys.len(), b[i] as int);
            let p = choose|p: int| 0 <= p < keys.len() && #[trigger] b[p] == a[i];
            let q = choose|q: int| 0 <= q < keys.len() && #[trigger] a[q] == b[i];
            assert(p > i) by {
                if p < i {
                    assert(a[p] == b[p]);
                }
            }
            assert(q > i) by {
                if q < i {
                    assert(a[q] == b[q]);
                }
            }
            assert(before(keys, b[i] as int, b[p] as int));
            assert(before(keys, a[i] as int, a[q] as int));
        }
    }
}

/// The keys determine the order.
pub proof fn law_stable_order_is_unique(keys: Seq<i128>, a: Seq<usize>, b: Seq<usize>)
    requires
        is_stable_order(keys, a),
        is_stable_order(keys, b),
    ensures
        a == b,
{
    lemma_stable_orders_agree(keys, a, b, keys.len() as int);
    assert(a =~= b);
}

/// Whether `order` is a sorted list of the indices from `lo` up to `hi`.
spec fn sorts_range(keys: Seq<i128>, order: Seq<usize>, lo: int, hi: int) -> bool {
    &&& order.len() == hi - lo
    &&& forall|i: int| 0 <= i < order.len() ==> lo <= #[trigger] order[i] < hi
    &&& is_sorted(keys, order)
}

/// Merges two sorted lists of neighbouring ranges.
fn merge(
    keys: &Vec<i128>,
    left: &Vec<usize>,
    right: &Vec<usize>,
    Ghost(lo): Ghost<int>,
    Ghost(mid): Ghost<int>,
    Ghost(hi): Ghost<int>,
) -> (r: Vec<usize>)
    requires
        0 <= lo <= mid <= hi <= keys@.len(),
        sorts_range(keys@, left@, lo, mid),
        sorts_range(keys@, right@, mid, hi),
    ensures
        sorts_range(keys@, r@, lo, hi),
{
    let mut out: Vec<usize> = Vec::new();
    let mut i: usize = 0;
    let mut j: usize = 0;
    while i < left.len() || j < right.len()
        invariant
            0 <= lo <= mid <= hi <= keys@.len(),
            sorts_range(keys@, left@, lo, mid),
            sorts_range(keys@, right@, mid, hi),
            i <= left@.len(),
            j <= right@.len(),
            out@.len() == i + j,
            forall|k: int| 0 <= k < out@.len() ==> lo <= #[trigger] out@[k] < hi,
            is_sorted(keys@, out@),
            forall|k: int, l: int|
                0 <= k < out@.len() && i <= l < left@.len() ==> before(
                    keys@,
                    #[trigger] out@[k] as int,
                    #[trigger] left@[l] as int,
                ),
            forall|k: int, l: int|
                0 <= k < out@.len() && j <= l < right@.len() ==> before(
                    keys@,
                    #[trigger] out@[k] as int,
                    #[trigger] right@[l] as int,
                ),
        decreases left@.len() - i + right@.len() - j,
    {
        let take_left = if i == left.len() {
            false
        } else if j == right.len() {
            true
        } else {
            keys[left[i]] <= keys[right[j]]
        };
        let ghost old_out = out@;
        if take_left {
            let x = left[i];
            out.push(x);
            assert forall|l: int| j <= l < right@.len() implies before(
                keys@,
                x as int,
                #[trigger] right@[l] as int,
            ) by {
                if l > j {
                    assert(before(keys@, right@[j as int] as int, right@[l] as int));
                }
            }
            i += 1;
        } else {
            let x = right[j];
            out.push(x);
            assert forall|l: int| i <= l < left@.len() implies before(
                keys@,
                x as int,
                #[trigger] left@[l] as int,
            ) by {
                if l > i {
                    assert(before(keys@, left@[i as int] as int, left@[l] as int));
                }
            }
            j += 1;
        }
        assert(forall|k: int| 0 <= k < old_out.len() ==> out@[k] == old_out[k]);
    }
    out
}

fn sort_range(keys: &Vec<i128>, lo: usize, hi: usize) -> (r: Vec<usize>)
    requires
        lo <= hi <= keys@.len(),
    ensures
        sorts_range(keys@, r@, lo as int, hi as int),
    decreases hi - lo,
{
    if hi - lo == 0 {
        Vec::new()
    } else if hi - lo == 1 {
        vec![lo]
    } else {
        let mid: usize = lo + (hi - lo) / 2;
        let left = sort_range(keys, lo, mid);
        let right = sort_range(keys, mid, hi);
        merge(
            keys,
            &left,
            &right,
            Ghost(lo as int),
            Ghost(mid as int),
            Ghost(hi as int),
        )
    }
}

/// The indices of `keys` by ascending key; equal keys stay in the order of their indices.
pub fn stable_order(keys: &Vec<i128>) -> (r: Vec<usize>)
    ensures
        is_stable_order(keys@, r@),
{
    sort_range(keys, 0, keys.len())
}

/// Puts `sorted[k]` back at position `order[k]`, for every `k`.
pub fn unsort<T: Copy>(order: &Vec<usize>, sorted: &Vec<T>, fill: T) -> (r: Vec<T>)
    requires
        is_permutation(order@, order@.len()),
        order@.len() <= sorted@.len(),
    ensures
        r@.len() == order@.len(),
        forall|k: int| 0 <= k < order@.len() ==> r@[#[trigger] order@[k] as int] == sorted@[k],
{
    let n = order.len();
    let mut out: Vec<T> = Vec::new();
    let mut k: usize = 0;
    while k < n
        invariant
            k <= n,
            out@.len() == k,
        decreases n - k,
    {
        out.push(fill);
        k += 1;
    }
    k = 0;
    while k < n
        invariant
            k <= n,
            n == order@.len(),
            n <= sorted@.len(),
            out@.len() == n,
            is_permutation(order@, n as nat),
            forall|l: int| 0 <= l < k ==> out@[#[trigger] order@[l] as int] == sorted@[l],
        decreases n - k,
    {
        let at = order[k];
        out[at] = sorted[k];
        k += 1;
    }
    out
}

/// Values computed in any order and put back by it are in the original order:
/// where every `sorted[k]` is what `f` gives for item `order[k]`, every
/// `restored[d]` is what `f` gives for item `d`.
pub proof fn law_unsort_restores_original_order<T>(
    order: Seq<usize>,
    sorted: Seq<T>,
    restored: Seq<T>,
    f: spec_fn(int) -> T,
)
    requires
        is_permutation(order, order.len()),
        order.len() <= sorted.len(),
        restored.len() == order.len(),
        forall|k: int| 0 <= k < order.len() ==> restored[#[trigger] order[k] as int] == sorted[k],
        forall|k: int| 0 <= k < order.len() ==> #[trigger] sorted[k] == f(order[k] as int),
    ensures
        restored == Seq::new(order.len(), f),
{
    assert forall|d: int| 0 <= d < order.len() implies restored[d] == f(d) by {
        lemma_permutation_covers(order, order.len(), d);
        let k = choose|k: int| 0 <= k < order.len() && #[trigger] order[k] == d;
        assert(sorted[k] == f(order[k] as int));
    }
    assert(restored =~= Seq::new(order.len(), f));
}

} // verus!
