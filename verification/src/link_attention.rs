//! Attention over linked keys.

use crate::graph::{quaternary, Kind, Num, Term};
use crate::link_heads::lemma_line_at_place;
use crate::links::{is_like, is_linked, moved, stays, Link};
use crate::meaning::{forgets_order, in_range, kept_keys, key_at, line, project};
use crate::meaning::{lemma_value4, Arithmetic, Key, Val};
use crate::parts::{first, second, Pair};
use crate::shapes::lemma_stretched_into;
use crate::windows::lemma_result4;
use vstd::prelude::*;
use vstd::relations::injective_on;
use vstd::set_lib::lemma_map_size;

verus! {

/// What a query is told of a key: the element of a stretched mask.
pub open spec fn told<E>(m: Val<E>, r: int, h: int, q: int, k: int) -> E {
    (m.at)(project(seq![r, h, q, k], m.shape))
}

/// Whether a mask of the same extents in both programs stretches over `n` heads of `b`
/// rows of `t` queries and `u` keys.
pub open spec fn is_mask<E>(p: Pair<E>, m: Term, b: int, n: int, t: int, u: int) -> bool {
    let s = second(p, m).shape;
    &&& first(p, m).shape == s
    &&& s.len() == 4
    &&& s[0] == 1 || s[0] == b
    &&& s[1] == 1 || s[1] == n
    &&& s[2] == 1 || s[2] == t
    &&& s[3] == 1 || s[3] == u
}

/// Whether every kept query sees the same keys: each is hidden in both programs, or it
/// is kept and the mask says the same of it.
#[verifier::opaque]
pub open spec fn see_alike<E>(
    p: Pair<E>,
    m: Term,
    lq: Link,
    lk: Link,
    b: int,
    n: int,
    t: int,
    u: int,
) -> bool {
    forall|r: int, h: int, q: int, k: int|
        #![trigger told(first(p, m), r, h, q, k)]
        #![trigger told(second(p, m), r, h, q, k)]
        0 <= r < b && 0 <= h < n && 0 <= q < t && 0 <= k < u && (lq.keep)(r, q) ==> {
            let (x, y) = (told(first(p, m), r, h, q, k), told(second(p, m), r, h, q, k));
            (p.ar.hides)(x) && (p.ar.hides)(y) || (lk.keep)(r, k) && x == y
        }
}

/// The keys that a kept query sees, up to the first `c`.
proof fn lemma_same_keys<E>(
    ar: Arithmetic<E>,
    k1: Val<E>,
    k2: Val<E>,
    v1: Val<E>,
    v2: Val<E>,
    m1: Val<E>,
    m2: Val<E>,
    lk: Link,
    group: int,
    i: Seq<int>,
    c: int,
)
    requires
        is_linked(k1, k2, 2, lk),
        is_linked(v1, v2, 2, lk),
        stays(lk),
        k2.shape.len() == 4,
        v2.shape.len() == 4,
        v2.shape[0] == k2.shape[0] && v2.shape[1] == k2.shape[1] && v2.shape[2] == k2.shape[2],
        i.len() == 4,
        0 <= i[0] < k2.shape[0],
        0 <= i[1] / group < k2.shape[1],
        0 <= c <= k2.shape[2],
        forall|k: int|
            #![trigger told(m1, i[0], i[1], i[2], k)]
            #![trigger told(m2, i[0], i[1], i[2], k)]
            0 <= k < k2.shape[2] ==> {
                let (x, y) = (told(m1, i[0], i[1], i[2], k), told(m2, i[0], i[1], i[2], k));
                (ar.hides)(x) && (ar.hides)(y) || (lk.keep)(i[0], k) && x == y
            },
    ensures
        kept_keys(ar, k1, v1, m1, group, i, c) == kept_keys(ar, k2, v2, m2, group, i, c),
    decreases c,
{
    if c > 0 {
        lemma_same_keys(ar, k1, k2, v1, v2, m1, m2, lk, group, i, c - 1);
        let (x, y) = (
            told(m1, i[0], i[1], i[2], c - 1),
            told(m2, i[0], i[1], i[2], c - 1),
        );
        if !((ar.hides)(x) && (ar.hides)(y)) {
            let at = seq![i[0], i[1] / group, c - 1, 0];
            assert forall|a: int| 0 <= a < 3 implies 0 <= #[trigger] at[a] < k2.shape[a] by {}
            lemma_line_at_place(k1, k2, lk, at);
            assert forall|a: int| 0 <= a < 3 implies 0 <= #[trigger] at[a] < v2.shape[a] by {}
            lemma_line_at_place(v1, v2, lk, at);
        }
    }
}

/// A head's group is one of the groups.
proof fn lemma_group(n: int, kv: int, h: int)
    requires
        0 < kv,
        0 < n,
        n % kv == 0,
        0 <= h < n,
    ensures
        0 <= h / (n / kv) < kv,
{
    let g = n / kv;
    assert(n == kv * g && g > 0) by (nonlinear_arith)
        requires
            0 < kv,
            0 < n,
            n % kv == 0,
            g == n / kv,
    ;
    assert(0 <= h / g < kv) by (nonlinear_arith)
        requires
            0 <= h < kv * g,
            g > 0,
            kv > 0,
    ;
}

/// The extents and elements of attention in one program.
proof fn attention_at<E>(p: Pair<E>, num: Num, q: Term, k: Term, v: Term, m: Term)
    requires
        ({
            let (x, y, z, w) = (
                second(p, q).shape,
                second(p, k).shape,
                second(p, v).shape,
                second(p, m).shape,
            );
            &&& first(p, q).shape == x && first(p, k).shape == y && first(p, v).shape == z && first(
                p,
                m,
            ).shape == w
            &&& x.len() == 4 && y.len() == 4 && z == y && x[0] == y[0] && x[3] == y[3]
            &&& y[1] > 0 && x[1] % y[1] == 0
            &&& is_mask(p, m, x[0], x[1], x[2], y[2])
        }),
        first(p, q).elem == second(p, q).elem,
        first(p, k).elem == second(p, k).elem,
        first(p, v).elem == second(p, v).elem,
    ensures
        ({
            let o = quaternary(Kind::Attention(num), q, k, v, m);
            let (x, y) = (second(p, q).shape, second(p, k).shape);
            &&& first(p, o).shape == x
            &&& second(p, o).shape == x
            &&& first(p, o).elem == second(p, o).elem
            &&& forall|i: Seq<int>| #[trigger]
                (first(p, o).at)(i) == (p.ar.attend)(
                    num,
                    line(first(p, q), 3, i),
                    kept_keys(
                        p.ar,
                        first(p, k),
                        first(p, v),
                        first(p, m),
                        x[1] / y[1],
                        i,
                        y[2],
                    ),
                    i[3],
                )
            &&& forall|i: Seq<int>| #[trigger]
                (second(p, o).at)(i) == (p.ar.attend)(
                    num,
                    line(second(p, q), 3, i),
                    kept_keys(
                        p.ar,
                        second(p, k),
                        second(p, v),
                        second(p, m),
                        x[1] / y[1],
                        i,
                        y[2],
                    ),
                    i[3],
                )
        }),
{
    let kind = Kind::Attention(num);
    lemma_value4(p.ar, p.e1, kind, q, k, v, m);
    lemma_value4(p.ar, p.e2, kind, q, k, v, m);
    lemma_result4(p.ar, p.e1, kind, first(p, q), first(p, k), first(p, v), first(p, m));
    lemma_result4(p.ar, p.e2, kind, second(p, q), second(p, k), second(p, v), second(p, m));
    let (x, y) = (second(p, q).shape, second(p, k).shape);
    let full = seq![x[0], x[1], x[2], y[2]];
    let w = second(p, m).shape;
    assert forall|a: int| 0 <= a < w.len() implies #[trigger] w[a] == 1 || w[a] == full[a + (
    full.len() - w.len())] by {}
    lemma_stretched_into(full, w);
    assert(seq![x[0], x[1], x[2], y[3]] =~= x);
}

/// Attention, where every kept query sees the same keys.
pub proof fn like_attention<E>(
    p: Pair<E>,
    num: Num,
    q: Term,
    k: Term,
    v: Term,
    m: Term,
    sq: Seq<int>,
    sk: Seq<int>,
    lq: Link,
    lk: Link,
)
    requires
        sq.len() == 4,
        sk.len() == 4,
        is_like(p, q, sq, 2, lq),
        is_like(p, k, sk, 2, lk),
        is_like(p, v, sk, 2, lk),
        stays(lq),
        stays(lk),
        sq[0] == sk[0],
        sq[3] == sk[3],
        0 < sk[1],
        0 < sq[1],
        sq[1] % sk[1] == 0,
        is_mask(p, m, sq[0], sq[1], sq[2], sk[2]),
        see_alike(p, m, lq, lk, sq[0], sq[1], sq[2], sk[2]),
    ensures
        is_like(p, quaternary(Kind::Attention(num), q, k, v, m), sq, 2, lq),
{
    reveal(is_like);
    reveal(see_alike);
    attention_at(p, num, q, k, v, m);
    let o = quaternary(Kind::Attention(num), q, k, v, m);
    let g = sq[1] / sk[1];
    assert(0 <= sk[2]);
    assert forall|i: Seq<int>| #[trigger] in_range(i, sq) && (lq.keep)(i[0], i[2]) implies (first(
        p,
        o,
    ).at)(moved(i, 2, lq)) == (second(p, o).at)(i) by {
        assert(moved(i, 2, lq) =~= i);
        assert(0 <= i[0] < sq[0] && 0 <= i[1] < sq[1] && 0 <= i[2] < sq[2] && 0 <= i[3] < sq[3]);
        lemma_line_at_place(first(p, q), second(p, q), lq, i);
        lemma_group(sq[1], sk[1], i[1]);
        lemma_same_keys(
            p.ar,
            first(p, k),
            second(p, k),
            first(p, v),
            second(p, v),
            first(p, m),
            second(p, m),
            lk,
            g,
            i,
            sk[2],
        );
    }
}

/// Whether the mask says of every key what it says of the one in its place.
#[verifier::opaque]
pub open spec fn are_told_alike<E>(
    p: Pair<E>,
    m: Term,
    lq: Link,
    lk: Link,
    b: int,
    n: int,
    t: int,
    u: int,
) -> bool {
    forall|r: int, h: int, a: int, k: int|
        #![trigger told(second(p, m), r, h, a, k)]
        0 <= r < b && 0 <= h < n && 0 <= a < t && 0 <= k < u && (lq.keep)(r, a) ==> (lk.keep)(r, k)
            && told(first(p, m), r, h, a, (lk.to)(k)) == told(second(p, m), r, h, a, k)
}

/// Whether `to` sends a position below `n` to `k`.
pub open spec fn is_reached(to: spec_fn(int) -> int, n: int, k: int) -> bool {
    exists|q: int| 0 <= q < n && #[trigger] to(q) == k
}

/// Whether `to` sends the positions below `n` to one another, each to its own.
pub open spec fn permutes(to: spec_fn(int) -> int, n: int) -> bool {
    &&& forall|q: int| 0 <= q < n ==> 0 <= #[trigger] to(q) < n
    &&& forall|a: int, b: int|
        0 <= a < n && 0 <= b < n && #[trigger] to(a) == #[trigger] to(b) ==> a == b
    &&& forall|k: int| 0 <= k < n ==> #[trigger] is_reached(to, n, k)
}

/// The positions below `c` whose key is `e` and is not hidden.
spec fn places<E>(
    ar: Arithmetic<E>,
    k: Val<E>,
    v: Val<E>,
    m: Val<E>,
    group: int,
    i: Seq<int>,
    c: int,
    e: Key<E>,
) -> Set<int> {
    Set::new(
        |u: int|
            0 <= u < c && key_at(k, v, m, group, i, u) == e && !(ar.hides)(e.mask),
    )
}

/// How often a key is seen.
proof fn lemma_places<E>(
    ar: Arithmetic<E>,
    k: Val<E>,
    v: Val<E>,
    m: Val<E>,
    group: int,
    i: Seq<int>,
    c: int,
    e: Key<E>,
)
    requires
        0 <= c,
    ensures
        places(ar, k, v, m, group, i, c, e).finite(),
        kept_keys(ar, k, v, m, group, i, c).to_multiset().count(e) == places(
            ar,
            k,
            v,
            m,
            group,
            i,
            c,
            e,
        ).len(),
    decreases c,
{
    broadcast use vstd::multiset::group_multiset_axioms;

    let s = places(ar, k, v, m, group, i, c, e);
    let keys = kept_keys(ar, k, v, m, group, i, c);
    if c <= 0 {
        assert(s =~= Set::empty());
        keys.to_multiset_ensures();
        assert(keys =~= seq![]);
    } else {
        let rest = kept_keys(ar, k, v, m, group, i, c - 1);
        let last = key_at(k, v, m, group, i, c - 1);
        let t = places(ar, k, v, m, group, i, c - 1, e);
        lemma_places(ar, k, v, m, group, i, c - 1, e);
        rest.to_multiset_ensures();
        if last == e && !(ar.hides)(e.mask) {
            assert(s =~= t.insert(c - 1));
        } else {
            assert(s =~= t);
        }
    }
}

/// Attention, where the keys and what the mask says of them are exchanged alike.
pub proof fn like_attention_permuted<E>(
    p: Pair<E>,
    num: Num,
    q: Term,
    k: Term,
    v: Term,
    m: Term,
    sq: Seq<int>,
    sk: Seq<int>,
    lq: Link,
    lk: Link,
)
    requires
        sq.len() == 4,
        sk.len() == 4,
        is_like(p, q, sq, 2, lq),
        is_like(p, k, sk, 2, lk),
        is_like(p, v, sk, 2, lk),
        stays(lq),
        permutes(lk.to, sk[2]),
        forgets_order(p.ar),
        sq[0] == sk[0],
        sq[3] == sk[3],
        0 < sk[1],
        0 < sq[1],
        sq[1] % sk[1] == 0,
        is_mask(p, m, sq[0], sq[1], sq[2], sk[2]),
        are_told_alike(p, m, lq, lk, sq[0], sq[1], sq[2], sk[2]),
    ensures
        is_like(p, quaternary(Kind::Attention(num), q, k, v, m), sq, 2, lq),
{
    reveal(is_like);
    reveal(are_told_alike);
    attention_at(p, num, q, k, v, m);
    let o = quaternary(Kind::Attention(num), q, k, v, m);
    let g = sq[1] / sk[1];
    assert(0 <= sk[2]);
    assert forall|i: Seq<int>| #[trigger] in_range(i, sq) && (lq.keep)(i[0], i[2]) implies (first(
        p,
        o,
    ).at)(moved(i, 2, lq)) == (second(p, o).at)(i) by {
        assert(moved(i, 2, lq) =~= i);
        assert(0 <= i[0] < sq[0] && 0 <= i[1] < sq[1] && 0 <= i[2] < sq[2] && 0 <= i[3] < sq[3]);
        lemma_line_at_place(first(p, q), second(p, q), lq, i);
        lemma_group(sq[1], sk[1], i[1]);
        assert forall|u: int| 0 <= u < sk[2] implies key_at(
            first(p, k),
            first(p, v),
            first(p, m),
            g,
            i,
            #[trigger] (lk.to)(u),
        ) == key_at(second(p, k), second(p, v), second(p, m), g, i, u) by {
            let w = told(second(p, m), i[0], i[1], i[2], u);
            let at = seq![i[0], i[1] / g, u, 0];
            assert(0 <= i[0] < sk[0] && 0 <= u < sk[2] && 0 <= i[1] / g < sk[1]);
            lemma_line_moved(first(p, k), second(p, k), lk, at);
            lemma_line_moved(first(p, v), second(p, v), lk, at);
            assert(moved(at, 2, lk) =~= seq![i[0], i[1] / g, (lk.to)(u), 0]);
        }
        lemma_permuted_keys(
            p.ar,
            first(p, k),
            second(p, k),
            first(p, v),
            second(p, v),
            first(p, m),
            second(p, m),
            lk.to,
            g,
            i,
            sk[2],
        );
    }
}

/// The elements of a position's head, where it is sent.
proof fn lemma_line_moved<E>(x: Val<E>, y: Val<E>, l: Link, i: Seq<int>)
    requires
        is_linked(x, y, 2, l),
        y.shape.len() == 4,
        i.len() == 4,
        0 <= i[0] < y.shape[0],
        0 <= i[1] < y.shape[1],
        0 <= i[2] < y.shape[2],
        (l.keep)(i[0], i[2]),
    ensures
        line(x, 3, moved(i, 2, l)) == line(y, 3, i),
{
    assert forall|c: int| 0 <= c < y.shape[3] implies (x.at)(
        #[trigger] moved(i, 2, l).update(3, c),
    ) == (y.at)(i.update(3, c)) by {
        let j = i.update(3, c);
        assert(in_range(j, y.shape));
        assert(moved(j, 2, l) =~= moved(i, 2, l).update(3, c));
    }
    assert(line(x, 3, moved(i, 2, l)) =~= line(y, 3, i));
}

/// Keys that are exchanged are the same keys, in another order.
proof fn lemma_permuted_keys<E>(
    ar: Arithmetic<E>,
    k1: Val<E>,
    k2: Val<E>,
    v1: Val<E>,
    v2: Val<E>,
    m1: Val<E>,
    m2: Val<E>,
    to: spec_fn(int) -> int,
    g: int,
    i: Seq<int>,
    n: int,
)
    requires
        0 <= n,
        permutes(to, n),
        forall|u: int|
            0 <= u < n ==> key_at(k1, v1, m1, g, i, #[trigger] to(u)) == key_at(k2, v2, m2, g, i, u),
    ensures
        kept_keys(ar, k1, v1, m1, g, i, n).to_multiset() == kept_keys(
            ar,
            k2,
            v2,
            m2,
            g,
            i,
            n,
        ).to_multiset(),
{
    let a = kept_keys(ar, k1, v1, m1, g, i, n).to_multiset();
    let b = kept_keys(ar, k2, v2, m2, g, i, n).to_multiset();
    assert forall|e: Key<E>| #[trigger] a.count(e) == b.count(e) by {
        let x = places(ar, k1, v1, m1, g, i, n, e);
        let y = places(ar, k2, v2, m2, g, i, n, e);
        lemma_places(ar, k1, v1, m1, g, i, n, e);
        lemma_places(ar, k2, v2, m2, g, i, n, e);
        assert(y.map(to) =~= x) by {
            assert forall|u: int| x.contains(u) implies y.map(to).contains(u) by {
                assert(is_reached(to, n, u));
                let w = choose|w: int| 0 <= w < n && #[trigger] to(w) == u;
                assert(y.contains(w));
            }
            assert forall|u: int| y.map(to).contains(u) implies x.contains(u) by {
                let w = choose|w: int| y.contains(w) && to(w) == u;
                assert(0 <= to(w) < n);
            }
        }
        assert(injective_on(to, y));
        lemma_map_size(y, x, to);
    }
    assert(a =~= b);
}

} // verus!
