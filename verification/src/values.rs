//! What single operations make of the elements of their operands, row by row.

use crate::graph::{binary, leaf, quaternary, turn, unary, Dims, Kind, Num, REST, Slot, Stack, Term};
use crate::graph::{Turn, WeightKey};
use crate::link_heads::{embedded_at, join_at, permuted_at, split_at, turned_at};
use crate::links::{at1, at2, at3, at4};
use crate::meaning::{in_range, kept_keys, key_at, lemma_value0, lemma_value1, lemma_value2};
use crate::meaning::{lemma_value4, line, project, value, Arithmetic, Key, Val};
use crate::shapes::{extents, lemma_stretched_into, reshaped};
use crate::types::{elem2, joint};
use crate::windows::{is_map, is_zip, lemma_result1, lemma_result2, lemma_result4};
use vstd::prelude::*;

verus! {

/// The elements of an array with one axis.
pub open spec fn list<E>(x: Val<E>) -> Seq<E> {
    Seq::new(x.shape[0] as nat, |j: int| at1(x, j))
}

/// A row of a matrix.
pub open spec fn row2<E>(x: Val<E>, r: int) -> Seq<E> {
    Seq::new(x.shape[1] as nat, |j: int| at2(x, r, j))
}

/// The elements along the last of three axes.
pub open spec fn row3<E>(x: Val<E>, r: int, q: int) -> Seq<E> {
    Seq::new(x.shape[2] as nat, |j: int| at3(x, r, q, j))
}

/// The elements along the last of four axes.
pub open spec fn row4<E>(x: Val<E>, r: int, h: int, q: int) -> Seq<E> {
    Seq::new(x.shape[3] as nat, |j: int| at4(x, r, h, q, j))
}

/// The products of a list with every row of a matrix.
pub open spec fn times<E>(ar: Arithmetic<E>, x: Seq<E>, w: Val<E>) -> Seq<E> {
    Seq::new(w.shape[0] as nat, |c: int| (ar.dot)(x, row2(w, c)))
}

/// Two lists, element by element.
pub open spec fn pairwise<E>(ar: Arithmetic<E>, kind: Kind, a: Seq<E>, b: Seq<E>) -> Seq<E> {
    Seq::new(a.len(), |j: int| (ar.bin)(kind, a[j], b[j]))
}

/// Every element of a list.
pub open spec fn each<E>(ar: Arithmetic<E>, kind: Kind, a: Seq<E>) -> Seq<E> {
    Seq::new(a.len(), |j: int| (ar.un)(kind, a[j]))
}

/// Part `g` of a list cut into parts of `d`.
pub open spec fn head_of<E>(x: Seq<E>, g: int, d: int) -> Seq<E> {
    Seq::new(d as nat, |j: int| x[g * d + j])
}

/// A list normalised in one call, scaled by weights.
pub open spec fn normed<E>(ar: Arithmetic<E>, eps: Num, x: Seq<E>, w: Seq<E>) -> Seq<E> {
    Seq::new(x.len(), |j: int| (ar.rms)(eps, x, w, j))
}

/// A list turned in one call, by its position.
pub open spec fn turned<E>(
    ar: Arithmetic<E>,
    how: Turn,
    position: int,
    x: Seq<E>,
    freqs: Seq<E>,
) -> Seq<E> {
    Seq::new(x.len(), |j: int| (ar.rope)(how, position, x, freqs, j))
}

/// The first `n` of some keys, without those that are hidden.
pub open spec fn seen<E>(ar: Arithmetic<E>, n: int, key: spec_fn(int) -> Key<E>) -> Seq<Key<E>>
    decreases n,
{
    if n <= 0 {
        seq![]
    } else if (ar.hides)(key(n - 1).mask) {
        seen(ar, n - 1, key)
    } else {
        seen(ar, n - 1, key).push(key(n - 1))
    }
}

/// The array of a weight.
pub open spec fn weight_of<E>(env: spec_fn(Kind) -> Val<E>, stack: Stack, slot: Slot) -> Val<E> {
    env(Kind::Weight(WeightKey { stack, slot }))
}

/// Lists of keys that agree are seen alike.
pub proof fn lemma_seen<E>(
    ar: Arithmetic<E>,
    n: int,
    a: spec_fn(int) -> Key<E>,
    b: spec_fn(int) -> Key<E>,
)
    requires
        forall|u: int| 0 <= u < n ==> #[trigger] a(u) == b(u),
    ensures
        seen(ar, n, a) == seen(ar, n, b),
    decreases n,
{
    if n > 0 {
        lemma_seen(ar, n - 1, a, b);
        assert(a(n - 1) == b(n - 1));
    }
}

/// The keys that a query sees, from those that it is given.
proof fn lemma_kept<E>(
    ar: Arithmetic<E>,
    k: Val<E>,
    v: Val<E>,
    m: Val<E>,
    group: int,
    i: Seq<int>,
    n: int,
    key: spec_fn(int) -> Key<E>,
)
    requires
        forall|u: int| 0 <= u < n ==> key_at(k, v, m, group, i, u) == #[trigger] key(u),
    ensures
        kept_keys(ar, k, v, m, group, i, n) == seen(ar, n, key),
    decreases n,
{
    if n > 0 {
        lemma_kept(ar, k, v, m, group, i, n - 1, key);
        assert(key_at(k, v, m, group, i, n - 1) == key(n - 1));
    }
}

/// An array that a program starts from.
pub proof fn leaf_at<E>(ar: Arithmetic<E>, env: spec_fn(Kind) -> Val<E>, kind: Kind)
    requires
        match kind {
            Kind::Ids(_) | Kind::Mask(_) | Kind::Prompt | Kind::Weight(_) | Kind::Freqs
            | Kind::InvFreq(_, _) => true,
            _ => false,
        },
    ensures
        ({
            let x = value(ar, env, leaf(kind));
            &&& x.shape == env(kind).shape
            &&& x.elem == env(kind).elem
            &&& forall|i: Seq<int>| #[trigger] (x.at)(i) == (env(kind).at)(i)
        }),
{
    lemma_value0(ar, env, kind);
}

/// A number.
pub proof fn number_at<E>(ar: Arithmetic<E>, env: spec_fn(Kind) -> Val<E>, num: Num)
    ensures
        ({
            let x = value(ar, env, leaf(Kind::Const(num)));
            &&& x.shape == Seq::<int>::empty()
            &&& forall|i: Seq<int>| #[trigger] (x.at)(i) == (ar.num)(num)
        }),
{
    lemma_value0(ar, env, Kind::Const(num));
}

/// The product of hidden states with the transpose of a matrix.
pub proof fn linear_at<E>(
    ar: Arithmetic<E>,
    env: spec_fn(Kind) -> Val<E>,
    t: Term,
    w: Term,
    a: int,
    b: int,
    from: int,
    to: int,
)
    requires
        0 <= a,
        0 <= b,
        0 <= from,
        0 <= to,
        value(ar, env, t).shape == seq![a, b, from],
        value(ar, env, w).shape == seq![to, from],
    ensures
        ({
            let y = value(ar, env, binary(Kind::Matmul, t, unary(Kind::Transpose, w)));
            &&& y.shape == seq![a, b, to]
            &&& forall|r: int, q: int|
                0 <= r < a && 0 <= q < b ==> #[trigger] row3(y, r, q) == times(
                    ar,
                    row3(value(ar, env, t), r, q),
                    value(ar, env, w),
                )
        }),
{
    let wt = unary(Kind::Transpose, w);
    let (x, m) = (value(ar, env, t), value(ar, env, w));
    lemma_value1(ar, env, Kind::Transpose, w);
    lemma_result1(ar, env, Kind::Transpose, m);
    let mt = value(ar, env, wt);
    assert(m.shape.reverse() =~= seq![from, to]);
    lemma_value2(ar, env, Kind::Matmul, t, wt);
    lemma_result2(ar, env, Kind::Matmul, x, mt);
    let y = value(ar, env, binary(Kind::Matmul, t, wt));
    assert(x.shape.drop_last().push(to) =~= seq![a, b, to]);
    assert forall|r: int, q: int| 0 <= r < a && 0 <= q < b implies #[trigger] row3(y, r, q)
        == times(ar, row3(x, r, q), m) by {
        assert forall|c: int| 0 <= c < to implies #[trigger] row3(y, r, q)[c] == times(
            ar,
            row3(x, r, q),
            m,
        )[c] by {
            let i = seq![r, q, c];
            assert(line(x, 2, i) =~= row3(x, r, q)) by {
                assert forall|j: int| 0 <= j < from implies #[trigger] line(x, 2, i)[j] == row3(
                    x,
                    r,
                    q,
                )[j] by {
                    assert(i.update(2, j) =~= seq![r, q, j]);
                }
            }
            let o = seq![0, c];
            assert(line(mt, 0, o) =~= row2(m, c)) by {
                assert forall|j: int| 0 <= j < from implies #[trigger] line(mt, 0, o)[j] == row2(
                    m,
                    c,
                )[j] by {
                    assert(o.update(0, j).reverse() =~= seq![c, j]);
                }
            }
            assert(i.last() == c);
        }
        assert(row3(y, r, q) =~= times(ar, row3(x, r, q), m));
    }
}

/// The same of a matrix.
pub proof fn linear2_at<E>(
    ar: Arithmetic<E>,
    env: spec_fn(Kind) -> Val<E>,
    t: Term,
    w: Term,
    a: int,
    from: int,
    to: int,
)
    requires
        0 <= a,
        0 <= from,
        0 <= to,
        value(ar, env, t).shape == seq![a, from],
        value(ar, env, w).shape == seq![to, from],
    ensures
        ({
            let y = value(ar, env, binary(Kind::Matmul, t, unary(Kind::Transpose, w)));
            &&& y.shape == seq![a, to]
            &&& forall|r: int|
                0 <= r < a ==> #[trigger] row2(y, r) == times(
                    ar,
                    row2(value(ar, env, t), r),
                    value(ar, env, w),
                )
        }),
{
    let wt = unary(Kind::Transpose, w);
    let (x, m) = (value(ar, env, t), value(ar, env, w));
    lemma_value1(ar, env, Kind::Transpose, w);
    lemma_result1(ar, env, Kind::Transpose, m);
    let mt = value(ar, env, wt);
    assert(m.shape.reverse() =~= seq![from, to]);
    lemma_value2(ar, env, Kind::Matmul, t, wt);
    lemma_result2(ar, env, Kind::Matmul, x, mt);
    let y = value(ar, env, binary(Kind::Matmul, t, wt));
    assert(x.shape.drop_last().push(to) =~= seq![a, to]);
    assert forall|r: int| 0 <= r < a implies #[trigger] row2(y, r) == times(ar, row2(x, r), m) by {
        assert forall|c: int| 0 <= c < to implies #[trigger] row2(y, r)[c] == times(
            ar,
            row2(x, r),
            m,
        )[c] by {
            let i = seq![r, c];
            assert(line(x, 1, i) =~= row2(x, r)) by {
                assert forall|j: int| 0 <= j < from implies #[trigger] line(x, 1, i)[j] == row2(
                    x,
                    r,
                )[j] by {
                    assert(i.update(1, j) =~= seq![r, j]);
                }
            }
            let o = seq![0, c];
            assert(line(mt, 0, o) =~= row2(m, c)) by {
                assert forall|j: int| 0 <= j < from implies #[trigger] line(mt, 0, o)[j] == row2(
                    m,
                    c,
                )[j] by {
                    assert(o.update(0, j).reverse() =~= seq![c, j]);
                }
            }
            assert(i.last() == c);
        }
        assert(row2(y, r) =~= times(ar, row2(x, r), m));
    }
}

/// A normalisation of hidden states in one call.
pub proof fn rms_at<E>(
    ar: Arithmetic<E>,
    env: spec_fn(Kind) -> Val<E>,
    eps: Num,
    t: Term,
    w: Term,
    a: int,
    b: int,
    n: int,
)
    requires
        0 <= a,
        0 <= b,
        0 <= n,
        value(ar, env, t).shape == seq![a, b, n],
        value(ar, env, w).shape == seq![n],
    ensures
        ({
            let y = value(ar, env, binary(Kind::FastRmsNorm(eps), t, w));
            &&& y.shape == seq![a, b, n]
            &&& forall|r: int, q: int|
                0 <= r < a && 0 <= q < b ==> #[trigger] row3(y, r, q) == normed(
                    ar,
                    eps,
                    row3(value(ar, env, t), r, q),
                    list(value(ar, env, w)),
                )
        }),
{
    let kind = Kind::FastRmsNorm(eps);
    let (x, m) = (value(ar, env, t), value(ar, env, w));
    lemma_value2(ar, env, kind, t, w);
    lemma_result2(ar, env, kind, x, m);
    let y = value(ar, env, binary(kind, t, w));
    lemma_list(m);
    assert forall|r: int, q: int| 0 <= r < a && 0 <= q < b implies #[trigger] row3(y, r, q)
        == normed(ar, eps, row3(x, r, q), list(m)) by {
        assert forall|c: int| 0 <= c < n implies #[trigger] row3(y, r, q)[c] == normed(
            ar,
            eps,
            row3(x, r, q),
            list(m),
        )[c] by {
            let i = seq![r, q, c];
            assert(line(x, 2, i) =~= row3(x, r, q)) by {
                assert forall|j: int| 0 <= j < n implies #[trigger] line(x, 2, i)[j] == row3(
                    x,
                    r,
                    q,
                )[j] by {
                    assert(i.update(2, j) =~= seq![r, q, j]);
                }
            }
        }
        assert(row3(y, r, q) =~= normed(ar, eps, row3(x, r, q), list(m)));
    }
}

/// The elements along the only axis.
pub proof fn lemma_list<E>(x: Val<E>)
    requires
        x.shape.len() == 1,
        0 <= x.shape[0],
    ensures
        line(x, 0, seq![0]) == list(x),
{
    let o = seq![0int];
    assert forall|j: int| 0 <= j < x.shape[0] implies #[trigger] line(x, 0, o)[j] == list(x)[j] by {
        assert(o.update(0, j) =~= seq![j]);
    }
    assert(line(x, 0, o) =~= list(x));
}

/// An element-wise operation on hidden states.
pub proof fn each_at<E>(
    ar: Arithmetic<E>,
    env: spec_fn(Kind) -> Val<E>,
    kind: Kind,
    t: Term,
    a: int,
    b: int,
    n: int,
)
    requires
        is_map(kind),
        !(kind is Cast),
        0 <= n,
        value(ar, env, t).shape == seq![a, b, n],
    ensures
        ({
            let y = value(ar, env, unary(kind, t));
            &&& y.shape == seq![a, b, n]
            &&& forall|r: int, q: int| #[trigger]
                row3(y, r, q) == each(ar, kind, row3(value(ar, env, t), r, q))
        }),
{
    let x = value(ar, env, t);
    lemma_value1(ar, env, kind, t);
    lemma_result1(ar, env, kind, x);
    let y = value(ar, env, unary(kind, t));
    assert forall|r: int, q: int| #[trigger] row3(y, r, q) == each(ar, kind, row3(x, r, q)) by {
        assert(row3(y, r, q) =~= each(ar, kind, row3(x, r, q)));
    }
}

/// An element-wise operation on two arrays of hidden states.
pub proof fn pairs_at<E>(
    ar: Arithmetic<E>,
    env: spec_fn(Kind) -> Val<E>,
    kind: Kind,
    t: Term,
    u: Term,
    a: int,
    b: int,
    n: int,
)
    requires
        is_zip(kind),
        0 <= n,
        value(ar, env, t).shape == seq![a, b, n],
        value(ar, env, u).shape == seq![a, b, n],
    ensures
        ({
            let y = value(ar, env, binary(kind, t, u));
            &&& y.shape == seq![a, b, n]
            &&& y.elem == elem2(kind, value(ar, env, t).elem, value(ar, env, u).elem)
            &&& forall|r: int, q: int|
                0 <= r < a && 0 <= q < b ==> #[trigger] row3(y, r, q) == pairwise(
                    ar,
                    kind,
                    row3(value(ar, env, t), r, q),
                    row3(value(ar, env, u), r, q),
                )
        }),
{
    let (x, z) = (value(ar, env, t), value(ar, env, u));
    lemma_value2(ar, env, kind, t, u);
    lemma_result2(ar, env, kind, x, z);
    let s = seq![a, b, n];
    lemma_stretched_into(s, s);
    let y = value(ar, env, binary(kind, t, u));
    assert forall|r: int, q: int| 0 <= r < a && 0 <= q < b implies #[trigger] row3(y, r, q)
        == pairwise(ar, kind, row3(x, r, q), row3(z, r, q)) by {
        assert forall|j: int| 0 <= j < n implies #[trigger] row3(y, r, q)[j] == pairwise(
            ar,
            kind,
            row3(x, r, q),
            row3(z, r, q),
        )[j] by {
            let i = seq![r, q, j];
            assert(project(i, s) =~= i);
        }
        assert(row3(y, r, q) =~= pairwise(ar, kind, row3(x, r, q), row3(z, r, q)));
    }
}

/// `[b, s, n * d]` as `[b, n, s, d]`: heads are parts of the last axis.
pub proof fn heads_at<E>(
    ar: Arithmetic<E>,
    env: spec_fn(Kind) -> Val<E>,
    t: Term,
    b: i32,
    s: i32,
    n: i32,
    d: i32,
)
    requires
        0 < b,
        0 < s,
        0 < n,
        0 < d,
        value(ar, env, t).shape == seq![b as int, s as int, n * d],
    ensures
        ({
            let y = value(
                ar,
                env,
                unary(
                    Kind::Permute(Dims::D4(0, 2, 1, 3)),
                    unary(Kind::Reshape(Dims::D4(b, s, n, d)), t),
                ),
            );
            &&& y.shape == seq![b as int, n as int, s as int, d as int]
            &&& y.elem == value(ar, env, t).elem
            &&& forall|r: int, h: int, q: int|
                0 <= r < b && 0 <= h < n && 0 <= q < s ==> #[trigger] row4(y, r, h, q) == head_of(
                    row3(value(ar, env, t), r, q),
                    h,
                    d as int,
                )
        }),
{
    let f = unary(Kind::Reshape(Dims::D4(b, s, n, d)), t);
    let mid = seq![b as int, s as int, n as int, d as int];
    split_at(ar, env, t, b, s, n, d);
    permuted_at(ar, env, f, mid);
    let y = value(ar, env, unary(Kind::Permute(Dims::D4(0, 2, 1, 3)), f));
    let x = value(ar, env, t);
    assert forall|r: int, h: int, q: int|
        0 <= r < b && 0 <= h < n && 0 <= q < s implies #[trigger] row4(y, r, h, q) == head_of(
        row3(x, r, q),
        h,
        d as int,
    ) by {
        assert forall|j: int| 0 <= j < d implies #[trigger] row4(y, r, h, q)[j] == head_of(
            row3(x, r, q),
            h,
            d as int,
        )[j] by {
            let (i, k) = (seq![r, h, q, j], seq![r, q, h, j]);
            assert(seq![i[0], i[2], i[1], i[3]] =~= k);
            assert(in_range(k, mid));
        }
        assert(row4(y, r, h, q) =~= head_of(row3(x, r, q), h, d as int));
    }
}

/// `[b, n, s, d]` as `[b, s, n * d]`: heads side by side.
pub proof fn joined_at<E>(
    ar: Arithmetic<E>,
    env: spec_fn(Kind) -> Val<E>,
    dims: Dims,
    t: Term,
    b: i32,
    s: i32,
    n: i32,
    d: i32,
)
    requires
        0 < b,
        0 < s,
        0 < n,
        0 < d,
        value(ar, env, t).shape == seq![b as int, n as int, s as int, d as int],
        reshaped(seq![b as int, s as int, n as int, d as int], extents(dims)) == Some(
            seq![b as int, s as int, n * d],
        ),
    ensures
        ({
            let y = value(
                ar,
                env,
                unary(Kind::Reshape(dims), unary(Kind::Permute(Dims::D4(0, 2, 1, 3)), t)),
            );
            &&& y.shape == seq![b as int, s as int, n * d]
            &&& y.elem == value(ar, env, t).elem
            &&& forall|r: int, q: int, e: int|
                0 <= r < b && 0 <= q < s && 0 <= e < n * d ==> #[trigger] at3(y, r, q, e) == at4(
                    value(ar, env, t),
                    r,
                    e / d as int,
                    q,
                    e % d as int,
                )
        }),
{
    let f = unary(Kind::Permute(Dims::D4(0, 2, 1, 3)), t);
    let from = seq![b as int, n as int, s as int, d as int];
    let to = seq![b as int, s as int, n * d];
    permuted_at(ar, env, t, from);
    join_at(ar, env, dims, f, b, s, n, d);
    let y = value(ar, env, unary(Kind::Reshape(dims), f));
    assert forall|r: int, q: int, e: int| 0 <= r < b && 0 <= q < s && 0 <= e < n
        * d implies #[trigger] at3(y, r, q, e) == at4(
        value(ar, env, t),
        r,
        e / d as int,
        q,
        e % d as int,
    ) by {
        let i = seq![r, q, e];
        assert(in_range(i, to));
        let k = seq![r, q, e / d as int, e % d as int];
        assert(seq![k[0], k[2], k[1], k[3]] =~= seq![r, e / d as int, q, e % d as int]);
    }
}

/// Heads turned in one call, their rows laid end to end for it.
pub proof fn turned_rows<E>(
    ar: Arithmetic<E>,
    env: spec_fn(Kind) -> Val<E>,
    t: Term,
    freqs: Term,
    b: i32,
    n: i32,
    s: i32,
    d: i32,
)
    requires
        0 < b,
        0 < n,
        0 < s,
        0 < d,
        d as int % 2 == 0,
        value(ar, env, t).shape == seq![b as int, n as int, s as int, d as int],
        value(ar, env, freqs).shape == seq![d as int / 2],
    ensures
        ({
            let f = unary(Kind::Reshape(Dims::D3(REST, s, d)), t);
            let y = value(
                ar,
                env,
                unary(Kind::Reshape(Dims::D4(b, n, s, d)), binary(turn(d), f, freqs)),
            );
            &&& y.shape == seq![b as int, n as int, s as int, d as int]
            &&& forall|r: int, h: int, q: int|
                0 <= r < b && 0 <= h < n && 0 <= q < s ==> #[trigger] row4(y, r, h, q) == turned(
                    ar,
                    turn(d)->FastRope_0,
                    q,
                    row4(value(ar, env, t), r, h, q),
                    list(value(ar, env, freqs)),
                )
        }),
{
    turned_at(ar, env, t, freqs, b, n, s, d);
    let f = unary(Kind::Reshape(Dims::D3(REST, s, d)), t);
    let y = value(ar, env, unary(Kind::Reshape(Dims::D4(b, n, s, d)), binary(turn(d), f, freqs)));
    let (x, m) = (value(ar, env, t), value(ar, env, freqs));
    let full = seq![b as int, n as int, s as int, d as int];
    lemma_list(m);
    assert forall|r: int, h: int, q: int|
        0 <= r < b && 0 <= h < n && 0 <= q < s implies #[trigger] row4(y, r, h, q) == turned(
        ar,
        turn(d)->FastRope_0,
        q,
        row4(x, r, h, q),
        list(m),
    ) by {
        assert forall|j: int| 0 <= j < d implies #[trigger] row4(y, r, h, q)[j] == turned(
            ar,
            turn(d)->FastRope_0,
            q,
            row4(x, r, h, q),
            list(m),
        )[j] by {
            let i = seq![r, h, q, j];
            assert(in_range(i, full));
            lemma_line4(x, r, h, q, j);
        }
        assert(row4(y, r, h, q) =~= turned(
            ar,
            turn(d)->FastRope_0,
            q,
            row4(x, r, h, q),
            list(m),
        ));
    }
}

/// The elements along the last of four axes.
pub proof fn lemma_line4<E>(x: Val<E>, r: int, h: int, q: int, j: int)
    requires
        x.shape.len() == 4,
        0 <= x.shape[3],
    ensures
        line(x, 3, seq![r, h, q, j]) == row4(x, r, h, q),
{
    let i = seq![r, h, q, j];
    assert forall|c: int| 0 <= c < x.shape[3] implies #[trigger] line(x, 3, i)[c] == row4(
        x,
        r,
        h,
        q,
    )[c] by {
        assert(i.update(3, c) =~= seq![r, h, q, c]);
    }
    assert(line(x, 3, i) =~= row4(x, r, h, q));
}

/// Attention: each query gathers from the keys that it sees, heads in groups that share
/// keys.
pub proof fn attention_rows<E>(
    ar: Arithmetic<E>,
    env: spec_fn(Kind) -> Val<E>,
    num: Num,
    q: Term,
    k: Term,
    v: Term,
    m: Term,
    b: int,
    n: int,
    kv: int,
    t: int,
    u: int,
    d: int,
)
    requires
        0 < kv,
        0 < n,
        n % kv == 0,
        0 <= b,
        0 <= t,
        0 <= u,
        0 <= d,
        value(ar, env, q).shape == seq![b, n, t, d],
        value(ar, env, k).shape == seq![b, kv, u, d],
        value(ar, env, v).shape == seq![b, kv, u, d],
        ({
            let s = value(ar, env, m).shape;
            s == seq![b, 1, 1, u] || s == seq![b, 1, t, u]
        }),
    ensures
        ({
            let y = value(ar, env, quaternary(Kind::Attention(num), q, k, v, m));
            let mask = value(ar, env, m);
            &&& y.shape == seq![b, n, t, d]
            &&& y.elem == joint(
                joint(value(ar, env, q).elem, value(ar, env, k).elem),
                value(ar, env, v).elem,
            )
            &&& forall|r: int, h: int, a: int, j: int|
                0 <= r < b && 0 <= h < n && 0 <= a < t && 0 <= j < d ==> #[trigger] at4(
                    y,
                    r,
                    h,
                    a,
                    j,
                ) == (ar.attend)(
                    num,
                    row4(value(ar, env, q), r, h, a),
                    seen(
                        ar,
                        u,
                        |c: int|
                            Key {
                                key: row4(value(ar, env, k), r, h / (n / kv), c),
                                value: row4(value(ar, env, v), r, h / (n / kv), c),
                                mask: at4(
                                    mask,
                                    r,
                                    0,
                                    if mask.shape[2] == 1 {
                                        0
                                    } else {
                                        a
                                    },
                                    c,
                                ),
                            },
                    ),
                    j,
                )
        }),
{
    let kind = Kind::Attention(num);
    let (xq, xk, xv, xm) = (
        value(ar, env, q),
        value(ar, env, k),
        value(ar, env, v),
        value(ar, env, m),
    );
    lemma_value4(ar, env, kind, q, k, v, m);
    lemma_result4(ar, env, kind, xq, xk, xv, xm);
    let full = seq![b, n, t, u];
    assert forall|i: int| 0 <= i < xm.shape.len() implies #[trigger] xm.shape[i] == 1
        || xm.shape[i] == full[i + (full.len() - xm.shape.len())] by {}
    lemma_stretched_into(full, xm.shape);
    let y = value(ar, env, quaternary(kind, q, k, v, m));
    assert(seq![b, n, t, d] =~= y.shape);
    assert forall|r: int, h: int, a: int, j: int|
        0 <= r < b && 0 <= h < n && 0 <= a < t && 0 <= j < d implies #[trigger] at4(y, r, h, a, j)
        == (ar.attend)(
        num,
        row4(xq, r, h, a),
        seen(
            ar,
            u,
            |c: int|
                Key {
                    key: row4(xk, r, h / (n / kv), c),
                    value: row4(xv, r, h / (n / kv), c),
                    mask: at4(
                        xm,
                        r,
                        0,
                        if xm.shape[2] == 1 {
                            0
                        } else {
                            a
                        },
                        c,
                    ),
                },
        ),
        j,
    ) by {
        let i = seq![r, h, a, j];
        let g = h / (n / kv);
        lemma_line4(xq, r, h, a, j);
        let key = |c: int|
            Key {
                key: row4(xk, r, g, c),
                value: row4(xv, r, g, c),
                mask: at4(
                    xm,
                    r,
                    0,
                    if xm.shape[2] == 1 {
                        0
                    } else {
                        a
                    },
                    c,
                ),
            };
        assert forall|c: int| 0 <= c < u implies key_at(xk, xv, xm, n / kv, i, c)
            == #[trigger] key(c) by {
            lemma_line4(xk, r, g, c, 0);
            lemma_line4(xv, r, g, c, 0);
            let o = seq![
                r,
                0,
                if xm.shape[2] == 1 {
                    0
                } else {
                    a
                },
                c,
            ];
            assert(project(seq![r, h, a, c], xm.shape) =~= o);
        }
        lemma_kept(ar, xk, xv, xm, n / kv, i, u, key);
    }
}

/// The embeddings of rows of tokens.
pub proof fn embedded_rows<E>(
    ar: Arithmetic<E>,
    env: spec_fn(Kind) -> Val<E>,
    ids: Term,
    table: Term,
    vocab: int,
    b: i32,
    s: i32,
    h: i32,
)
    requires
        0 < b,
        0 < s,
        0 < h,
        value(ar, env, ids).shape == seq![b as int, s as int],
        value(ar, env, table).shape == seq![vocab, h as int],
    ensures
        ({
            let flat = unary(Kind::Reshape(Dims::D1(REST)), ids);
            let y = value(
                ar,
                env,
                unary(
                    Kind::Reshape(Dims::D3(b, s, h)),
                    binary(Kind::Take { axis: 0 }, table, flat),
                ),
            );
            &&& y.shape == seq![b as int, s as int, h as int]
            &&& y.elem == value(ar, env, table).elem
            &&& forall|r: int, q: int|
                0 <= r < b && 0 <= q < s ==> #[trigger] row3(y, r, q) == row2(
                    value(ar, env, table),
                    (ar.index)(at2(value(ar, env, ids), r, q)),
                )
        }),
{
    embedded_at(ar, env, ids, table, vocab, b, s, h);
    let flat = unary(Kind::Reshape(Dims::D1(REST)), ids);
    let y = value(
        ar,
        env,
        unary(Kind::Reshape(Dims::D3(b, s, h)), binary(Kind::Take { axis: 0 }, table, flat)),
    );
    let to = seq![b as int, s as int, h as int];
    assert forall|r: int, q: int| 0 <= r < b && 0 <= q < s implies #[trigger] row3(y, r, q) == row2(
        value(ar, env, table),
        (ar.index)(at2(value(ar, env, ids), r, q)),
    ) by {
        let w = row2(value(ar, env, table), (ar.index)(at2(value(ar, env, ids), r, q)));
        assert forall|j: int| 0 <= j < h implies #[trigger] row3(y, r, q)[j] == w[j] by {
            assert(in_range(seq![r, q, j], to));
        }
        assert(row3(y, r, q) =~= w);
    }
}

} // verus!
