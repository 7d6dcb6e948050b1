//! Links under operations that move positions to another axis, and under attention.

use crate::graph::{binary, turn, unary, Dims, Kind, Term, REST};
use crate::links::{is_like, is_linked, moved, stays, Link};
use crate::meaning::{in_range, line, value};
use crate::meaning::{lemma_value1, lemma_value2, Arithmetic, Val};
use crate::parts::{first, is_shared, second, Pair};
use crate::shapes::{extents, known_extents, lemma_product};
use crate::shapes::{lemma_reshaped, lemma_reshaped_rest, reshaped};
use crate::window_folds::{lemma_grouped, lemma_ungrouped};
use crate::window_moves::{lemma_flat, lemma_reshape_at};
use crate::windows::{lemma_result1, lemma_result2, lemma_same_line};
use vstd::prelude::*;

verus! {

/// The elements of an array whose two middle axes are exchanged.
pub proof fn permuted_at<E>(
    ar: Arithmetic<E>,
    env: spec_fn(Kind) -> Val<E>,
    t: Term,
    s: Seq<int>,
)
    requires
        value(ar, env, t).shape == s,
        s.len() == 4,
    ensures
        ({
            let r = value(ar, env, unary(Kind::Permute(Dims::D4(0, 2, 1, 3)), t));
            &&& r.shape == seq![s[0], s[2], s[1], s[3]]
            &&& r.elem == value(ar, env, t).elem
            &&& forall|i: Seq<int>|
                i.len() == 4 ==> #[trigger] (r.at)(i) == (value(ar, env, t).at)(
                    seq![i[0], i[2], i[1], i[3]],
                )
        }),
{
    let kind = Kind::Permute(Dims::D4(0, 2, 1, 3));
    lemma_value1(ar, env, kind, t);
    lemma_result1(ar, env, kind, value(ar, env, t));
    let d = extents(Dims::D4(0, 2, 1, 3));
    assert(d =~= seq![0int, 2int, 1int, 3int]);
    assert forall|i: int| 0 <= i < 4 implies 0 <= #[trigger] d[i] < 4 by {}
    assert(Seq::new(4, |i: int| s[d[i]]) =~= seq![s[0], s[2], s[1], s[3]]);
    let pick = |k: int| choose|a: int| 0 <= a < 4 && #[trigger] d[a] == k;
    assert(d[0] == 0 && d[2] == 1 && d[1] == 2 && d[3] == 3);
    assert(pick(0) == 0 && pick(1) == 2 && pick(2) == 1 && pick(3) == 3);
    let r = value(ar, env, unary(kind, t));
    assert forall|i: Seq<int>| i.len() == 4 implies #[trigger] (r.at)(i) == (value(ar, env, t).at)(
        seq![i[0], i[2], i[1], i[3]],
    ) by {
        let j = seq![i[0], i[2], i[1], i[3]];
        assert(Seq::new(4, |k: int| i[choose|a: int| 0 <= a < 4 && #[trigger] d[a] == k]) =~= j) by {
            assert forall|k: int| 0 <= k < 4 implies #[trigger] i[pick(k)] == j[k] by {}
        }
    }
}

/// The elements of `[b, s, n * d]` seen as `[b, s, n, d]`.
pub proof fn split_at<E>(
    ar: Arithmetic<E>,
    env: spec_fn(Kind) -> Val<E>,
    t: Term,
    b: i32,
    s: i32,
    n: i32,
    d: i32,
)
    requires
        0 < b,
        0 < s,
        0 < n,
        0 < d,
        value(ar, env, t).shape == seq![b as int, s as int, n * d],
    ensures
        ({
            let r = value(ar, env, unary(Kind::Reshape(Dims::D4(b, s, n, d)), t));
            let to = seq![b as int, s as int, n as int, d as int];
            &&& r.shape == to
            &&& r.elem == value(ar, env, t).elem
            &&& forall|i: Seq<int>| #[trigger]
                in_range(i, to) ==> 0 <= i[2] * d + i[3] < n * d && (r.at)(i) == (value(ar, env, t).at)(
                    seq![i[0], i[1], i[2] * d + i[3]],
                )
        }),
{
    let dims = Dims::D4(b, s, n, d);
    let kind = Kind::Reshape(dims);
    let x = value(ar, env, t);
    let to = seq![b as int, s as int, n as int, d as int];
    lemma_value1(ar, env, kind, t);
    lemma_result1(ar, env, kind, x);
    assert(extents(dims) =~= to);
    lemma_product(b as int, s as int, n * d, 1);
    lemma_product(b as int, s as int, n as int, d as int);
    assert(b * s * n * d == b * s * (n * d)) by (nonlinear_arith);
    lemma_reshaped(x.shape, to);
    let r = value(ar, env, unary(kind, t));
    assert forall|i: Seq<int>| #[trigger] in_range(i, to) implies 0 <= i[2] * d + i[3] < n * d && (
    r.at)(i) == (x.at)(seq![i[0], i[1], i[2] * d + i[3]]) by {
        let j = seq![i[0], i[1], i[2] * d + i[3]];
        assert(0 <= i[0] < to[0] && 0 <= i[1] < to[1] && 0 <= i[2] < to[2] && 0 <= i[3] < to[3]);
        lemma_grouped(i[0] * s + i[1], n as int, d as int, i[2], i[3]);
        lemma_flat(i, to);
        lemma_flat(j, x.shape);
        assert(in_range(j, x.shape));
        lemma_reshape_at(ar, env, dims, x, to, i, j);
    }
}

/// The elements of `[b, s, n, d]` seen as `[b, s, n * d]`.
pub proof fn join_at<E>(
    ar: Arithmetic<E>,
    env: spec_fn(Kind) -> Val<E>,
    dims: Dims,
    t: Term,
    b: i32,
    s: i32,
    n: i32,
    d: i32,
)
    requires
        0 < b,
        0 < s,
        0 < n,
        0 < d,
        value(ar, env, t).shape == seq![b as int, s as int, n as int, d as int],
        reshaped(seq![b as int, s as int, n as int, d as int], extents(dims)) == Some(
            seq![b as int, s as int, n * d],
        ),
    ensures
        ({
            let r = value(ar, env, unary(Kind::Reshape(dims), t));
            let to = seq![b as int, s as int, n * d];
            &&& r.shape == to
            &&& r.elem == value(ar, env, t).elem
            &&& forall|i: Seq<int>| #[trigger]
                in_range(i, to) ==> 0 <= i[2] / d as int && i[2] / d as int <= n - 1 && 0 <= i[2]
                    % d as int && i[2] % d as int <= d - 1 && (r.at)(i) == (value(ar, env, t).at)(
                    seq![i[0], i[1], i[2] / d as int, i[2] % d as int],
                )
        }),
{
    let kind = Kind::Reshape(dims);
    let x = value(ar, env, t);
    let to = seq![b as int, s as int, n * d];
    lemma_value1(ar, env, kind, t);
    lemma_result1(ar, env, kind, x);
    let r = value(ar, env, unary(kind, t));
    assert forall|i: Seq<int>| #[trigger] in_range(i, to) implies 0 <= i[2] / d as int && i[2]
        / d as int <= n - 1 && 0 <= i[2] % d as int && i[2] % d as int <= d - 1 && (r.at)(i) == (
    x.at)(seq![i[0], i[1], i[2] / d as int, i[2] % d as int]) by {
        let j = seq![i[0], i[1], i[2] / d as int, i[2] % d as int];
        assert(0 <= i[0] < to[0] && 0 <= i[1] < to[1] && 0 <= i[2] < to[2]);
        lemma_ungrouped(i[0] * s + i[1], n as int, d as int, i[2]);
        lemma_flat(i, to);
        lemma_flat(j, x.shape);
        assert(in_range(j, x.shape));
        lemma_reshape_at(ar, env, dims, x, to, i, j);
    }
}

/// `[b, s, n * d]` as `[b, n, s, d]`.
pub proof fn like_split_heads<E>(
    p: Pair<E>,
    t: Term,
    b: i32,
    s: i32,
    n: i32,
    d: i32,
    l: Link,
)
    requires
        0 < b,
        0 < s,
        0 < n,
        0 < d,
        is_like(p, t, seq![b as int, s as int, n * d], 1, l),
    ensures
        is_like(
            p,
            unary(
                Kind::Permute(Dims::D4(0, 2, 1, 3)),
                unary(Kind::Reshape(Dims::D4(b, s, n, d)), t),
            ),
            seq![b as int, n as int, s as int, d as int],
            2,
            l,
        ),
{
    reveal(is_like);
    let f = unary(Kind::Reshape(Dims::D4(b, s, n, d)), t);
    let mid = seq![b as int, s as int, n as int, d as int];
    let from = seq![b as int, s as int, n * d];
    split_at(p.ar, p.e1, t, b, s, n, d);
    split_at(p.ar, p.e2, t, b, s, n, d);
    permuted_at(p.ar, p.e1, f, mid);
    permuted_at(p.ar, p.e2, f, mid);
    let g = unary(Kind::Permute(Dims::D4(0, 2, 1, 3)), f);
    let to = seq![b as int, n as int, s as int, d as int];
    assert(from[1] == s && to[2] == s);
    assert forall|i: Seq<int>| #[trigger] in_range(i, to) && (l.keep)(i[0], i[2]) implies (first(
        p,
        g,
    ).at)(moved(i, 2, l)) == (second(p, g).at)(i) by {
        assert(0 <= i[0] < to[0] && 0 <= i[1] < to[1] && 0 <= i[2] < to[2] && 0 <= i[3] < to[3]);
        let q = (l.to)(i[2]);
        assert(0 <= q < from[1]);
        let j = seq![i[0], i[2], i[1], i[3]];
        let k = seq![i[0], q, i[1], i[3]];
        let m = moved(i, 2, l);
        assert(seq![m[0], m[2], m[1], m[3]] =~= k);
        assert(in_range(j, mid));
        assert(in_range(k, mid));
        let jj = seq![j[0], j[1], j[2] * d + j[3]];
        let kk = seq![k[0], k[1], k[2] * d + k[3]];
        assert(in_range(jj, from));
        assert(kk =~= moved(jj, 1, l));
    }
    assert forall|q: int| 0 <= q < to[2] implies 0 <= #[trigger] (l.to)(q) < to[2] by {
        assert(0 <= q < from[1]);
    }
    assert forall|a: int| 0 <= a < to.len() implies 0 <= #[trigger] to[a] by {}
}

/// `[b, n, s, d]` as `[b, s, n * d]`.
pub proof fn like_join_heads<E>(
    p: Pair<E>,
    dims: Dims,
    t: Term,
    b: i32,
    s: i32,
    n: i32,
    d: i32,
    l: Link,
)
    requires
        0 < b,
        0 < s,
        0 < n,
        0 < d,
        is_like(p, t, seq![b as int, n as int, s as int, d as int], 2, l),
        reshaped(seq![b as int, s as int, n as int, d as int], extents(dims)) == Some(
            seq![b as int, s as int, n * d],
        ),
    ensures
        is_like(
            p,
            unary(Kind::Reshape(dims), unary(Kind::Permute(Dims::D4(0, 2, 1, 3)), t)),
            seq![b as int, s as int, n * d],
            1,
            l,
        ),
{
    reveal(is_like);
    let f = unary(Kind::Permute(Dims::D4(0, 2, 1, 3)), t);
    let from = seq![b as int, n as int, s as int, d as int];
    let mid = seq![b as int, s as int, n as int, d as int];
    let to = seq![b as int, s as int, n * d];
    permuted_at(p.ar, p.e1, t, from);
    permuted_at(p.ar, p.e2, t, from);
    join_at(p.ar, p.e1, dims, f, b, s, n, d);
    join_at(p.ar, p.e2, dims, f, b, s, n, d);
    let g = unary(Kind::Reshape(dims), f);
    assert(from[2] == s && to[1] == s);
    assert forall|i: Seq<int>| #[trigger] in_range(i, to) && (l.keep)(i[0], i[1]) implies (first(
        p,
        g,
    ).at)(moved(i, 1, l)) == (second(p, g).at)(i) by {
        assert(0 <= i[0] < to[0] && 0 <= i[1] < to[1] && 0 <= i[2] < to[2]);
        let q = (l.to)(i[1]);
        assert(0 <= q < from[2]);
        let m = moved(i, 1, l);
        assert(in_range(m, to));
        let (h, c) = (i[2] / d as int, i[2] % d as int);
        let jj = seq![i[0], h, i[1], c];
        assert(in_range(jj, from));
        assert(seq![m[0], h, m[1], c] =~= moved(jj, 2, l));
    }
    assert forall|q: int| 0 <= q < to[1] implies 0 <= #[trigger] (l.to)(q) < to[1] by {
        assert(0 <= q < from[2]);
    }
    assert(0 <= n * d) by (nonlinear_arith)
        requires
            0 < n,
            0 < d,
    ;
    assert forall|a: int| 0 <= a < to.len() implies 0 <= #[trigger] to[a] by {}
}

/// The elements of a rotation of every head, its rows laid end to end for the call.
pub proof fn turned_at<E>(
    ar: Arithmetic<E>,
    env: spec_fn(Kind) -> Val<E>,
    t: Term,
    freqs: Term,
    b: i32,
    n: i32,
    s: i32,
    d: i32,
)
    requires
        0 < b,
        0 < n,
        0 < s,
        0 < d,
        d as int % 2 == 0,
        value(ar, env, t).shape == seq![b as int, n as int, s as int, d as int],
        value(ar, env, freqs).shape == seq![d as int / 2],
    ensures
        ({
            let f = unary(Kind::Reshape(Dims::D3(REST, s, d)), t);
            let r = value(
                ar,
                env,
                unary(Kind::Reshape(Dims::D4(b, n, s, d)), binary(turn(d), f, freqs)),
            );
            let x = value(ar, env, t);
            &&& r.shape == x.shape
            &&& r.elem == x.elem
            &&& forall|i: Seq<int>| #[trigger]
                in_range(i, x.shape) ==> (r.at)(i) == (ar.rope)(
                    turn(d)->FastRope_0,
                    i[2],
                    line(x, 3, i),
                    line(value(ar, env, freqs), 0, seq![0]),
                    i[3],
                )
        }),
{
    let x = value(ar, env, t);
    let full = seq![b as int, n as int, s as int, d as int];
    let flat = seq![b * n, s as int, d as int];
    let open = seq![-1int, s as int, d as int];
    let (k1, k2) = (Kind::Reshape(Dims::D3(REST, s, d)), Kind::Reshape(Dims::D4(b, n, s, d)));
    let f = unary(k1, t);
    let g = binary(turn(d), f, freqs);
    let r = value(ar, env, unary(k2, g));
    lemma_value1(ar, env, k1, t);
    lemma_value2(ar, env, turn(d), f, freqs);
    lemma_value1(ar, env, k2, g);
    lemma_result1(ar, env, k1, x);
    assert(extents(Dims::D3(REST, s, d)) =~= open);
    assert(extents(Dims::D4(b, n, s, d)) =~= full);
    lemma_product(b as int, n as int, s as int, d as int);
    lemma_product(b * n, s as int, d as int, 1);
    lemma_product(1, s as int, d as int, 1);
    assert(known_extents(open) =~= seq![1int, s as int, d as int]);
    assert(b * n * s * d == (1 * s * d) * (b * n)) by (nonlinear_arith);
    assert(1 * s * d > 0) by (nonlinear_arith)
        requires
            0 < s,
            0 < d,
    ;
    assert(0 <= b * n) by (nonlinear_arith)
        requires
            0 < b,
            0 < n,
    ;
    lemma_reshaped_rest(full, open, 0, b * n);
    assert(open.update(0, b * n) =~= flat);
    let xf = value(ar, env, f);
    lemma_result2(ar, env, turn(d), xf, value(ar, env, freqs));
    let xg = value(ar, env, g);
    assert(xg.shape == flat);
    lemma_result1(ar, env, k2, xg);
    lemma_reshaped(flat, full);
    assert forall|i: Seq<int>| #[trigger] in_range(i, full) implies (r.at)(i) == (ar.rope)(
        turn(d)->FastRope_0,
        i[2],
        line(x, 3, i),
        line(value(ar, env, freqs), 0, seq![0]),
        i[3],
    ) by {
        assert(0 <= i[0] < full[0] && 0 <= i[1] < full[1] && 0 <= i[2] < full[2] && 0 <= i[3]
            < full[3]);
        let a = i[0] * n + i[1];
        let j = seq![a, i[2], i[3]];
        lemma_grouped(0, b as int, n as int, i[0], i[1]);
        assert(in_range(j, flat));
        lemma_flat(i, full);
        lemma_flat(j, flat);
        lemma_reshape_at(ar, env, Dims::D4(b, n, s, d), xg, full, i, j);
        assert forall|c: int| 0 <= c < d implies (xf.at)(#[trigger] j.update(2, c)) == (x.at)(
            i.update(3, c),
        ) by {
            let (jc, ic) = (j.update(2, c), i.update(3, c));
            assert(in_range(ic, full));
            lemma_flat(ic, full);
            lemma_flat(jc, flat);
            lemma_reshape_at(ar, env, Dims::D3(REST, s, d), x, flat, jc, ic);
        }
        assert(line(xf, 2, j) =~= line(x, 3, i));
    }
}

/// A rotation of every head, its rows laid end to end for the call.
pub proof fn like_turned<E>(
    p: Pair<E>,
    t: Term,
    freqs: Term,
    b: i32,
    n: i32,
    s: i32,
    d: i32,
    l: Link,
)
    requires
        0 < b,
        0 < n,
        0 < s,
        0 < d,
        d as int % 2 == 0,
        stays(l),
        is_like(p, t, seq![b as int, n as int, s as int, d as int], 2, l),
        is_shared(p, freqs, freqs, seq![d as int / 2]),
    ensures
        is_like(
            p,
            unary(
                Kind::Reshape(Dims::D4(b, n, s, d)),
                binary(turn(d), unary(Kind::Reshape(Dims::D3(REST, s, d)), t), freqs),
            ),
            seq![b as int, n as int, s as int, d as int],
            2,
            l,
        ),
{
    reveal(is_like);
    reveal(is_shared);
    turned_at(p.ar, p.e1, t, freqs, b, n, s, d);
    turned_at(p.ar, p.e2, t, freqs, b, n, s, d);
    let (x, y) = (first(p, t), second(p, t));
    lemma_same_line(first(p, freqs), second(p, freqs), 0, seq![0]);
    let full = seq![b as int, n as int, s as int, d as int];
    assert forall|i: Seq<int>| #[trigger] in_range(i, full) && (l.keep)(i[0], i[2]) implies moved(
        i,
        2,
        l,
    ) == i && line(x, 3, i) == line(y, 3, i) by {
        assert(moved(i, 2, l) =~= i);
        lemma_line_at_place(x, y, l, i);
    }
}

/// The elements of a kept position's head.
pub proof fn lemma_line_at_place<E>(x: Val<E>, y: Val<E>, l: Link, i: Seq<int>)
    requires
        is_linked(x, y, 2, l),
        y.shape.len() == 4,
        i.len() == 4,
        forall|a: int| 0 <= a < 3 ==> 0 <= #[trigger] i[a] < y.shape[a],
        stays(l),
        (l.keep)(i[0], i[2]),
    ensures
        line(x, 3, i) == line(y, 3, i),
{
    assert forall|c: int| 0 <= c < y.shape[3] implies (x.at)(#[trigger] i.update(3, c)) == (y.at)(
        i.update(3, c),
    ) by {
        let j = i.update(3, c);
        assert forall|a: int| 0 <= a < 4 implies 0 <= #[trigger] j[a] < y.shape[a] by {
            if a < 3 {
                assert(0 <= i[a] < y.shape[a]);
            }
        }
        assert(in_range(j, y.shape));
        assert(moved(j, 2, l) =~= j);
    }
    assert(line(x, 3, i) =~= line(y, 3, i));
}

/// The elements of the embeddings of rows of tokens.
pub proof fn embedded_at<E>(
    ar: Arithmetic<E>,
    env: spec_fn(Kind) -> Val<E>,
    ids: Term,
    table: Term,
    vocab: int,
    b: i32,
    s: i32,
    h: i32,
)
    requires
        0 < b,
        0 < s,
        0 < h,
        value(ar, env, ids).shape == seq![b as int, s as int],
        value(ar, env, table).shape == seq![vocab, h as int],
    ensures
        ({
            let take = Kind::Take { axis: 0 };
            let flat = unary(Kind::Reshape(Dims::D1(REST)), ids);
            let r = value(
                ar,
                env,
                unary(Kind::Reshape(Dims::D3(b, s, h)), binary(take, table, flat)),
            );
            let to = seq![b as int, s as int, h as int];
            &&& r.shape == to
            &&& r.elem == value(ar, env, table).elem
            &&& forall|i: Seq<int>| #[trigger]
                in_range(i, to) ==> (r.at)(i) == (value(ar, env, table).at)(
                    seq![(ar.index)((value(ar, env, ids).at)(seq![i[0], i[1]])), i[2]],
                )
        }),
{
    let (x, w) = (value(ar, env, ids), value(ar, env, table));
    let take = Kind::Take { axis: 0 };
    let (k1, k2) = (Kind::Reshape(Dims::D1(REST)), Kind::Reshape(Dims::D3(b, s, h)));
    let f = unary(k1, ids);
    let g = binary(take, table, f);
    let r = value(ar, env, unary(k2, g));
    lemma_value1(ar, env, k1, ids);
    lemma_value2(ar, env, take, table, f);
    lemma_value1(ar, env, k2, g);
    lemma_result1(ar, env, k1, x);
    let (from, open, flat) = (seq![b as int, s as int], seq![-1int], seq![b * s]);
    assert(extents(Dims::D1(REST)) =~= open);
    assert(known_extents(open) =~= seq![1int]);
    lemma_product(1, 1, 1, 1);
    lemma_product(b as int, s as int, 1, 1);
    lemma_reshaped_rest(from, open, 0, b * s);
    assert(open.update(0, b * s) =~= flat);
    let xf = value(ar, env, f);
    lemma_result2(ar, env, take, w, xf);
    let rows = seq![b * s, h as int];
    assert(w.shape.take(0) + xf.shape + w.shape.skip(1) =~= rows);
    let xg = value(ar, env, g);
    assert(xg.shape == rows);
    lemma_result1(ar, env, k2, xg);
    let to = seq![b as int, s as int, h as int];
    assert(extents(Dims::D3(b, s, h)) =~= to);
    lemma_product(b * s, h as int, 1, 1);
    lemma_product(b as int, s as int, h as int, 1);
    lemma_reshaped(rows, to);
    assert forall|i: Seq<int>| #[trigger] in_range(i, to) implies (r.at)(i) == (w.at)(
        seq![(ar.index)((x.at)(seq![i[0], i[1]])), i[2]],
    ) by {
        assert(0 <= i[0] < to[0] && 0 <= i[1] < to[1] && 0 <= i[2] < to[2]);
        lemma_grouped(0, b as int, s as int, i[0], i[1]);
        let a = i[0] * s + i[1];
        let j = seq![a, i[2]];
        assert(in_range(j, rows));
        lemma_flat(i, to);
        lemma_flat(j, rows);
        lemma_reshape_at(ar, env, Dims::D3(b, s, h), xg, to, i, j);
        assert(j.subrange(0, 1) =~= seq![a]);
        let o = seq![i[0], i[1]];
        assert(in_range(o, from));
        lemma_flat(o, from);
        lemma_flat(seq![a], flat);
        lemma_reshape_at(ar, env, Dims::D1(REST), x, flat, seq![a], o);
        assert(j.take(0).push((ar.index)((xf.at)(seq![a]))) + j.skip(1) =~= seq![
            (ar.index)((x.at)(o)),
            i[2],
        ]);
    }
}

/// The embeddings of rows of tokens, from a shared table.
pub proof fn like_embedded<E>(
    p: Pair<E>,
    ids: Term,
    table: Term,
    vocab: int,
    b: i32,
    s: i32,
    h: i32,
    l: Link,
)
    requires
        0 < b,
        0 < s,
        0 < h,
        is_like(p, ids, seq![b as int, s as int], 1, l),
        is_shared(p, table, table, seq![vocab, h as int]),
    ensures
        is_like(
            p,
            unary(
                Kind::Reshape(Dims::D3(b, s, h)),
                binary(
                    Kind::Take { axis: 0 },
                    table,
                    unary(Kind::Reshape(Dims::D1(REST)), ids),
                ),
            ),
            seq![b as int, s as int, h as int],
            1,
            l,
        ),
{
    reveal(is_like);
    reveal(is_shared);
    embedded_at(p.ar, p.e1, ids, table, vocab, b, s, h);
    embedded_at(p.ar, p.e2, ids, table, vocab, b, s, h);
    let (from, to) = (seq![b as int, s as int], seq![b as int, s as int, h as int]);
    let (x, y) = (first(p, ids), second(p, ids));
    assert(from[1] == s && to[1] == s);
    assert forall|i: Seq<int>| #[trigger] in_range(i, to) && (l.keep)(i[0], i[1]) implies (x.at)(
        seq![moved(i, 1, l)[0], moved(i, 1, l)[1]],
    ) == (y.at)(seq![i[0], i[1]]) && in_range(moved(i, 1, l), to) by {
        assert(0 <= i[0] < to[0] && 0 <= i[1] < to[1] && 0 <= i[2] < to[2]);
        let o = seq![i[0], i[1]];
        assert(0 <= (l.to)(i[1]) < from[1]);
        assert(in_range(o, from));
        assert(seq![moved(i, 1, l)[0], moved(i, 1, l)[1]] =~= moved(o, 1, l));
    }
    assert forall|q: int| 0 <= q < to[1] implies 0 <= #[trigger] (l.to)(q) < to[1] by {
        assert(0 <= q < from[1]);
    }
    assert forall|a: int| 0 <= a < to.len() implies 0 <= #[trigger] to[a] by {}
}

} // verus!
