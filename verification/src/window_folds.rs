//! Windows under the reshapes of the two models.

use crate::graph::{Dims, Kind, REST};
use crate::meaning::{flat, in_range, result, Arithmetic, Val};
use crate::shapes::{extents, known_extents, lemma_product, lemma_reshaped, lemma_reshaped_rest};
use crate::shapes::reshaped;
use crate::window_moves::{lemma_flat, window_reshape};
use crate::windows::{is_window, lies_in, shifted};
use vstd::prelude::*;

verus! {

/// Grouped places count the same as places in a row.
pub proof fn lemma_grouped(q: int, n: int, c: int, i: int, j: int)
    requires
        0 <= i < n,
        0 <= j < c,
    ensures
        (q * n + i) * c + j == q * (n * c) + (i * c + j),
        0 <= i * c + j < n * c,
{
    assert((q * n + i) * c + j == q * (n * c) + (i * c + j)) by (nonlinear_arith);
    assert(0 <= i * c + j < n * c) by (nonlinear_arith)
        requires
            0 <= i < n,
            0 <= j < c,
    ;
}

/// The other way round.
pub proof fn lemma_ungrouped(q: int, n: int, c: int, k: int)
    requires
        0 <= k < n * c,
        c > 0,
    ensures
        0 <= k / c < n,
        0 <= k % c < c,
        (q * n + k / c) * c + k % c == q * (n * c) + k,
{
    assert(0 <= k / c < n && 0 <= k % c < c && k == c * (k / c) + k % c) by (nonlinear_arith)
        requires
            0 <= k < n * c,
            c > 0,
    ;
    lemma_grouped(q, n, c, k / c, k % c);
    assert(c * (k / c) == (k / c) * c) by (nonlinear_arith);
}

/// Room for a row among others.
pub proof fn lemma_room(b: int, s: int, w: int, r: int)
    requires
        0 <= r < b,
        0 <= w <= s,
    ensures
        0 <= r * s,
        r * s + w <= b * s,
        0 <= b * s,
{
    assert(0 <= r * s && r * s + s <= b * s) by (nonlinear_arith)
        requires
            0 <= r < b,
            0 <= s,
    ;
}

/// Rows of tokens laid end to end.
pub proof fn fold_rows<E>(
    ar: Arithmetic<E>,
    e1: spec_fn(Kind) -> Val<E>,
    e2: spec_fn(Kind) -> Val<E>,
    x: Val<E>,
    y: Val<E>,
    b: i32,
    s: i32,
    w: i32,
    r: int,
)
    requires
        0 < b,
        0 < s,
        0 < w,
        w <= s,
        0 <= r < b,
        is_window(x, y, seq![r, 0int]),
        x.shape == seq![b as int, s as int],
        y.shape == seq![1int, w as int],
    ensures
        ({
            let r1 = result(ar, e1, Kind::Reshape(Dims::D1(REST)), seq![x]);
            let r2 = result(ar, e2, Kind::Reshape(Dims::D1(REST)), seq![y]);
            &&& is_window(r1, r2, seq![r * s])
            &&& r1.shape == seq![b * s]
            &&& r2.shape == seq![w as int]
        }),
{
    let (off, new) = (seq![r, 0int], seq![r * s]);
    let (to1, to2) = (seq![b * s], seq![w as int]);
    lemma_room(b as int, s as int, w as int, r);
    lemma_product(b as int, s as int, 1, 1);
    lemma_product(1, w as int, 1, 1);
    lemma_product(1, 1, 1, 1);
    let open = seq![-1int];
    assert(extents(Dims::D1(REST)) =~= open);
    assert(known_extents(open) =~= seq![1int]);
    lemma_reshaped_rest(x.shape, open, 0, b * s);
    lemma_reshaped_rest(y.shape, open, 0, w as int);
    assert(open.update(0, b * s) =~= to1);
    assert(open.update(0, w as int) =~= to2);
    let find = |i: Seq<int>| seq![0int, i[0]];
    assert forall|i: Seq<int>| #[trigger] in_range(i, to2) implies {
        &&& in_range(find(i), y.shape)
        &&& flat(find(i), y.shape) == flat(i, to2)
        &&& flat(shifted(find(i), off), x.shape) == flat(shifted(i, new), to1)
    } by {
        let (j, k) = (find(i), shifted(i, new));
        assert(0 <= i[0] < to2[0]);
        let l = shifted(j, off);
        assert(l[0] == r);
        assert(l[0] * s == r * s);
        assert(j[0] * w == 0);
        lemma_flat(j, y.shape);
        lemma_flat(i, to2);
        lemma_flat(l, x.shape);
        lemma_flat(k, to1);
    }
    assert(lies_in(to2, to1, new));
    window_reshape(ar, e1, e2, Dims::D1(REST), Dims::D1(REST), x, y, off, to1, to2, new, find);
}

/// Tokens laid end to end, back in rows.
pub proof fn unfold_rows<E>(
    ar: Arithmetic<E>,
    e1: spec_fn(Kind) -> Val<E>,
    e2: spec_fn(Kind) -> Val<E>,
    x: Val<E>,
    y: Val<E>,
    b: i32,
    s: i32,
    w: i32,
    h: i32,
    r: int,
)
    requires
        0 < b,
        0 < s,
        0 < w,
        0 < h,
        w <= s,
        0 <= r < b,
        is_window(x, y, seq![r * s, 0int]),
        x.shape == seq![b * s, h as int],
        y.shape == seq![w as int, h as int],
    ensures
        ({
            let r1 = result(ar, e1, Kind::Reshape(Dims::D3(b, s, h)), seq![x]);
            let r2 = result(ar, e2, Kind::Reshape(Dims::D3(1, w, h)), seq![y]);
            &&& is_window(r1, r2, seq![r, 0int, 0int])
            &&& r1.shape == seq![b as int, s as int, h as int]
            &&& r2.shape == seq![1int, w as int, h as int]
        }),
{
    let (off, new) = (seq![r * s, 0int], seq![r, 0int, 0int]);
    let (to1, to2) = (seq![b as int, s as int, h as int], seq![1int, w as int, h as int]);
    lemma_room(b as int, s as int, w as int, r);
    lemma_product(b * s, h as int, 1, 1);
    lemma_product(w as int, h as int, 1, 1);
    lemma_product(b as int, s as int, h as int, 1);
    lemma_product(1, w as int, h as int, 1);
    assert(extents(Dims::D3(b, s, h)) =~= to1);
    assert(extents(Dims::D3(1, w, h)) =~= to2);
    lemma_reshaped(x.shape, to1);
    lemma_reshaped(y.shape, to2);
    let find = |i: Seq<int>| seq![i[1], i[2]];
    assert forall|i: Seq<int>| #[trigger] in_range(i, to2) implies {
        &&& in_range(find(i), y.shape)
        &&& flat(find(i), y.shape) == flat(i, to2)
        &&& flat(shifted(find(i), off), x.shape) == flat(shifted(i, new), to1)
    } by {
        let (j, k) = (find(i), shifted(i, new));
        assert(0 <= i[0] < to2[0] && 0 <= i[1] < to2[1] && 0 <= i[2] < to2[2]);
        let l = shifted(j, off);
        assert(k[0] == r && k[0] * s + k[1] == l[0]);
        assert(i[0] == 0 && i[0] * w + i[1] == j[0]);
        lemma_flat(j, y.shape);
        lemma_flat(i, to2);
        lemma_flat(l, x.shape);
        lemma_flat(k, to1);
    }
    assert(lies_in(to2, to1, new));
    window_reshape(ar, e1, e2, Dims::D3(b, s, h), Dims::D3(1, w, h), x, y, off, to1, to2, new, find);
}

/// One number for each key of each row.
pub proof fn fold_keys<E>(
    ar: Arithmetic<E>,
    e1: spec_fn(Kind) -> Val<E>,
    e2: spec_fn(Kind) -> Val<E>,
    x: Val<E>,
    y: Val<E>,
    b: i32,
    s: i32,
    w: i32,
    r: int,
)
    requires
        0 < b,
        0 < s,
        0 < w,
        w <= s,
        0 <= r < b,
        is_window(x, y, seq![r, 0int]),
        x.shape == seq![b as int, s as int],
        y.shape == seq![1int, w as int],
    ensures
        ({
            let r1 = result(ar, e1, Kind::Reshape(Dims::D4(b, 1, 1, s)), seq![x]);
            let r2 = result(ar, e2, Kind::Reshape(Dims::D4(1, 1, 1, w)), seq![y]);
            &&& is_window(r1, r2, seq![r, 0int, 0int, 0int])
            &&& r1.shape == seq![b as int, 1int, 1int, s as int]
            &&& r2.shape == seq![1int, 1int, 1int, w as int]
        }),
{
    let (off, new) = (seq![r, 0int], seq![r, 0int, 0int, 0int]);
    let (to1, to2) = (seq![b as int, 1int, 1int, s as int], seq![1int, 1int, 1int, w as int]);
    lemma_product(b as int, s as int, 1, 1);
    lemma_product(1, w as int, 1, 1);
    lemma_product(b as int, 1, 1, s as int);
    lemma_product(1, 1, 1, w as int);
    assert(b * 1 * 1 * s == b * s) by (nonlinear_arith);
    assert(extents(Dims::D4(b, 1, 1, s)) =~= to1);
    assert(extents(Dims::D4(1, 1, 1, w)) =~= to2);
    lemma_reshaped(x.shape, to1);
    lemma_reshaped(y.shape, to2);
    let find = |i: Seq<int>| seq![0int, i[3]];
    assert forall|i: Seq<int>| #[trigger] in_range(i, to2) implies {
        &&& in_range(find(i), y.shape)
        &&& flat(find(i), y.shape) == flat(i, to2)
        &&& flat(shifted(find(i), off), x.shape) == flat(shifted(i, new), to1)
    } by {
        let (j, k) = (find(i), shifted(i, new));
        assert(0 <= i[0] < to2[0] && 0 <= i[1] < to2[1] && 0 <= i[2] < to2[2] && 0 <= i[3] < to2[3]);
        assert(((r * 1 + 0) * 1 + 0) * s + i[3] == r * s + i[3]) by (nonlinear_arith);
        let l = shifted(j, off);
        lemma_flat(j, y.shape);
        lemma_flat(i, to2);
        lemma_flat(l, x.shape);
        lemma_flat(k, to1);
    }
    assert(lies_in(to2, to1, new));
    window_reshape(ar, e1, e2, Dims::D4(b, 1, 1, s), Dims::D4(1, 1, 1, w), x, y, off, to1, to2, new, find);
}

/// One number for each token, as a column.
pub proof fn fold_column<E>(
    ar: Arithmetic<E>,
    e1: spec_fn(Kind) -> Val<E>,
    e2: spec_fn(Kind) -> Val<E>,
    x: Val<E>,
    y: Val<E>,
    b: i32,
    s: i32,
    w: i32,
    r: int,
)
    requires
        0 < b,
        0 < s,
        0 < w,
        w <= s,
        0 <= r < b,
        is_window(x, y, seq![r, 0int]),
        x.shape == seq![b as int, s as int],
        y.shape == seq![1int, w as int],
    ensures
        ({
            let r1 = result(ar, e1, Kind::Reshape(Dims::D3(b, s, 1)), seq![x]);
            let r2 = result(ar, e2, Kind::Reshape(Dims::D3(1, w, 1)), seq![y]);
            &&& is_window(r1, r2, seq![r, 0int, 0int])
            &&& r1.shape == seq![b as int, s as int, 1int]
            &&& r2.shape == seq![1int, w as int, 1int]
        }),
{
    let (off, new) = (seq![r, 0int], seq![r, 0int, 0int]);
    let (to1, to2) = (seq![b as int, s as int, 1int], seq![1int, w as int, 1int]);
    lemma_product(b as int, s as int, 1, 1);
    lemma_product(1, w as int, 1, 1);
    lemma_product(b as int, s as int, 1, 1);
    lemma_product(1, w as int, 1, 1);
    assert(extents(Dims::D3(b, s, 1)) =~= to1);
    assert(extents(Dims::D3(1, w, 1)) =~= to2);
    lemma_reshaped(x.shape, to1);
    lemma_reshaped(y.shape, to2);
    let find = |i: Seq<int>| seq![0int, i[1]];
    assert forall|i: Seq<int>| #[trigger] in_range(i, to2) implies {
        &&& in_range(find(i), y.shape)
        &&& flat(find(i), y.shape) == flat(i, to2)
        &&& flat(shifted(find(i), off), x.shape) == flat(shifted(i, new), to1)
    } by {
        let (j, k) = (find(i), shifted(i, new));
        assert(0 <= i[0] < to2[0] && 0 <= i[1] < to2[1] && 0 <= i[2] < to2[2]);
        let l = shifted(j, off);
        lemma_flat(j, y.shape);
        lemma_flat(i, to2);
        lemma_flat(l, x.shape);
        lemma_flat(k, to1);
    }
    assert(lies_in(to2, to1, new));
    window_reshape(ar, e1, e2, Dims::D3(b, s, 1), Dims::D3(1, w, 1), x, y, off, to1, to2, new, find);
}

/// The last axis split into heads.
pub proof fn split_last<E>(
    ar: Arithmetic<E>,
    e1: spec_fn(Kind) -> Val<E>,
    e2: spec_fn(Kind) -> Val<E>,
    x: Val<E>,
    y: Val<E>,
    b: i32,
    s: i32,
    w: i32,
    n: i32,
    d: i32,
    r: int,
)
    requires
        0 < b,
        0 < s,
        0 < w,
        0 < n,
        0 < d,
        w <= s,
        0 <= r < b,
        is_window(x, y, seq![r, 0int, 0int]),
        x.shape == seq![b as int, s as int, n * d],
        y.shape == seq![1int, w as int, n * d],
    ensures
        ({
            let r1 = result(ar, e1, Kind::Reshape(Dims::D4(b, s, n, d)), seq![x]);
            let r2 = result(ar, e2, Kind::Reshape(Dims::D4(1, w, n, d)), seq![y]);
            &&& is_window(r1, r2, seq![r, 0int, 0int, 0int])
            &&& r1.shape == seq![b as int, s as int, n as int, d as int]
            &&& r2.shape == seq![1int, w as int, n as int, d as int]
        }),
{
    let (off, new) = (seq![r, 0int, 0int], seq![r, 0int, 0int, 0int]);
    let (to1, to2) = (seq![b as int, s as int, n as int, d as int], seq![1int, w as int, n as int, d as int]);
    lemma_product(b as int, s as int, n * d, 1);
    lemma_product(1, w as int, n * d, 1);
    lemma_product(b as int, s as int, n as int, d as int);
    lemma_product(1, w as int, n as int, d as int);
    assert(b * s * n * d == b * s * (n * d)) by (nonlinear_arith);
    assert(1 * w * n * d == 1 * w * (n * d)) by (nonlinear_arith);
    assert(extents(Dims::D4(b, s, n, d)) =~= to1);
    assert(extents(Dims::D4(1, w, n, d)) =~= to2);
    lemma_reshaped(x.shape, to1);
    lemma_reshaped(y.shape, to2);
    let find = |i: Seq<int>| seq![0int, i[1], i[2] * d + i[3]];
    assert forall|i: Seq<int>| #[trigger] in_range(i, to2) implies {
        &&& in_range(find(i), y.shape)
        &&& flat(find(i), y.shape) == flat(i, to2)
        &&& flat(shifted(find(i), off), x.shape) == flat(shifted(i, new), to1)
    } by {
        let (j, k) = (find(i), shifted(i, new));
        assert(0 <= i[0] < to2[0] && 0 <= i[1] < to2[1] && 0 <= i[2] < to2[2] && 0 <= i[3] < to2[3]);
        lemma_grouped(w * 0 + i[1], n as int, d as int, i[2], i[3]);
        lemma_grouped(r * s + i[1], n as int, d as int, i[2], i[3]);
        let l = shifted(j, off);
        assert(k[0] == r && k[0] * s + k[1] == r * s + i[1]);
        assert(l[0] == r && l[0] * s + l[1] == r * s + i[1]);
        assert(i[0] == 0 && i[0] * w + i[1] == w * 0 + i[1]);
        assert(j[0] * w + j[1] == w * 0 + i[1]);
        lemma_flat(j, y.shape);
        lemma_flat(i, to2);
        lemma_flat(l, x.shape);
        lemma_flat(k, to1);
    }
    assert(lies_in(to2, to1, new));
    window_reshape(ar, e1, e2, Dims::D4(b, s, n, d), Dims::D4(1, w, n, d), x, y, off, to1, to2, new, find);
}

/// Heads side by side again.
pub proof fn join_last<E>(
    ar: Arithmetic<E>,
    e1: spec_fn(Kind) -> Val<E>,
    e2: spec_fn(Kind) -> Val<E>,
    x: Val<E>,
    y: Val<E>,
    d1: Dims,
    d2: Dims,
    b: i32,
    s: i32,
    w: i32,
    n: i32,
    d: i32,
    r: int,
)
    requires
        0 < b,
        0 < s,
        0 < w,
        0 < n,
        0 < d,
        w <= s,
        0 <= r < b,
        is_window(x, y, seq![r, 0int, 0int, 0int]),
        x.shape == seq![b as int, s as int, n as int, d as int],
        y.shape == seq![1int, w as int, n as int, d as int],
        reshaped(x.shape, extents(d1)) == Some(seq![b as int, s as int, n * d]),
        reshaped(y.shape, extents(d2)) == Some(seq![1int, w as int, n * d]),
    ensures
        ({
            let r1 = result(ar, e1, Kind::Reshape(d1), seq![x]);
            let r2 = result(ar, e2, Kind::Reshape(d2), seq![y]);
            &&& is_window(r1, r2, seq![r, 0int, 0int])
            &&& r1.shape == seq![b as int, s as int, n * d]
            &&& r2.shape == seq![1int, w as int, n * d]
        }),
{
    let (off, new) = (seq![r, 0int, 0int, 0int], seq![r, 0int, 0int]);
    let (to1, to2) = (seq![b as int, s as int, n * d], seq![1int, w as int, n * d]);
    lemma_room(n as int, d as int, d as int, 0);
    let find = |i: Seq<int>| seq![0int, i[1], i[2] / d as int, i[2] % d as int];
    assert forall|i: Seq<int>| #[trigger] in_range(i, to2) implies {
        &&& in_range(find(i), y.shape)
        &&& flat(find(i), y.shape) == flat(i, to2)
        &&& flat(shifted(find(i), off), x.shape) == flat(shifted(i, new), to1)
    } by {
        let (j, k) = (find(i), shifted(i, new));
        assert(0 <= i[0] < to2[0] && 0 <= i[1] < to2[1] && 0 <= i[2] < to2[2]);
        lemma_ungrouped(w * 0 + i[1], n as int, d as int, i[2]);
        lemma_ungrouped(r * s + i[1], n as int, d as int, i[2]);
        let l = shifted(j, off);
        assert(k[0] == r && k[0] * s + k[1] == r * s + i[1]);
        assert(l[0] == r && l[0] * s + l[1] == r * s + i[1]);
        assert(i[0] == 0 && i[0] * w + i[1] == w * 0 + i[1]);
        assert(j[0] * w + j[1] == w * 0 + i[1]);
        lemma_flat(j, y.shape);
        lemma_flat(i, to2);
        lemma_flat(l, x.shape);
        lemma_flat(k, to1);
    }
    assert(lies_in(to2, to1, new));
    window_reshape(ar, e1, e2, d1, d2, x, y, off, to1, to2, new, find);
}

/// The heads of all rows on one axis.
pub proof fn fold_heads<E>(
    ar: Arithmetic<E>,
    e1: spec_fn(Kind) -> Val<E>,
    e2: spec_fn(Kind) -> Val<E>,
    x: Val<E>,
    y: Val<E>,
    b: i32,
    n: i32,
    s: i32,
    w: i32,
    d: i32,
    r: int,
)
    requires
        0 < b,
        0 < n,
        0 < s,
        0 < w,
        0 < d,
        w <= s,
        0 <= r < b,
        is_window(x, y, seq![r, 0int, 0int, 0int]),
        x.shape == seq![b as int, n as int, s as int, d as int],
        y.shape == seq![1int, n as int, w as int, d as int],
    ensures
        ({
            let r1 = result(ar, e1, Kind::Reshape(Dims::D3(REST, s, d)), seq![x]);
            let r2 = result(ar, e2, Kind::Reshape(Dims::D3(REST, w, d)), seq![y]);
            &&& is_window(r1, r2, seq![r * n, 0int, 0int])
            &&& r1.shape == seq![b * n, s as int, d as int]
            &&& r2.shape == seq![n as int, w as int, d as int]
        }),
{
    let (off, new) = (seq![r, 0int, 0int, 0int], seq![r * n, 0int, 0int]);
    let (to1, to2) = (seq![b * n, s as int, d as int], seq![n as int, w as int, d as int]);
    lemma_room(b as int, n as int, n as int, r);
    lemma_product(b as int, n as int, s as int, d as int);
    lemma_product(1, n as int, w as int, d as int);
    lemma_product(1, s as int, d as int, 1);
    lemma_product(1, w as int, d as int, 1);
    let (open1, open2) = (seq![-1int, s as int, d as int], seq![-1int, w as int, d as int]);
    assert(extents(Dims::D3(REST, s, d)) =~= open1);
    assert(extents(Dims::D3(REST, w, d)) =~= open2);
    assert(known_extents(open1) =~= seq![1int, s as int, d as int]);
    assert(known_extents(open2) =~= seq![1int, w as int, d as int]);
    assert(b * n * s * d == (1 * s * d) * (b * n)) by (nonlinear_arith);
    assert(1 * n * w * d == (1 * w * d) * n) by (nonlinear_arith);
    assert(1 * s * d > 0 && 1 * w * d > 0) by (nonlinear_arith)
        requires
            0 < s,
            0 < w,
            0 < d,
    ;
    lemma_reshaped_rest(x.shape, open1, 0, b * n);
    lemma_reshaped_rest(y.shape, open2, 0, n as int);
    assert(open1.update(0, b * n) =~= to1);
    assert(open2.update(0, n as int) =~= to2);
    let find = |i: Seq<int>| seq![0int, i[0], i[1], i[2]];
    assert forall|i: Seq<int>| #[trigger] in_range(i, to2) implies {
        &&& in_range(find(i), y.shape)
        &&& flat(find(i), y.shape) == flat(i, to2)
        &&& flat(shifted(find(i), off), x.shape) == flat(shifted(i, new), to1)
    } by {
        let (j, k) = (find(i), shifted(i, new));
        assert(0 <= i[0] < to2[0] && 0 <= i[1] < to2[1] && 0 <= i[2] < to2[2]);
        let l = shifted(j, off);
        assert(l[0] == r && l[0] * n + l[1] == k[0]);
        assert(j[0] * n + j[1] == i[0]);
        lemma_flat(j, y.shape);
        lemma_flat(i, to2);
        lemma_flat(l, x.shape);
        lemma_flat(k, to1);
    }
    assert(lies_in(to2, to1, new));
    window_reshape(ar, e1, e2, Dims::D3(REST, s, d), Dims::D3(REST, w, d), x, y, off, to1, to2, new, find);
}

/// The heads of every row apart again.
pub proof fn unfold_heads<E>(
    ar: Arithmetic<E>,
    e1: spec_fn(Kind) -> Val<E>,
    e2: spec_fn(Kind) -> Val<E>,
    x: Val<E>,
    y: Val<E>,
    b: i32,
    n: i32,
    s: i32,
    w: i32,
    d: i32,
    r: int,
)
    requires
        0 < b,
        0 < n,
        0 < s,
        0 < w,
        0 < d,
        w <= s,
        0 <= r < b,
        is_window(x, y, seq![r * n, 0int, 0int]),
        x.shape == seq![b * n, s as int, d as int],
        y.shape == seq![n as int, w as int, d as int],
    ensures
        ({
            let r1 = result(ar, e1, Kind::Reshape(Dims::D4(b, n, s, d)), seq![x]);
            let r2 = result(ar, e2, Kind::Reshape(Dims::D4(1, n, w, d)), seq![y]);
            &&& is_window(r1, r2, seq![r, 0int, 0int, 0int])
            &&& r1.shape == seq![b as int, n as int, s as int, d as int]
            &&& r2.shape == seq![1int, n as int, w as int, d as int]
        }),
{
    let (off, new) = (seq![r * n, 0int, 0int], seq![r, 0int, 0int, 0int]);
    let (to1, to2) = (seq![b as int, n as int, s as int, d as int], seq![1int, n as int, w as int, d as int]);
    lemma_room(b as int, n as int, n as int, r);
    lemma_product(b * n, s as int, d as int, 1);
    lemma_product(n as int, w as int, d as int, 1);
    lemma_product(b as int, n as int, s as int, d as int);
    lemma_product(1, n as int, w as int, d as int);
    assert(extents(Dims::D4(b, n, s, d)) =~= to1);
    assert(extents(Dims::D4(1, n, w, d)) =~= to2);
    lemma_reshaped(x.shape, to1);
    lemma_reshaped(y.shape, to2);
    let find = |i: Seq<int>| seq![i[1], i[2], i[3]];
    assert forall|i: Seq<int>| #[trigger] in_range(i, to2) implies {
        &&& in_range(find(i), y.shape)
        &&& flat(find(i), y.shape) == flat(i, to2)
        &&& flat(shifted(find(i), off), x.shape) == flat(shifted(i, new), to1)
    } by {
        let (j, k) = (find(i), shifted(i, new));
        assert(0 <= i[0] < to2[0] && 0 <= i[1] < to2[1] && 0 <= i[2] < to2[2] && 0 <= i[3] < to2[3]);
        let l = shifted(j, off);
        assert(k[0] == r && k[0] * n + k[1] == l[0]);
        assert(i[0] == 0 && i[0] * n + i[1] == j[0]);
        lemma_flat(j, y.shape);
        lemma_flat(i, to2);
        lemma_flat(l, x.shape);
        lemma_flat(k, to1);
    }
    assert(lies_in(to2, to1, new));
    window_reshape(ar, e1, e2, Dims::D4(b, n, s, d), Dims::D4(1, n, w, d), x, y, off, to1, to2, new, find);
}

/// A column of one number for each row, as a list.
pub proof fn drop_column<E>(
    ar: Arithmetic<E>,
    e1: spec_fn(Kind) -> Val<E>,
    e2: spec_fn(Kind) -> Val<E>,
    x: Val<E>,
    y: Val<E>,
    b: i32,
    r: int,
)
    requires
        0 < b,
        0 <= r < b,
        is_window(x, y, seq![r, 0int]),
        x.shape == seq![b as int, 1int],
        y.shape == seq![1int, 1int],
    ensures
        ({
            let r1 = result(ar, e1, Kind::Reshape(Dims::D1(b)), seq![x]);
            let r2 = result(ar, e2, Kind::Reshape(Dims::D1(1)), seq![y]);
            &&& is_window(r1, r2, seq![r])
            &&& r1.shape == seq![b as int]
            &&& r2.shape == seq![1int]
        }),
{
    let (off, new) = (seq![r, 0int], seq![r]);
    let (to1, to2) = (seq![b as int], seq![1int]);
    lemma_product(b as int, 1, 1, 1);
    lemma_product(1, 1, 1, 1);
    lemma_product(b as int, 1, 1, 1);
    lemma_product(1, 1, 1, 1);
    assert(extents(Dims::D1(b)) =~= to1);
    assert(extents(Dims::D1(1)) =~= to2);
    lemma_reshaped(x.shape, to1);
    lemma_reshaped(y.shape, to2);
    let find = |i: Seq<int>| seq![0int, 0int];
    assert forall|i: Seq<int>| #[trigger] in_range(i, to2) implies {
        &&& in_range(find(i), y.shape)
        &&& flat(find(i), y.shape) == flat(i, to2)
        &&& flat(shifted(find(i), off), x.shape) == flat(shifted(i, new), to1)
    } by {
        let (j, k) = (find(i), shifted(i, new));
        assert(0 <= i[0] < to2[0]);
        let l = shifted(j, off);
        lemma_flat(j, y.shape);
        lemma_flat(i, to2);
        lemma_flat(l, x.shape);
        lemma_flat(k, to1);
    }
    assert(lies_in(to2, to1, new));
    window_reshape(ar, e1, e2, Dims::D1(b), Dims::D1(1), x, y, off, to1, to2, new, find);
}

/// Marks of tokens in groups, as columns.
pub proof fn fold_chunk_marks<E>(
    ar: Arithmetic<E>,
    e1: spec_fn(Kind) -> Val<E>,
    e2: spec_fn(Kind) -> Val<E>,
    x: Val<E>,
    y: Val<E>,
    b: i32,
    n: i32,
    m: i32,
    c: i32,
    r: int,
)
    requires
        0 < b,
        0 < n,
        0 < m,
        0 < c,
        m <= n,
        0 <= r < b,
        is_window(x, y, seq![r, 0int]),
        x.shape == seq![b as int, n * c],
        y.shape == seq![1int, m * c],
    ensures
        ({
            let r1 = result(ar, e1, Kind::Reshape(Dims::D4(b, n, c, 1)), seq![x]);
            let r2 = result(ar, e2, Kind::Reshape(Dims::D4(1, m, c, 1)), seq![y]);
            &&& is_window(r1, r2, seq![r, 0int, 0int, 0int])
            &&& r1.shape == seq![b as int, n as int, c as int, 1int]
            &&& r2.shape == seq![1int, m as int, c as int, 1int]
        }),
{
    let (off, new) = (seq![r, 0int], seq![r, 0int, 0int, 0int]);
    let (to1, to2) = (seq![b as int, n as int, c as int, 1int], seq![1int, m as int, c as int, 1int]);
    lemma_room(n as int, c as int, c as int, 0);
    lemma_room(m as int, c as int, c as int, 0);
    lemma_product(b as int, n * c, 1, 1);
    lemma_product(1, m * c, 1, 1);
    lemma_product(b as int, n as int, c as int, 1);
    lemma_product(1, m as int, c as int, 1);
    assert(b * n * c * 1 == b * (n * c)) by (nonlinear_arith);
    assert(1 * m * c * 1 == 1 * (m * c)) by (nonlinear_arith);
    assert(extents(Dims::D4(b, n, c, 1)) =~= to1);
    assert(extents(Dims::D4(1, m, c, 1)) =~= to2);
    lemma_reshaped(x.shape, to1);
    lemma_reshaped(y.shape, to2);
    let find = |i: Seq<int>| seq![0int, i[1] * c + i[2]];
    assert forall|i: Seq<int>| #[trigger] in_range(i, to2) implies {
        &&& in_range(find(i), y.shape)
        &&& flat(find(i), y.shape) == flat(i, to2)
        &&& flat(shifted(find(i), off), x.shape) == flat(shifted(i, new), to1)
    } by {
        let (j, k) = (find(i), shifted(i, new));
        assert(0 <= i[0] < to2[0] && 0 <= i[1] < to2[1] && 0 <= i[2] < to2[2] && 0 <= i[3] < to2[3]);
        lemma_grouped(0, m as int, c as int, i[1], i[2]);
        lemma_grouped(r, n as int, c as int, i[1], i[2]);
        let l = shifted(j, off);
        lemma_flat(j, y.shape);
        lemma_flat(i, to2);
        lemma_flat(l, x.shape);
        lemma_flat(k, to1);
    }
    assert(lies_in(to2, to1, new));
    window_reshape(ar, e1, e2, Dims::D4(b, n, c, 1), Dims::D4(1, m, c, 1), x, y, off, to1, to2, new, find);
}

/// Marks of grouped tokens, no longer as columns.
pub proof fn drop_marks_column<E>(
    ar: Arithmetic<E>,
    e1: spec_fn(Kind) -> Val<E>,
    e2: spec_fn(Kind) -> Val<E>,
    x: Val<E>,
    y: Val<E>,
    b: i32,
    n: i32,
    m: i32,
    c: i32,
    r: int,
)
    requires
        0 < b,
        0 < n,
        0 < m,
        0 < c,
        m <= n,
        0 <= r < b,
        is_window(x, y, seq![r, 0int, 0int, 0int]),
        x.shape == seq![b as int, n as int, c as int, 1int],
        y.shape == seq![1int, m as int, c as int, 1int],
    ensures
        ({
            let r1 = result(ar, e1, Kind::Reshape(Dims::D3(b, n, c)), seq![x]);
            let r2 = result(ar, e2, Kind::Reshape(Dims::D3(1, m, c)), seq![y]);
            &&& is_window(r1, r2, seq![r, 0int, 0int])
            &&& r1.shape == seq![b as int, n as int, c as int]
            &&& r2.shape == seq![1int, m as int, c as int]
        }),
{
    let (off, new) = (seq![r, 0int, 0int, 0int], seq![r, 0int, 0int]);
    let (to1, to2) = (seq![b as int, n as int, c as int], seq![1int, m as int, c as int]);
    lemma_product(b as int, n as int, c as int, 1);
    lemma_product(1, m as int, c as int, 1);
    lemma_product(b as int, n as int, c as int, 1);
    lemma_product(1, m as int, c as int, 1);
    assert(extents(Dims::D3(b, n, c)) =~= to1);
    assert(extents(Dims::D3(1, m, c)) =~= to2);
    lemma_reshaped(x.shape, to1);
    lemma_reshaped(y.shape, to2);
    let find = |i: Seq<int>| seq![0int, i[1], i[2], 0int];
    assert forall|i: Seq<int>| #[trigger] in_range(i, to2) implies {
        &&& in_range(find(i), y.shape)
        &&& flat(find(i), y.shape) == flat(i, to2)
        &&& flat(shifted(find(i), off), x.shape) == flat(shifted(i, new), to1)
    } by {
        let (j, k) = (find(i), shifted(i, new));
        assert(0 <= i[0] < to2[0] && 0 <= i[1] < to2[1] && 0 <= i[2] < to2[2]);
        let l = shifted(j, off);
        lemma_flat(j, y.shape);
        lemma_flat(i, to2);
        lemma_flat(l, x.shape);
        lemma_flat(k, to1);
    }
    assert(lies_in(to2, to1, new));
    window_reshape(ar, e1, e2, Dims::D3(b, n, c), Dims::D3(1, m, c), x, y, off, to1, to2, new, find);
}

/// Positions as a column.
pub proof fn fold_positions<E>(
    ar: Arithmetic<E>,
    e1: spec_fn(Kind) -> Val<E>,
    e2: spec_fn(Kind) -> Val<E>,
    x: Val<E>,
    y: Val<E>,
    s: i32,
    w: i32,
)
    requires
        0 < s,
        0 < w,
        w <= s,
        is_window(x, y, seq![0int]),
        x.shape == seq![s as int],
        y.shape == seq![w as int],
    ensures
        ({
            let r1 = result(ar, e1, Kind::Reshape(Dims::D2(s, 1)), seq![x]);
            let r2 = result(ar, e2, Kind::Reshape(Dims::D2(w, 1)), seq![y]);
            &&& is_window(r1, r2, seq![0int, 0int])
            &&& r1.shape == seq![s as int, 1int]
            &&& r2.shape == seq![w as int, 1int]
        }),
{
    let (off, new) = (seq![0int], seq![0int, 0int]);
    let (to1, to2) = (seq![s as int, 1int], seq![w as int, 1int]);
    lemma_product(s as int, 1, 1, 1);
    lemma_product(w as int, 1, 1, 1);
    lemma_product(s as int, 1, 1, 1);
    lemma_product(w as int, 1, 1, 1);
    assert(extents(Dims::D2(s, 1)) =~= to1);
    assert(extents(Dims::D2(w, 1)) =~= to2);
    lemma_reshaped(x.shape, to1);
    lemma_reshaped(y.shape, to2);
    let find = |i: Seq<int>| seq![i[0]];
    assert forall|i: Seq<int>| #[trigger] in_range(i, to2) implies {
        &&& in_range(find(i), y.shape)
        &&& flat(find(i), y.shape) == flat(i, to2)
        &&& flat(shifted(find(i), off), x.shape) == flat(shifted(i, new), to1)
    } by {
        let (j, k) = (find(i), shifted(i, new));
        assert(0 <= i[0] < to2[0] && 0 <= i[1] < to2[1]);
        let l = shifted(j, off);
        lemma_flat(j, y.shape);
        lemma_flat(i, to2);
        lemma_flat(l, x.shape);
        lemma_flat(k, to1);
    }
    assert(lies_in(to2, to1, new));
    window_reshape(ar, e1, e2, Dims::D2(s, 1), Dims::D2(w, 1), x, y, off, to1, to2, new, find);
}

/// A table of one row for each position, for all rows and heads.
pub proof fn fold_table<E>(
    ar: Arithmetic<E>,
    e1: spec_fn(Kind) -> Val<E>,
    e2: spec_fn(Kind) -> Val<E>,
    x: Val<E>,
    y: Val<E>,
    d1: Dims,
    d2: Dims,
    s: i32,
    w: i32,
    d: i32,
)
    requires
        0 < s,
        0 < w,
        0 < d,
        w <= s,
        is_window(x, y, seq![0int, 0int]),
        x.shape == seq![s as int, d as int],
        y.shape == seq![w as int, d as int],
        reshaped(x.shape, extents(d1)) == Some(seq![1int, 1int, s as int, d as int]),
        reshaped(y.shape, extents(d2)) == Some(seq![1int, 1int, w as int, d as int]),
    ensures
        ({
            let r1 = result(ar, e1, Kind::Reshape(d1), seq![x]);
            let r2 = result(ar, e2, Kind::Reshape(d2), seq![y]);
            &&& is_window(r1, r2, seq![0int, 0int, 0int, 0int])
            &&& r1.shape == seq![1int, 1int, s as int, d as int]
            &&& r2.shape == seq![1int, 1int, w as int, d as int]
        }),
{
    let (off, new) = (seq![0int, 0int], seq![0int, 0int, 0int, 0int]);
    let (to1, to2) = (seq![1int, 1int, s as int, d as int], seq![1int, 1int, w as int, d as int]);
    let find = |i: Seq<int>| seq![i[2], i[3]];
    assert forall|i: Seq<int>| #[trigger] in_range(i, to2) implies {
        &&& in_range(find(i), y.shape)
        &&& flat(find(i), y.shape) == flat(i, to2)
        &&& flat(shifted(find(i), off), x.shape) == flat(shifted(i, new), to1)
    } by {
        let (j, k) = (find(i), shifted(i, new));
        assert(0 <= i[0] < to2[0] && 0 <= i[1] < to2[1] && 0 <= i[2] < to2[2] && 0 <= i[3] < to2[3]);
        let l = shifted(j, off);
        assert(i[0] == 0 && i[1] == 0 && k[0] == 0 && k[1] == 0);
        lemma_flat(j, y.shape);
        lemma_flat(i, to2);
        lemma_flat(l, x.shape);
        lemma_flat(k, to1);
    }
    assert(lies_in(to2, to1, new));
    window_reshape(ar, e1, e2, d1, d2, x, y, off, to1, to2, new, find);
}

} // verus!
