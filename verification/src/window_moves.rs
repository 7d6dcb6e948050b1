//! Windows under operations that move elements: reshapes, permutations, slices, joins.

use crate::graph::{Dims, Kind};
use crate::meaning::{flat, in_range, placed, result, Arithmetic, Val};
use crate::shapes::{axis_of, extents, is_axis, reshaped};
use crate::windows::{is_same, is_window, lemma_result1, lemma_result2, lemma_result_concat};
use crate::windows::{lies_in, shifted};
use vstd::arithmetic::div_mod::lemma_fundamental_div_mod_converse;
use vstd::prelude::*;

verus! {

/// Two indices of one array with the same place are equal.
pub proof fn lemma_flat_injective(i: Seq<int>, j: Seq<int>, shape: Seq<int>)
    requires
        in_range(i, shape),
        in_range(j, shape),
        flat(i, shape) == flat(j, shape),
    ensures
        i == j,
    decreases shape.len(),
{
    if shape.len() == 0 {
        assert(i =~= j);
    } else {
        let n = shape.len() - 1;
        let m = shape[n];
        let (a, b) = (
            flat(i.drop_last(), shape.drop_last()),
            flat(j.drop_last(), shape.drop_last()),
        );
        assert(0 <= i[n] < m && 0 <= j[n] < m);
        lemma_fundamental_div_mod_converse(a * m + i[n], m, a, i[n]);
        lemma_fundamental_div_mod_converse(b * m + j[n], m, b, j[n]);
        assert(in_range(i.drop_last(), shape.drop_last())) by {
            assert forall|k: int| 0 <= k < n implies 0 <= #[trigger] i.drop_last()[k]
                < shape.drop_last()[k] by {
                assert(0 <= i[k] < shape[k]);
            }
        }
        assert(in_range(j.drop_last(), shape.drop_last())) by {
            assert forall|k: int| 0 <= k < n implies 0 <= #[trigger] j.drop_last()[k]
                < shape.drop_last()[k] by {
                assert(0 <= j[k] < shape[k]);
            }
        }
        lemma_flat_injective(i.drop_last(), j.drop_last(), shape.drop_last());
        assert(i.drop_last().push(i.last()) =~= i);
        assert(j.drop_last().push(j.last()) =~= j);
    }
}

/// The index with the same place, once one is known.
pub proof fn lemma_placed(i: Seq<int>, from: Seq<int>, to: Seq<int>, j: Seq<int>)
    requires
        in_range(j, to),
        flat(j, to) == flat(i, from),
    ensures
        placed(i, from, to) == j,
{
    let p = placed(i, from, to);
    lemma_flat_injective(p, j, to);
}

/// Places of indices of up to four axes.
pub proof fn lemma_flat(i: Seq<int>, s: Seq<int>)
    requires
        i.len() == s.len(),
    ensures
        s.len() == 1 ==> flat(i, s) == i[0],
        s.len() == 2 ==> flat(i, s) == i[0] * s[1] + i[1],
        s.len() == 3 ==> flat(i, s) == (i[0] * s[1] + i[1]) * s[2] + i[2],
        s.len() == 4 ==> flat(i, s) == ((i[0] * s[1] + i[1]) * s[2] + i[2]) * s[3] + i[3],
{
    reveal_with_fuel(flat, 5);
    if s.len() >= 1 {
        let (i1, s1) = (i.drop_last(), s.drop_last());
        assert(0 * s[0] == 0);
        if s.len() >= 2 {
            let (i2, s2) = (i1.drop_last(), s1.drop_last());
            if s.len() >= 3 {
                let (i3, s3) = (i2.drop_last(), s2.drop_last());
            }
        }
    }
}

/// A reshape that keeps windows: `find` gives, for every index of the new window, the
/// index of the old one with the same place, and both keep their places in the whole.
pub proof fn window_reshape<E>(
    ar: Arithmetic<E>,
    e1: spec_fn(Kind) -> Val<E>,
    e2: spec_fn(Kind) -> Val<E>,
    d1: Dims,
    d2: Dims,
    x: Val<E>,
    y: Val<E>,
    off: Seq<int>,
    to1: Seq<int>,
    to2: Seq<int>,
    new: Seq<int>,
    find: spec_fn(Seq<int>) -> Seq<int>,
)
    requires
        is_window(x, y, off),
        reshaped(x.shape, extents(d1)) == Some(to1),
        reshaped(y.shape, extents(d2)) == Some(to2),
        lies_in(to2, to1, new),
        forall|i: Seq<int>| #[trigger]
            in_range(i, to2) ==> {
                &&& in_range(find(i), y.shape)
                &&& flat(find(i), y.shape) == flat(i, to2)
                &&& flat(shifted(find(i), off), x.shape) == flat(shifted(i, new), to1)
            },
    ensures
        is_window(
            result(ar, e1, Kind::Reshape(d1), seq![x]),
            result(ar, e2, Kind::Reshape(d2), seq![y]),
            new,
        ),
        result(ar, e1, Kind::Reshape(d1), seq![x]).shape == to1,
        result(ar, e2, Kind::Reshape(d2), seq![y]).shape == to2,
{
    lemma_result1(ar, e1, Kind::Reshape(d1), x);
    lemma_result1(ar, e2, Kind::Reshape(d2), y);
    assert forall|i: Seq<int>| #[trigger] in_range(i, to2) implies (x.at)(
        placed(shifted(i, new), to1, x.shape),
    ) == (y.at)(placed(i, to2, y.shape)) by {
        let j = find(i);
        lemma_placed(i, to2, y.shape, j);
        assert(in_range(shifted(j, off), x.shape)) by {
            assert forall|a: int| 0 <= a < off.len() implies 0 <= #[trigger] shifted(j, off)[a]
                < x.shape[a] by {
                assert(0 <= j[a] < y.shape[a]);
                assert(0 <= off[a] && off[a] + y.shape[a] <= x.shape[a]);
            }
        }
        lemma_placed(shifted(i, new), to1, x.shape, shifted(j, off));
    }
}

/// An element of a reshaped array.
pub proof fn lemma_reshape_at<E>(
    ar: Arithmetic<E>,
    env: spec_fn(Kind) -> Val<E>,
    d: Dims,
    x: Val<E>,
    to: Seq<int>,
    i: Seq<int>,
    j: Seq<int>,
)
    requires
        reshaped(x.shape, extents(d)) == Some(to),
        in_range(j, x.shape),
        flat(j, x.shape) == flat(i, to),
    ensures
        (result(ar, env, Kind::Reshape(d), seq![x]).at)(i) == (x.at)(j),
        result(ar, env, Kind::Reshape(d), seq![x]).shape == to,
{
    lemma_result1(ar, env, Kind::Reshape(d), x);
    lemma_placed(i, to, x.shape, j);
}

/// The exchange of the two middle axes of four.
pub proof fn window_permute<E>(
    ar: Arithmetic<E>,
    e1: spec_fn(Kind) -> Val<E>,
    e2: spec_fn(Kind) -> Val<E>,
    x: Val<E>,
    y: Val<E>,
    off: Seq<int>,
)
    requires
        is_window(x, y, off),
        off.len() == 4,
    ensures
        ({
            let kind = Kind::Permute(Dims::D4(0, 2, 1, 3));
            let (s, t) = (x.shape, y.shape);
            &&& is_window(
                result(ar, e1, kind, seq![x]),
                result(ar, e2, kind, seq![y]),
                seq![off[0], off[2], off[1], off[3]],
            )
            &&& result(ar, e1, kind, seq![x]).shape == seq![s[0], s[2], s[1], s[3]]
            &&& result(ar, e2, kind, seq![y]).shape == seq![t[0], t[2], t[1], t[3]]
        }),
{
    let kind = Kind::Permute(Dims::D4(0, 2, 1, 3));
    lemma_result1(ar, e1, kind, x);
    lemma_result1(ar, e2, kind, y);
    let d = extents(Dims::D4(0, 2, 1, 3));
    assert(d =~= seq![0int, 2int, 1int, 3int]);
    assert forall|i: int| 0 <= i < 4 implies 0 <= #[trigger] d[i] < 4 by {}
    let (s, t) = (x.shape, y.shape);
    assert(Seq::new(4, |i: int| s[d[i]]) =~= seq![s[0], s[2], s[1], s[3]]);
    assert(Seq::new(4, |i: int| t[d[i]]) =~= seq![t[0], t[2], t[1], t[3]]);
    let new = seq![off[0], off[2], off[1], off[3]];
    let to = seq![t[0], t[2], t[1], t[3]];
    let pick = |k: int| choose|a: int| 0 <= a < 4 && #[trigger] d[a] == k;
    assert(d[0] == 0 && d[2] == 1 && d[1] == 2 && d[3] == 3);
    assert(pick(0) == 0 && pick(1) == 2 && pick(2) == 1 && pick(3) == 3);
    assert forall|i: Seq<int>| #[trigger] in_range(i, to) implies (result(
        ar,
        e1,
        kind,
        seq![x],
    ).at)(shifted(i, new)) == (result(ar, e2, kind, seq![y]).at)(i) by {
        let j = seq![i[0], i[2], i[1], i[3]];
        let m = shifted(i, new);
        assert(0 <= i[0] < to[0] && 0 <= i[1] < to[1] && 0 <= i[2] < to[2] && 0 <= i[3] < to[3]);
        assert(in_range(j, t));
        assert(Seq::new(4, |k: int| i[choose|a: int| 0 <= a < 4 && #[trigger] d[a] == k]) =~= j) by {
            assert forall|k: int| 0 <= k < 4 implies #[trigger] i[pick(k)] == j[k] by {}
        }
        assert(Seq::new(4, |k: int| m[choose|a: int| 0 <= a < 4 && #[trigger] d[a] == k])
            =~= shifted(j, off)) by {
            assert forall|k: int| 0 <= k < 4 implies #[trigger] m[pick(k)] == shifted(j, off)[k] by {}
        }
    }
    assert(0 <= off[0] && 0 <= off[1] && 0 <= off[2] && 0 <= off[3]);
    assert(lies_in(to, seq![s[0], s[2], s[1], s[3]], new));
}

/// Rows of a table by a window of numbers.
pub proof fn window_take_rows<E>(
    ar: Arithmetic<E>,
    e1: spec_fn(Kind) -> Val<E>,
    e2: spec_fn(Kind) -> Val<E>,
    w1: Val<E>,
    w2: Val<E>,
    x: Val<E>,
    y: Val<E>,
    off: Seq<int>,
    rows: int,
    wide: int,
)
    requires
        is_window(x, y, off),
        off.len() == 1,
        w1.shape == seq![rows, wide],
        is_same(w1, w2),
        wide >= 0,
    ensures
        ({
            let kind = Kind::Take { axis: 0 };
            &&& is_window(
                result(ar, e1, kind, seq![w1, x]),
                result(ar, e2, kind, seq![w2, y]),
                seq![off[0], 0],
            )
            &&& result(ar, e1, kind, seq![w1, x]).shape == seq![x.shape[0], wide]
            &&& result(ar, e2, kind, seq![w2, y]).shape == seq![y.shape[0], wide]
        }),
{
    let kind = Kind::Take { axis: 0 };
    lemma_result2(ar, e1, kind, w1, x);
    lemma_result2(ar, e2, kind, w2, y);
    assert(w1.shape.take(0) + x.shape + w1.shape.skip(1) =~= seq![x.shape[0], wide]);
    assert(w2.shape.take(0) + y.shape + w2.shape.skip(1) =~= seq![y.shape[0], wide]);
    let new = seq![off[0], 0];
    let to = seq![y.shape[0], wide];
    assert forall|i: Seq<int>| #[trigger] in_range(i, to) implies (result(
        ar,
        e1,
        kind,
        seq![w1, x],
    ).at)(shifted(i, new)) == (result(ar, e2, kind, seq![w2, y]).at)(i) by {
        let j = seq![i[0]];
        let m = shifted(i, new);
        assert(0 <= i[0] < to[0] && 0 <= i[1] < to[1]);
        assert(in_range(j, y.shape));
        assert(i.subrange(0, 1) =~= j);
        assert(m.subrange(0, 1) =~= shifted(j, off));
        assert(m.skip(1) =~= i.skip(1));
        assert(m.take(0) =~= i.take(0));
    }
    assert(0 <= off[0]);
    assert(lies_in(to, seq![x.shape[0], wide], new));
}

/// A part of the last axis, which the window has in full.
pub proof fn window_slice_last<E>(
    ar: Arithmetic<E>,
    e1: spec_fn(Kind) -> Val<E>,
    e2: spec_fn(Kind) -> Val<E>,
    from: i32,
    to: i32,
    x: Val<E>,
    y: Val<E>,
    off: Seq<int>,
)
    requires
        is_window(x, y, off),
        off.len() >= 1,
        off.last() == 0,
        x.shape.last() == y.shape.last(),
        0 <= from <= to <= y.shape.last(),
    ensures
        ({
            let kind = Kind::SliceLast { from, to };
            &&& is_window(result(ar, e1, kind, seq![x]), result(ar, e2, kind, seq![y]), off)
            &&& result(ar, e1, kind, seq![x]).shape == x.shape.drop_last().push(to - from)
            &&& result(ar, e2, kind, seq![y]).shape == y.shape.drop_last().push(to - from)
        }),
{
    let kind = Kind::SliceLast { from, to };
    lemma_result1(ar, e1, kind, x);
    lemma_result1(ar, e2, kind, y);
    let n = off.len() - 1;
    let s = y.shape.drop_last().push(to - from);
    assert forall|i: Seq<int>| #[trigger] in_range(i, s) implies (x.at)(
        shifted(i, off).update(n, shifted(i, off).last() + from),
    ) == (y.at)(i.update(n, i.last() + from)) by {
        let j = i.update(n, i.last() + from);
        assert(in_range(j, y.shape)) by {
            assert forall|a: int| 0 <= a < j.len() implies 0 <= #[trigger] j[a] < y.shape[a] by {
                assert(0 <= i[a] < s[a]);
            }
        }
        assert(shifted(i, off).update(n, shifted(i, off).last() + from) =~= shifted(j, off));
    }
    let great = x.shape.drop_last().push(to - from);
    assert forall|a: int| 0 <= a < off.len() implies 0 <= #[trigger] off[a] && 0 <= s[a] && off[a]
        + s[a] <= great[a] by {
        if a < n {
            assert(s[a] == y.shape[a] && great[a] == x.shape[a]);
        } else {
            assert(s[a] == to - from && great[a] == to - from);
        }
    }
}

/// Two windows joined along an axis: the window has the first array in full along
/// it, and the second from its beginning.
pub proof fn window_concat<E>(
    ar: Arithmetic<E>,
    e1: spec_fn(Kind) -> Val<E>,
    e2: spec_fn(Kind) -> Val<E>,
    axis: i32,
    x1: Val<E>,
    x2: Val<E>,
    y1: Val<E>,
    y2: Val<E>,
    off: Seq<int>,
)
    requires
        is_window(x1, x2, off),
        is_window(y1, y2, off),
        is_axis(axis, off.len()),
        ({
            let k = axis_of(axis, off.len());
            &&& off[k] == 0
            &&& x1.shape[k] == x2.shape[k]
            &&& forall|a: int|
                0 <= a < off.len() && a != k ==> #[trigger] x1.shape[a] == y1.shape[a]
                    && x2.shape[a] == y2.shape[a]
        }),
    ensures
        ({
            let kind = Kind::Concat { axis };
            let k = axis_of(axis, off.len());
            &&& is_window(
                result(ar, e1, kind, seq![x1, y1]),
                result(ar, e2, kind, seq![x2, y2]),
                off,
            )
            &&& result(ar, e1, kind, seq![x1, y1]).shape == x1.shape.update(
                k,
                x1.shape[k] + y1.shape[k],
            )
            &&& result(ar, e2, kind, seq![x2, y2]).shape == x2.shape.update(
                k,
                x2.shape[k] + y2.shape[k],
            )
        }),
{
    let kind = Kind::Concat { axis };
    let k = axis_of(axis, off.len());
    let s1 = x1.shape.update(k, x1.shape[k] + y1.shape[k]);
    let s2 = x2.shape.update(k, x2.shape[k] + y2.shape[k]);
    assert forall|a: int| 0 <= a < off.len() && a != k implies #[trigger] s2[a] == x2.shape[a]
        && s2[a] == y2.shape[a] by {
        assert(x1.shape[a] == y1.shape[a]);
    }
    lemma_result_concat(ar, e1, axis, x1, y1, s1);
    lemma_result_concat(ar, e2, axis, x2, y2, s2);
    let r1 = result(ar, e1, kind, seq![x1, y1]);
    let r2 = result(ar, e2, kind, seq![x2, y2]);
    assert forall|i: Seq<int>| #[trigger] in_range(i, s2) implies (r1.at)(shifted(i, off))
        == (r2.at)(i) by {
        assert(0 <= i[k] < s2[k]);
        assert(shifted(i, off)[k] == i[k]);
        if i[k] < x2.shape[k] {
            assert forall|a: int| 0 <= a < i.len() implies 0 <= #[trigger] i[a] < x2.shape[a] by {
                assert(0 <= i[a] < s2[a]);
            }
            assert(in_range(i, x2.shape));
        } else {
            let j = i.update(k, i[k] - x2.shape[k]);
            assert forall|a: int| 0 <= a < j.len() implies 0 <= #[trigger] j[a] < y2.shape[a] by {
                assert(0 <= i[a] < s2[a]);
            }
            assert(in_range(j, y2.shape));
            assert(shifted(i, off).update(k, i[k] - x2.shape[k]) =~= shifted(j, off));
        }
    }
    assert forall|a: int| 0 <= a < off.len() implies 0 <= #[trigger] off[a] && 0 <= s2[a] && off[a]
        + s2[a] <= s1[a] by {
        assert(0 <= off[a] && 0 <= x2.shape[a] && off[a] + x2.shape[a] <= x1.shape[a]);
        assert(0 <= off[a] && 0 <= y2.shape[a] && off[a] + y2.shape[a] <= y1.shape[a]);
    }
    assert(r1.elem == r2.elem);
}

/// Elements repeated along an axis that the window has in full.
pub proof fn window_repeat<E>(
    ar: Arithmetic<E>,
    e1: spec_fn(Kind) -> Val<E>,
    e2: spec_fn(Kind) -> Val<E>,
    count: i32,
    axis: i32,
    x: Val<E>,
    y: Val<E>,
    off: Seq<int>,
)
    requires
        is_window(x, y, off),
        count > 0,
        is_axis(axis, off.len()),
        off[axis_of(axis, off.len())] == 0,
        x.shape[axis_of(axis, off.len())] == y.shape[axis_of(axis, off.len())],
    ensures
        ({
            let kind = Kind::Repeat { count, axis };
            let k = axis_of(axis, off.len());
            &&& is_window(result(ar, e1, kind, seq![x]), result(ar, e2, kind, seq![y]), off)
            &&& result(ar, e1, kind, seq![x]).shape == x.shape.update(k, x.shape[k] * count)
            &&& result(ar, e2, kind, seq![y]).shape == y.shape.update(k, y.shape[k] * count)
        }),
{
    let kind = Kind::Repeat { count, axis };
    let k = axis_of(axis, off.len());
    lemma_result1(ar, e1, kind, x);
    lemma_result1(ar, e2, kind, y);
    let n = y.shape[k];
    let s = y.shape.update(k, n * count);
    assert forall|i: Seq<int>| #[trigger] in_range(i, s) implies (x.at)(
        shifted(i, off).update(k, shifted(i, off)[k] / count as int),
    ) == (y.at)(i.update(k, i[k] / count as int)) by {
        let j = i.update(k, i[k] / count as int);
        assert(0 <= i[k] < s[k]);
        let (p, c) = (i[k], count as int);
        assert(0 <= p / c < n) by (nonlinear_arith)
            requires
                0 <= p < n * c,
                c > 0,
        ;
        assert forall|a: int| 0 <= a < j.len() implies 0 <= #[trigger] j[a] < y.shape[a] by {
            assert(0 <= i[a] < s[a]);
        }
        assert(in_range(j, y.shape));
        assert(shifted(i, off).update(k, shifted(i, off)[k] / count as int) =~= shifted(j, off));
    }
    assert(0 <= n * count) by (nonlinear_arith)
        requires
            n >= 0,
            count > 0,
    ;
    assert forall|a: int| 0 <= a < off.len() implies 0 <= #[trigger] off[a] && 0 <= s[a] && off[a]
        + s[a] <= x.shape.update(k, x.shape[k] * count)[a] by {}
}

} // verus!
