//! Windows: arrays that are a part of a greater one, operation by operation.
//!
//! A row of a padded batch is a window of the batch. An operation that acts on every
//! row alike takes windows to windows.

use crate::graph::{turn, Kind};
use crate::meaning::{element1, element2, element3, element4, in_range, joined_at};
use crate::meaning::{extent_before, line, project, result};
use crate::meaning::{elems_in, shapes_in, Arithmetic, Val};
use crate::shapes::{axis_of, is_axis, joined, rule1, rule2, rule3, rule4};
use crate::shapes::{are_extents, lemma_stretched_into};
use crate::types::{elem1, elem2, joint, joint_of};
use vstd::prelude::*;

verus! {

/// An index moved by an offset.
pub open spec fn shifted(i: Seq<int>, off: Seq<int>) -> Seq<int> {
    Seq::new(i.len(), |a: int| i[a] + off[a])
}

/// Whether a window of extents `small` at `off` lies within an array of extents `great`.
pub open spec fn lies_in(small: Seq<int>, great: Seq<int>, off: Seq<int>) -> bool {
    &&& great.len() == small.len()
    &&& off.len() == small.len()
    &&& forall|a: int|
        0 <= a < off.len() ==> 0 <= #[trigger] off[a] && 0 <= small[a] && off[a] + small[a]
            <= great[a]
}

/// Whether `y` is the part of `x` that begins at `off`.
pub open spec fn is_window<E>(x: Val<E>, y: Val<E>, off: Seq<int>) -> bool {
    &&& x.elem == y.elem
    &&& lies_in(y.shape, x.shape, off)
    &&& forall|i: Seq<int>| #[trigger]
        in_range(i, y.shape) ==> (x.at)(shifted(i, off)) == (y.at)(i)
}

/// Whether two arrays hold the same.
pub open spec fn is_same<E>(x: Val<E>, y: Val<E>) -> bool {
    &&& x.elem == y.elem
    &&& x.shape == y.shape
    &&& are_extents(y.shape)
    &&& forall|i: Seq<int>| #[trigger] (x.at)(i) == (y.at)(i)
}

/// What a result with one operand is made of.
pub proof fn lemma_result1<E>(
    ar: Arithmetic<E>,
    env: spec_fn(Kind) -> Val<E>,
    kind: Kind,
    x: Val<E>,
)
    requires
        !(kind is Concat),
    ensures
        ({
            let r = result(ar, env, kind, seq![x]);
            &&& r.shape == rule1(kind, x.shape)->0
            &&& r.elem == elem1(kind, x.elem)
            &&& forall|i: Seq<int>| #[trigger]
                (r.at)(i) == element1(ar, kind, x, rule1(kind, x.shape)->0, i)
        }),
{
    assert(shapes_in(seq![x])[0] == x.shape);
    assert(elems_in(seq![x])[0] == x.elem);
}

/// What a result with two operands is made of.
pub proof fn lemma_result2<E>(
    ar: Arithmetic<E>,
    env: spec_fn(Kind) -> Val<E>,
    kind: Kind,
    x: Val<E>,
    y: Val<E>,
)
    requires
        !(kind is Concat),
    ensures
        ({
            let r = result(ar, env, kind, seq![x, y]);
            &&& r.shape == rule2(kind, x.shape, y.shape)->0
            &&& r.elem == elem2(kind, x.elem, y.elem)
            &&& forall|i: Seq<int>| #[trigger] (r.at)(i) == element2(ar, kind, x, y, i)
        }),
{
    let a = seq![x, y];
    assert(shapes_in(a)[0] == x.shape && shapes_in(a)[1] == y.shape);
    assert(elems_in(a)[0] == x.elem && elems_in(a)[1] == y.elem);
}

/// What a result with three operands is made of.
pub proof fn lemma_result3<E>(
    ar: Arithmetic<E>,
    env: spec_fn(Kind) -> Val<E>,
    kind: Kind,
    c: Val<E>,
    x: Val<E>,
    y: Val<E>,
)
    requires
        !(kind is Concat),
    ensures
        ({
            let r = result(ar, env, kind, seq![c, x, y]);
            &&& r.shape == rule3(kind, c.shape, x.shape, y.shape)->0
            &&& r.elem == joint(x.elem, y.elem)
            &&& forall|i: Seq<int>| #[trigger] (r.at)(i) == element3(ar, c, x, y, i)
        }),
{
    let a = seq![c, x, y];
    assert(shapes_in(a)[0] == c.shape && shapes_in(a)[1] == x.shape && shapes_in(a)[2] == y.shape);
    assert(elems_in(a)[1] == x.elem && elems_in(a)[2] == y.elem);
}

/// What a result with four operands is made of.
pub proof fn lemma_result4<E>(
    ar: Arithmetic<E>,
    env: spec_fn(Kind) -> Val<E>,
    kind: Kind,
    q: Val<E>,
    k: Val<E>,
    v: Val<E>,
    m: Val<E>,
)
    requires
        !(kind is Concat),
    ensures
        ({
            let r = result(ar, env, kind, seq![q, k, v, m]);
            &&& r.shape == rule4(kind, q.shape, k.shape, v.shape, m.shape)->0
            &&& r.elem == joint(joint(q.elem, k.elem), v.elem)
            &&& forall|i: Seq<int>| #[trigger] (r.at)(i) == element4(ar, kind, q, k, v, m, i)
        }),
{
    let a = seq![q, k, v, m];
    assert(shapes_in(a)[0] == q.shape && shapes_in(a)[1] == k.shape && shapes_in(a)[2] == v.shape
        && shapes_in(a)[3] == m.shape);
    assert(elems_in(a)[0] == q.elem && elems_in(a)[1] == k.elem && elems_in(a)[2] == v.elem);
}

/// What two arrays joined along an axis are made of.
pub proof fn lemma_result_concat<E>(
    ar: Arithmetic<E>,
    env: spec_fn(Kind) -> Val<E>,
    axis: i32,
    x: Val<E>,
    y: Val<E>,
    shape: Seq<int>,
)
    requires
        x.shape.len() == shape.len(),
        y.shape.len() == shape.len(),
        is_axis(axis, shape.len()),
        ({
            let k = axis_of(axis, shape.len());
            &&& shape[k] == x.shape[k] + y.shape[k]
            &&& forall|a: int|
                0 <= a < shape.len() && a != k ==> #[trigger] shape[a] == x.shape[a] && shape[a]
                    == y.shape[a]
        }),
    ensures
        ({
            let r = result(ar, env, Kind::Concat { axis }, seq![x, y]);
            let k = axis_of(axis, shape.len());
            &&& r.shape == shape
            &&& r.elem == joint(x.elem, y.elem)
            &&& forall|i: Seq<int>| #[trigger]
                (r.at)(i) == if i[k] < x.shape[k] {
                    (x.at)(i)
                } else {
                    (y.at)(i.update(k, i[k] - x.shape[k]))
                }
        }),
{
    let a = seq![x, y];
    let k = axis_of(axis, shape.len());
    let s = shapes_in(a);
    assert(s =~= seq![x.shape, y.shape]);
    reveal_with_fuel(joined, 2);
    reveal(joined);
    assert(s.drop_last() =~= seq![x.shape]);
    assert(joined(s.drop_last(), axis) == Some(x.shape));
    assert forall|j: int| 0 <= j < shape.len() implies #[trigger] x.shape.update(k, 0)[j]
        == y.shape.update(k, 0)[j] by {
        if j != k {
            assert(shape[j] == x.shape[j] && shape[j] == y.shape[j]);
        }
    }
    assert(x.shape.update(k, 0) =~= y.shape.update(k, 0));
    assert(x.shape.update(k, x.shape[k] + y.shape[k]) =~= shape);
    let e = elems_in(a);
    reveal_with_fuel(joint_of, 3);
    assert(e.drop_last().last() == x.elem);
    assert(e.drop_last().drop_last() =~= seq![]);
    assert(a.drop_last() =~= seq![x]);
    reveal_with_fuel(joined_at, 2);
    reveal_with_fuel(extent_before, 2);
    assert(seq![x].drop_last() =~= seq![]);
    assert(extent_before(a.drop_last(), k) == x.shape[k]);
}

/// The elements along an axis that a window has in full.
pub proof fn lemma_line<E>(x: Val<E>, y: Val<E>, off: Seq<int>, k: int, i: Seq<int>)
    requires
        is_window(x, y, off),
        0 <= k < off.len(),
        off[k] == 0,
        x.shape[k] == y.shape[k],
        i.len() == off.len(),
        forall|a: int| 0 <= a < i.len() && a != k ==> 0 <= #[trigger] i[a] < y.shape[a],
    ensures
        line(x, k, shifted(i, off)) == line(y, k, i),
{
    assert forall|c: int| 0 <= c < y.shape[k] implies (x.at)(
        #[trigger] shifted(i, off).update(k, c),
    ) == (y.at)(i.update(k, c)) by {
        assert(shifted(i, off).update(k, c) =~= shifted(i.update(k, c), off));
        assert(in_range(i.update(k, c), y.shape));
    }
    assert(line(x, k, shifted(i, off)) =~= line(y, k, i));
}

/// The elements along an axis of two arrays that hold the same.
pub proof fn lemma_same_line<E>(x: Val<E>, y: Val<E>, k: int, i: Seq<int>)
    requires
        is_same(x, y),
        0 <= k < y.shape.len(),
        i.len() == y.shape.len(),
        forall|a: int| 0 <= a < i.len() && a != k ==> 0 <= #[trigger] i[a] < y.shape[a],
    ensures
        line(x, k, i) == line(y, k, i),
{
    assert forall|c: int| 0 <= c < y.shape[k] implies (x.at)(#[trigger] i.update(k, c)) == (y.at)(
        i.update(k, c),
    ) by {
        assert(in_range(i.update(k, c), y.shape));
    }
    assert(line(x, k, i) =~= line(y, k, i));
}

/// Whether an operation acts on every element of one operand by itself.
pub open spec fn is_map(kind: Kind) -> bool {
    kind is Cast || kind is Reciprocal || kind is Rsqrt || kind is Tanh || kind is Cos || kind
        is Sin || kind is Silu
}

/// Whether an operation acts on every pair of elements of two operands by itself.
pub open spec fn is_zip(kind: Kind) -> bool {
    kind is Add || kind is Subtract || kind is Multiply || kind is Divide || kind is Maximum
        || kind is Power || kind is Greater || kind is Less || kind is Equal || kind is And
}

/// An element-wise operation takes a window to the window of its result.
pub proof fn window_map<E>(
    ar: Arithmetic<E>,
    e1: spec_fn(Kind) -> Val<E>,
    e2: spec_fn(Kind) -> Val<E>,
    kind: Kind,
    x: Val<E>,
    y: Val<E>,
    off: Seq<int>,
)
    requires
        is_map(kind),
        is_window(x, y, off),
    ensures
        is_window(result(ar, e1, kind, seq![x]), result(ar, e2, kind, seq![y]), off),
        result(ar, e1, kind, seq![x]).shape == x.shape,
        result(ar, e2, kind, seq![y]).shape == y.shape,
{
    lemma_result1(ar, e1, kind, x);
    lemma_result1(ar, e2, kind, y);
}

/// So does a cast to the type of another array.
pub proof fn window_cast_like<E>(
    ar: Arithmetic<E>,
    e1: spec_fn(Kind) -> Val<E>,
    e2: spec_fn(Kind) -> Val<E>,
    x: Val<E>,
    y: Val<E>,
    off: Seq<int>,
    l1: Val<E>,
    l2: Val<E>,
)
    requires
        is_window(x, y, off),
        l1.elem == l2.elem,
    ensures
        is_window(
            result(ar, e1, Kind::CastLike, seq![x, l1]),
            result(ar, e2, Kind::CastLike, seq![y, l2]),
            off,
        ),
        result(ar, e1, Kind::CastLike, seq![x, l1]).shape == x.shape,
        result(ar, e2, Kind::CastLike, seq![y, l2]).shape == y.shape,
{
    lemma_result2(ar, e1, Kind::CastLike, x, l1);
    lemma_result2(ar, e2, Kind::CastLike, y, l2);
}

/// Whether a window with an offset stretches into a window of greater rank.
pub open spec fn stretches(
    b1: Seq<int>,
    b2: Seq<int>,
    ob: Seq<int>,
    c1: Seq<int>,
    c2: Seq<int>,
    oc: Seq<int>,
) -> bool {
    &&& b1.len() <= c1.len()
    &&& forall|a: int|
        #![trigger b1[a]]
        0 <= a < b1.len() ==> {
            let k = a + (c1.len() - b1.len());
            ||| b1[a] == 1 && b2[a] == 1 && ob[a] == 0
            ||| b1[a] == c1[k] && b2[a] == c2[k] && ob[a] == oc[k]
        }
}

/// An element-wise operation reads a stretched window at the place of the window.
pub proof fn lemma_project(
    b1: Seq<int>,
    b2: Seq<int>,
    ob: Seq<int>,
    c1: Seq<int>,
    c2: Seq<int>,
    oc: Seq<int>,
    i: Seq<int>,
)
    requires
        stretches(b1, b2, ob, c1, c2, oc),
        lies_in(b2, b1, ob),
        lies_in(c2, c1, oc),
        in_range(i, c2),
    ensures
        in_range(project(i, b2), b2),
        project(shifted(i, oc), b1) == shifted(project(i, b2), ob),
{
    let p = project(i, b2);
    assert forall|a: int| 0 <= a < b2.len() implies 0 <= #[trigger] p[a] < b2[a] && project(
        shifted(i, oc),
        b1,
    )[a] == p[a] + ob[a] by {
        let k = a + (c1.len() - b1.len());
        assert(0 <= i[k] < c2[k]);
        assert(b1[a] == 1 || b1[a] == c1[k]);
        assert(0 <= oc[k] && oc[k] + c2[k] <= c1[k]);
        assert(0 <= ob[a] && ob[a] + b2[a] <= b1[a]);
    }
    assert(project(shifted(i, oc), b1) =~= shifted(p, ob));
}

/// An element-wise operation with a window that stretches into the other.
pub proof fn window_zip<E>(
    ar: Arithmetic<E>,
    e1: spec_fn(Kind) -> Val<E>,
    e2: spec_fn(Kind) -> Val<E>,
    kind: Kind,
    x1: Val<E>,
    x2: Val<E>,
    off: Seq<int>,
    y1: Val<E>,
    y2: Val<E>,
    oy: Seq<int>,
)
    requires
        is_zip(kind),
        is_window(x1, x2, off),
        is_window(y1, y2, oy),
        stretches(y1.shape, y2.shape, oy, x1.shape, x2.shape, off),
    ensures
        is_window(result(ar, e1, kind, seq![x1, y1]), result(ar, e2, kind, seq![x2, y2]), off),
        result(ar, e1, kind, seq![x1, y1]).shape == x1.shape,
        result(ar, e2, kind, seq![x2, y2]).shape == x2.shape,
        is_window(result(ar, e1, kind, seq![y1, x1]), result(ar, e2, kind, seq![y2, x2]), off),
        result(ar, e1, kind, seq![y1, x1]).shape == x1.shape,
        result(ar, e2, kind, seq![y2, x2]).shape == x2.shape,
{
    lemma_result2(ar, e1, kind, x1, y1);
    lemma_result2(ar, e2, kind, x2, y2);
    lemma_result2(ar, e1, kind, y1, x1);
    lemma_result2(ar, e2, kind, y2, x2);
    assert forall|a: int| 0 <= a < y1.shape.len() implies #[trigger] y1.shape[a] == 1
        || y1.shape[a] == x1.shape[a + (x1.shape.len() - y1.shape.len())] by {}
    assert forall|a: int| 0 <= a < y2.shape.len() implies #[trigger] y2.shape[a] == 1
        || y2.shape[a] == x2.shape[a + (x2.shape.len() - y2.shape.len())] by {
        let k = a + (x1.shape.len() - y1.shape.len());
        assert(y1.shape[a] == 1 || y1.shape[a] == x1.shape[k]);
    }
    lemma_stretched_into(x1.shape, y1.shape);
    lemma_stretched_into(x2.shape, y2.shape);
    assert forall|i: Seq<int>| #[trigger] in_range(i, x2.shape) implies (x1.at)(
        project(shifted(i, off), x1.shape),
    ) == (x2.at)(project(i, x2.shape)) && (y1.at)(project(shifted(i, off), y1.shape)) == (y2.at)(
        project(i, y2.shape),
    ) by {
        lemma_project(y1.shape, y2.shape, oy, x1.shape, x2.shape, off, i);
        lemma_project(x1.shape, x2.shape, off, x1.shape, x2.shape, off, i);
    }
}

/// A choice between two numbers by a window of conditions.
pub proof fn window_which<E>(
    ar: Arithmetic<E>,
    e1: spec_fn(Kind) -> Val<E>,
    e2: spec_fn(Kind) -> Val<E>,
    c1: Val<E>,
    c2: Val<E>,
    off: Seq<int>,
    x1: Val<E>,
    x2: Val<E>,
    y1: Val<E>,
    y2: Val<E>,
)
    requires
        is_window(c1, c2, off),
        is_same(x1, x2),
        is_same(y1, y2),
        x2.shape == Seq::<int>::empty(),
        y2.shape == Seq::<int>::empty(),
    ensures
        is_window(
            result(ar, e1, Kind::Which, seq![c1, x1, y1]),
            result(ar, e2, Kind::Which, seq![c2, x2, y2]),
            off,
        ),
        result(ar, e1, Kind::Which, seq![c1, x1, y1]).shape == c1.shape,
        result(ar, e2, Kind::Which, seq![c2, x2, y2]).shape == c2.shape,
        ({
            let r = result(ar, e1, Kind::Which, seq![c1, x1, y1]);
            forall|i: Seq<int>| #[trigger]
                (r.at)(i) == if (ar.holds)((c1.at)(project(i, c1.shape))) {
                    (x1.at)(seq![])
                } else {
                    (y1.at)(seq![])
                }
        }),
{
    lemma_result3(ar, e1, Kind::Which, c1, x1, y1);
    lemma_result3(ar, e2, Kind::Which, c2, x2, y2);
    lemma_stretched_into(seq![], seq![]);
    lemma_stretched_into(c1.shape, seq![]);
    lemma_stretched_into(c2.shape, seq![]);
    assert forall|i: Seq<int>| #[trigger] project(i, Seq::<int>::empty()) == Seq::<int>::empty() by {
        assert(project(i, Seq::<int>::empty()) =~= Seq::<int>::empty());
    }
    assert(in_range(Seq::<int>::empty(), Seq::<int>::empty()));
    assert forall|i: Seq<int>| #[trigger] in_range(i, c2.shape) implies (c1.at)(
        project(shifted(i, off), c1.shape),
    ) == (c2.at)(project(i, c2.shape)) by {
        lemma_project(c1.shape, c2.shape, off, c1.shape, c2.shape, off, i);
    }
}

/// A product with the same matrix, along an axis that the window has in full.
pub proof fn window_matmul<E>(
    ar: Arithmetic<E>,
    e1: spec_fn(Kind) -> Val<E>,
    e2: spec_fn(Kind) -> Val<E>,
    x: Val<E>,
    y: Val<E>,
    off: Seq<int>,
    w1: Val<E>,
    w2: Val<E>,
    from: int,
    to: int,
)
    requires
        is_window(x, y, off),
        off.len() >= 2,
        off.last() == 0,
        x.shape.last() == from,
        y.shape.last() == from,
        is_same(w1, w2),
        w2.shape == seq![from, to],
        to >= 0,
    ensures
        is_window(
            result(ar, e1, Kind::Matmul, seq![x, w1]),
            result(ar, e2, Kind::Matmul, seq![y, w2]),
            off,
        ),
        result(ar, e1, Kind::Matmul, seq![x, w1]).shape == x.shape.drop_last().push(to),
        result(ar, e2, Kind::Matmul, seq![y, w2]).shape == y.shape.drop_last().push(to),
{
    lemma_result2(ar, e1, Kind::Matmul, x, w1);
    lemma_result2(ar, e2, Kind::Matmul, y, w2);
    let s = y.shape.drop_last().push(to);
    let n = off.len() - 1;
    assert forall|i: Seq<int>| #[trigger] in_range(i, s) implies element2(
        ar,
        Kind::Matmul,
        x,
        w1,
        shifted(i, off),
    ) == element2(ar, Kind::Matmul, y, w2, i) by {
        assert forall|a: int| 0 <= a < i.len() && a != n implies 0 <= #[trigger] i[a]
            < y.shape[a] by {
            assert(s[a] == y.shape[a]);
        }
        lemma_line(x, y, off, n, i);
        let c = seq![0, i.last()];
        assert(0 <= i[n] < s[n]);
        assert(c[1] == i.last());
        lemma_same_line(w1, w2, 0, c);
        assert(shifted(i, off).last() == i.last());
    }
    assert forall|a: int| 0 <= a < off.len() implies 0 <= #[trigger] off[a] && 0 <= s[a] && off[a]
        + s[a] <= x.shape.drop_last().push(to)[a] by {}
}

/// A mean over the last axis, which the window has in full.
pub proof fn window_mean_last<E>(
    ar: Arithmetic<E>,
    e1: spec_fn(Kind) -> Val<E>,
    e2: spec_fn(Kind) -> Val<E>,
    x: Val<E>,
    y: Val<E>,
    off: Seq<int>,
)
    requires
        is_window(x, y, off),
        off.len() >= 1,
        off.last() == 0,
        x.shape.last() == y.shape.last(),
    ensures
        ({
            let kind = Kind::Mean { axis: -1i32, keep: true };
            &&& is_window(result(ar, e1, kind, seq![x]), result(ar, e2, kind, seq![y]), off)
            &&& result(ar, e1, kind, seq![x]).shape == x.shape.update(x.shape.len() - 1, 1)
            &&& result(ar, e2, kind, seq![y]).shape == y.shape.update(y.shape.len() - 1, 1)
        }),
{
    let kind = Kind::Mean { axis: -1i32, keep: true };
    lemma_result1(ar, e1, kind, x);
    lemma_result1(ar, e2, kind, y);
    let n = off.len() - 1;
    let s = y.shape.update(n, 1);
    assert forall|i: Seq<int>| #[trigger] in_range(i, s) implies line(x, n, shifted(i, off))
        == line(y, n, i) by {
        assert forall|a: int| 0 <= a < i.len() && a != n implies 0 <= #[trigger] i[a]
            < y.shape[a] by {
            assert(s[a] == y.shape[a]);
        }
        lemma_line(x, y, off, n, i);
    }
    assert forall|a: int| 0 <= a < off.len() implies 0 <= #[trigger] off[a] && 0 <= s[a] && off[a]
        + s[a] <= x.shape.update(n, 1)[a] by {}
}

/// A normalisation along the last axis, which the window has in full.
pub proof fn window_rms<E>(
    ar: Arithmetic<E>,
    e1: spec_fn(Kind) -> Val<E>,
    e2: spec_fn(Kind) -> Val<E>,
    kind: Kind,
    x: Val<E>,
    y: Val<E>,
    off: Seq<int>,
    w1: Val<E>,
    w2: Val<E>,
)
    requires
        kind is FastRmsNorm,
        is_window(x, y, off),
        off.len() >= 1,
        off.last() == 0,
        x.shape.last() == y.shape.last(),
        is_same(w1, w2),
        w2.shape == seq![y.shape.last()],
    ensures
        is_window(result(ar, e1, kind, seq![x, w1]), result(ar, e2, kind, seq![y, w2]), off),
        result(ar, e1, kind, seq![x, w1]).shape == x.shape,
        result(ar, e2, kind, seq![y, w2]).shape == y.shape,
{
    lemma_result2(ar, e1, kind, x, w1);
    lemma_result2(ar, e2, kind, y, w2);
    let n = off.len() - 1;
    lemma_same_line(w1, w2, 0, seq![0]);
    assert forall|i: Seq<int>| #[trigger] in_range(i, y.shape) implies line(x, n, shifted(i, off))
        == line(y, n, i) by {
        lemma_line(x, y, off, n, i);
    }
}

/// A rotation by the middle of three axes; the window has the two last from their
/// beginning, and the last in full.
pub proof fn window_rope<E>(
    ar: Arithmetic<E>,
    e1: spec_fn(Kind) -> Val<E>,
    e2: spec_fn(Kind) -> Val<E>,
    dims: i32,
    x: Val<E>,
    y: Val<E>,
    off: Seq<int>,
    f1: Val<E>,
    f2: Val<E>,
)
    requires
        is_window(x, y, off),
        off.len() == 3,
        off[1] == 0,
        off[2] == 0,
        x.shape[2] == y.shape[2],
        0 < dims <= y.shape[2],
        dims as int % 2 == 0,
        is_same(f1, f2),
        f2.shape == seq![dims as int / 2],
    ensures
        ({
            let kind = turn(dims);
            &&& is_window(result(ar, e1, kind, seq![x, f1]), result(ar, e2, kind, seq![y, f2]), off)
            &&& result(ar, e1, kind, seq![x, f1]).shape == x.shape
            &&& result(ar, e2, kind, seq![y, f2]).shape == y.shape
        }),
{
    let kind = turn(dims);
    lemma_result2(ar, e1, kind, x, f1);
    lemma_result2(ar, e2, kind, y, f2);
    lemma_same_line(f1, f2, 0, seq![0]);
    assert forall|i: Seq<int>| #[trigger] in_range(i, y.shape) implies line(x, 2, shifted(i, off))
        == line(y, 2, i) by {
        lemma_line(x, y, off, 2, i);
    }
}

} // verus!
