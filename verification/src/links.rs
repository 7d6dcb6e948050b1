//! Links: two arrays of the same extents that agree at the positions that are kept,
//! operation by operation.
//!
//! A program run twice, on inputs that differ in places, computes arrays that are
//! linked at the positions that the difference does not reach.

use crate::graph::{binary, unary, Kind, Term};
use crate::meaning::{in_range, lemma_value1, lemma_value2, line, project, Val};
use crate::parts::{first, is_part, is_shared, second, shared_transpose, Pair};
use crate::shapes::{are_extents, lemma_stretched_into};
use crate::windows::{is_map, is_zip, lemma_result1, lemma_result2};
use crate::windows::{lemma_result_concat, lemma_same_line, shifted};
use vstd::prelude::*;

verus! {

/// The element of an array with one axis.
pub open spec fn at1<E>(x: Val<E>, a: int) -> E {
    (x.at)(seq![a])
}

/// The element of an array with two axes.
pub open spec fn at2<E>(x: Val<E>, a: int, b: int) -> E {
    (x.at)(seq![a, b])
}

/// The element of an array with three axes.
pub open spec fn at3<E>(x: Val<E>, a: int, b: int, c: int) -> E {
    (x.at)(seq![a, b, c])
}

/// The element of an array with four axes.
pub open spec fn at4<E>(x: Val<E>, a: int, b: int, c: int, d: int) -> E {
    (x.at)(seq![a, b, c, d])
}

/// Where two arrays agree: at the positions of a row that are kept, when the first is
/// read where `to` sends the position.
pub struct Link {
    pub keep: spec_fn(int, int) -> bool,
    pub to: spec_fn(int) -> int,
}

/// Whether positions are read where they stand.
pub open spec fn stays(l: Link) -> bool {
    forall|q: int| #[trigger] (l.to)(q) == q
}

/// A link that reads positions where they stand.
pub open spec fn at_place(keep: spec_fn(int, int) -> bool) -> Link {
    Link { keep, to: |q: int| q }
}

/// An index with its position sent on.
pub open spec fn moved(i: Seq<int>, ax: int, l: Link) -> Seq<int> {
    i.update(ax, (l.to)(i[ax]))
}

/// Whether two arrays are linked, with rows on the first axis and positions on axis `ax`.
pub open spec fn is_linked<E>(x: Val<E>, y: Val<E>, ax: int, l: Link) -> bool {
    &&& x.elem == y.elem
    &&& x.shape == y.shape
    &&& are_extents(y.shape)
    &&& 1 <= ax < y.shape.len()
    &&& forall|q: int| 0 <= q < y.shape[ax] ==> 0 <= #[trigger] (l.to)(q) < y.shape[ax]
    &&& forall|i: Seq<int>| #[trigger]
        in_range(i, y.shape) && (l.keep)(i[0], i[ax]) ==> (x.at)(moved(i, ax, l)) == (y.at)(i)
}

/// Whether a term computes linked arrays, of extents `s`, in both programs.
#[verifier::opaque]
pub open spec fn is_like<E>(p: Pair<E>, t: Term, s: Seq<int>, ax: int, l: Link) -> bool {
    &&& is_linked(first(p, t), second(p, t), ax, l)
    &&& second(p, t).shape == s
}

/// An element-wise operation.
pub proof fn like_map<E>(p: Pair<E>, kind: Kind, t: Term, s: Seq<int>, ax: int, l: Link)
    requires
        is_map(kind),
        is_like(p, t, s, ax, l),
    ensures
        is_like(p, unary(kind, t), s, ax, l),
{
    reveal(is_like);
    lemma_value1(p.ar, p.e1, kind, t);
    lemma_value1(p.ar, p.e2, kind, t);
    lemma_result1(p.ar, p.e1, kind, first(p, t));
    lemma_result1(p.ar, p.e2, kind, second(p, t));
}

/// A cast to the type of another array.
pub proof fn like_cast_like<E>(
    p: Pair<E>,
    t: Term,
    u: Term,
    s: Seq<int>,
    z: Seq<int>,
    ax: int,
    az: int,
    l: Link,
)
    requires
        is_like(p, t, s, ax, l),
        is_like(p, u, z, az, l),
    ensures
        is_like(p, binary(Kind::CastLike, t, u), s, ax, l),
{
    reveal(is_like);
    lemma_value2(p.ar, p.e1, Kind::CastLike, t, u);
    lemma_value2(p.ar, p.e2, Kind::CastLike, t, u);
    lemma_result2(p.ar, p.e1, Kind::CastLike, first(p, t), first(p, u));
    lemma_result2(p.ar, p.e2, Kind::CastLike, second(p, t), second(p, u));
}

/// An index of an array is read where it stands.
proof fn lemma_project_self(i: Seq<int>, s: Seq<int>)
    requires
        in_range(i, s),
    ensures
        project(i, s) == i,
{
    assert forall|a: int| 0 <= a < s.len() implies #[trigger] project(i, s)[a] == i[a] by {
        assert(0 <= i[a] < s[a]);
    }
    assert(project(i, s) =~= i);
}

/// An element-wise operation on two arrays, the second of which is stretched and
/// agrees where it is read.
proof fn like_zip<E>(
    p: Pair<E>,
    kind: Kind,
    t: Term,
    u: Term,
    s: Seq<int>,
    z: Seq<int>,
    ax: int,
    l: Link,
)
    requires
        is_zip(kind),
        is_like(p, t, s, ax, l),
        first(p, u).shape == z,
        second(p, u).shape == z,
        first(p, u).elem == second(p, u).elem,
        z.len() <= s.len(),
        forall|a: int| 0 <= a < z.len() ==> #[trigger] z[a] == 1 || z[a] == s[a + (s.len() - z.len())],
        forall|i: Seq<int>| #[trigger]
            in_range(i, s) && (l.keep)(i[0], i[ax]) ==> (first(p, u).at)(
                project(moved(i, ax, l), z),
            ) == (second(p, u).at)(project(i, z)),
    ensures
        is_like(p, binary(kind, t, u), s, ax, l),
        is_like(p, binary(kind, u, t), s, ax, l),
{
    reveal(is_like);
    lemma_value2(p.ar, p.e1, kind, t, u);
    lemma_value2(p.ar, p.e2, kind, t, u);
    lemma_value2(p.ar, p.e1, kind, u, t);
    lemma_value2(p.ar, p.e2, kind, u, t);
    lemma_result2(p.ar, p.e1, kind, first(p, t), first(p, u));
    lemma_result2(p.ar, p.e2, kind, second(p, t), second(p, u));
    lemma_result2(p.ar, p.e1, kind, first(p, u), first(p, t));
    lemma_result2(p.ar, p.e2, kind, second(p, u), second(p, t));
    lemma_stretched_into(s, z);
    assert forall|i: Seq<int>| #[trigger] in_range(i, s) && (l.keep)(i[0], i[ax]) implies project(
        i,
        s,
    ) == i && project(moved(i, ax, l), s) == moved(i, ax, l) by {
        lemma_moved_in_range(i, s, ax, l);
        lemma_project_self(i, s);
        lemma_project_self(moved(i, ax, l), s);
    }
}

/// A position that is sent on stays within the array.
proof fn lemma_moved_in_range(i: Seq<int>, s: Seq<int>, ax: int, l: Link)
    requires
        in_range(i, s),
        0 <= ax < s.len(),
        forall|q: int| 0 <= q < s[ax] ==> 0 <= #[trigger] (l.to)(q) < s[ax],
    ensures
        in_range(moved(i, ax, l), s),
{
    assert(0 <= i[ax] < s[ax]);
    assert forall|a: int| 0 <= a < s.len() implies 0 <= #[trigger] moved(i, ax, l)[a] < s[a] by {
        assert(0 <= i[a] < s[a]);
    }
}

/// An element-wise operation on two arrays of the same extents.
pub proof fn like_zip_same<E>(
    p: Pair<E>,
    kind: Kind,
    t: Term,
    u: Term,
    s: Seq<int>,
    ax: int,
    l: Link,
)
    requires
        is_zip(kind),
        is_like(p, t, s, ax, l),
        is_like(p, u, s, ax, l),
    ensures
        is_like(p, binary(kind, t, u), s, ax, l),
{
    assert forall|i: Seq<int>| #[trigger] in_range(i, s) && (l.keep)(i[0], i[ax]) implies (first(
        p,
        u,
    ).at)(project(moved(i, ax, l), s)) == (second(p, u).at)(project(i, s)) by {
        reveal(is_like);
        lemma_moved_in_range(i, s, ax, l);
        lemma_project_self(i, s);
        lemma_project_self(moved(i, ax, l), s);
    }
    assert(first(p, u).shape == s && second(p, u).shape == s && first(p, u).elem == second(
        p,
        u,
    ).elem) by {
        reveal(is_like);
    }
    like_zip(p, kind, t, u, s, s, ax, l);
}

/// An element-wise operation with an array that has one element on the last axis.
pub proof fn like_zip_last<E>(
    p: Pair<E>,
    kind: Kind,
    t: Term,
    u: Term,
    s: Seq<int>,
    d: int,
    ax: int,
    l: Link,
)
    requires
        is_zip(kind),
        ax < s.len(),
        is_like(p, t, s.push(d), ax, l),
        is_like(p, u, s.push(1), ax, l),
    ensures
        is_like(p, binary(kind, t, u), s.push(d), ax, l),
{
    let (full, z) = (s.push(d), s.push(1));
    let n = s.len() as int;
    reveal(is_like);
    assert forall|i: Seq<int>| #[trigger] in_range(i, full) && (l.keep)(i[0], i[ax]) implies (first(
        p,
        u,
    ).at)(project(moved(i, ax, l), z)) == (second(p, u).at)(project(i, z)) by {
        let j = i.update(n, 0);
        assert forall|a: int| 0 <= a < z.len() implies 0 <= #[trigger] j[a] < z[a] by {
            assert(0 <= i[a] < full[a]);
        }
        assert(in_range(j, z));
        lemma_moved_in_range(j, z, ax, l);
        lemma_moved_in_range(i, full, ax, l);
        assert forall|a: int| 0 <= a < z.len() implies #[trigger] project(i, z)[a] == j[a]
            && project(moved(i, ax, l), z)[a] == moved(j, ax, l)[a] by {
            assert(0 <= j[a] < z[a]);
            assert(0 <= moved(j, ax, l)[a] < z[a]);
        }
        assert(project(i, z) =~= j);
        assert(project(moved(i, ax, l), z) =~= moved(j, ax, l));
    }
    like_zip(p, kind, t, u, full, z, ax, l);
}

/// An element-wise operation with a shared array that does not depend on the row or the
/// position: a number, or a row of numbers for the last axis.
pub proof fn like_zip_shared<E>(
    p: Pair<E>,
    kind: Kind,
    t: Term,
    u: Term,
    s: Seq<int>,
    z: Seq<int>,
    ax: int,
    l: Link,
)
    requires
        is_zip(kind),
        is_like(p, t, s, ax, l),
        is_shared(p, u, u, z),
        z.len() == 0 || z.len() == 1 && ax < s.len() - 1 && z[0] == s.last(),
    ensures
        is_like(p, binary(kind, t, u), s, ax, l),
        is_like(p, binary(kind, u, t), s, ax, l),
{
    reveal(is_shared);
    assert(1 <= ax < s.len()) by {
        reveal(is_like);
    }
    assert forall|i: Seq<int>| #[trigger] in_range(i, s) && (l.keep)(i[0], i[ax]) implies (first(
        p,
        u,
    ).at)(project(moved(i, ax, l), z)) == (second(p, u).at)(project(i, z)) by {
        assert(project(moved(i, ax, l), z) =~= project(i, z));
    }
    like_zip(p, kind, t, u, s, z, ax, l);
}

/// An element-wise operation with a table `[1, 1, t, d]` of the positions, the same in
/// both programs.
pub proof fn like_zip_table<E>(
    p: Pair<E>,
    kind: Kind,
    t: Term,
    u: Term,
    s: Seq<int>,
    l: Link,
)
    requires
        is_zip(kind),
        s.len() == 4,
        is_like(p, t, s, 2, l),
        is_part(p, u, u, seq![1, 1, s[2], s[3]], seq![1, 1, s[2], s[3]], seq![0, 0, 0, 0]),
        stays(l),
    ensures
        is_like(p, binary(kind, t, u), s, 2, l),
{
    reveal(is_part);
    let z = seq![1, 1, s[2], s[3]];
    assert forall|i: Seq<int>| #[trigger] in_range(i, s) && (l.keep)(i[0], i[2]) implies (first(
        p,
        u,
    ).at)(project(moved(i, 2, l), z)) == (second(p, u).at)(project(i, z)) by {
        assert(moved(i, 2, l) =~= i);
        let j = project(i, z);
        assert(0 <= i[2] < s[2] && 0 <= i[3] < s[3]);
        assert(in_range(j, z));
        assert(shifted(j, seq![0, 0, 0, 0]) =~= j);
    }
    like_zip(p, kind, t, u, s, z, 2, l);
}

/// The elements along the last axis.
proof fn lemma_last_line<E>(x: Val<E>, y: Val<E>, ax: int, l: Link, i: Seq<int>)
    requires
        is_linked(x, y, ax, l),
        ax < y.shape.len() - 1,
        i.len() == y.shape.len(),
        forall|a: int| 0 <= a < i.len() - 1 ==> 0 <= #[trigger] i[a] < y.shape[a],
        (l.keep)(i[0], i[ax]),
    ensures
        line(x, i.len() - 1, moved(i, ax, l)) == line(y, i.len() - 1, i),
{
    let n = i.len() - 1;
    assert forall|c: int| 0 <= c < y.shape[n] implies (x.at)(
        #[trigger] moved(i, ax, l).update(n, c),
    ) == (y.at)(i.update(n, c)) by {
        let j = i.update(n, c);
        assert forall|a: int| 0 <= a < j.len() implies 0 <= #[trigger] j[a] < y.shape[a] by {
            if a < n {
                assert(0 <= i[a] < y.shape[a]);
            }
        }
        assert(in_range(j, y.shape));
        assert(moved(i, ax, l).update(n, c) =~= moved(j, ax, l));
    }
    assert(line(x, n, moved(i, ax, l)) =~= line(y, n, i));
}

/// A product with the transpose of a shared matrix.
pub proof fn like_linear<E>(
    p: Pair<E>,
    t: Term,
    w: Term,
    s: Seq<int>,
    from: int,
    to: int,
    ax: int,
    l: Link,
)
    requires
        is_like(p, t, s.push(from), ax, l),
        ax < s.len(),
        is_shared(p, w, w, seq![to, from]),
        to >= 0,
    ensures
        is_like(p, binary(Kind::Matmul, t, unary(Kind::Transpose, w)), s.push(to), ax, l),
{
    let wt = unary(Kind::Transpose, w);
    shared_transpose(p, w, w, to, from);
    reveal(is_like);
    reveal(is_shared);
    lemma_value2(p.ar, p.e1, Kind::Matmul, t, wt);
    lemma_value2(p.ar, p.e2, Kind::Matmul, t, wt);
    lemma_result2(p.ar, p.e1, Kind::Matmul, first(p, t), first(p, wt));
    lemma_result2(p.ar, p.e2, Kind::Matmul, second(p, t), second(p, wt));
    let (x, y) = (first(p, t), second(p, t));
    let (full, out) = (s.push(from), s.push(to));
    assert(full.drop_last() =~= s);
    assert forall|i: Seq<int>| #[trigger] in_range(i, out) && (l.keep)(i[0], i[ax]) implies line(
        x,
        i.len() - 1,
        moved(i, ax, l),
    ) == line(y, i.len() - 1, i) && moved(i, ax, l).last() == i.last() && line(
        first(p, wt),
        0,
        seq![0, i.last()],
    ) == line(second(p, wt), 0, seq![0, i.last()]) by {
        assert forall|a: int| 0 <= a < i.len() - 1 implies 0 <= #[trigger] i[a] < full[a] by {
            assert(0 <= i[a] < out[a]);
        }
        lemma_last_line(x, y, ax, l, i);
        let c = seq![0, i.last()];
        assert(0 <= i[i.len() - 1] < out[out.len() - 1]);
        assert(c[1] == i.last());
        lemma_same_line(first(p, wt), second(p, wt), 0, c);
    }
    assert forall|a: int| 0 <= a < out.len() implies 0 <= #[trigger] out[a] by {
        if a < s.len() {
            assert(out[a] == full[a]);
        }
    }
    assert(out[ax] == full[ax]);
}

/// A mean over the last axis.
pub proof fn like_mean_last<E>(p: Pair<E>, t: Term, s: Seq<int>, d: int, ax: int, l: Link)
    requires
        is_like(p, t, s.push(d), ax, l),
        ax < s.len(),
    ensures
        is_like(p, unary(Kind::Mean { axis: -1i32, keep: true }, t), s.push(1), ax, l),
{
    reveal(is_like);
    let kind = Kind::Mean { axis: -1i32, keep: true };
    lemma_value1(p.ar, p.e1, kind, t);
    lemma_value1(p.ar, p.e2, kind, t);
    lemma_result1(p.ar, p.e1, kind, first(p, t));
    lemma_result1(p.ar, p.e2, kind, second(p, t));
    let (full, out) = (s.push(d), s.push(1));
    let n = s.len() as int;
    assert(full.update(n, 1) =~= out);
    assert forall|i: Seq<int>| #[trigger] in_range(i, out) && (l.keep)(i[0], i[ax]) implies line(
        first(p, t),
        n,
        moved(i, ax, l),
    ) == line(second(p, t), n, i) by {
        assert forall|a: int| 0 <= a < i.len() - 1 implies 0 <= #[trigger] i[a] < full[a] by {
            assert(0 <= i[a] < out[a]);
        }
        lemma_last_line(first(p, t), second(p, t), ax, l, i);
    }
    assert forall|a: int| 0 <= a < out.len() implies 0 <= #[trigger] out[a] by {
        if a < n {
            assert(out[a] == full[a]);
        }
    }
    assert(out[ax] == full[ax]);
}

/// A normalisation with shared weights.
pub proof fn like_rms<E>(p: Pair<E>, kind: Kind, t: Term, w: Term, s: Seq<int>, ax: int, l: Link)
    requires
        kind is FastRmsNorm,
        is_like(p, t, s, ax, l),
        ax < s.len() - 1,
        is_shared(p, w, w, seq![s.last()]),
    ensures
        is_like(p, binary(kind, t, w), s, ax, l),
{
    reveal(is_like);
    reveal(is_shared);
    lemma_value2(p.ar, p.e1, kind, t, w);
    lemma_value2(p.ar, p.e2, kind, t, w);
    lemma_result2(p.ar, p.e1, kind, first(p, t), first(p, w));
    lemma_result2(p.ar, p.e2, kind, second(p, t), second(p, w));
    lemma_same_line(first(p, w), second(p, w), 0, seq![0]);
    assert forall|i: Seq<int>| #[trigger] in_range(i, s) && (l.keep)(i[0], i[ax]) implies line(
        first(p, t),
        s.len() - 1,
        moved(i, ax, l),
    ) == line(second(p, t), s.len() - 1, i) && moved(i, ax, l).last() == i.last() by {
        assert forall|a: int| 0 <= a < i.len() - 1 implies 0 <= #[trigger] i[a] < s[a] by {}
        lemma_last_line(first(p, t), second(p, t), ax, l, i);
    }
}

/// A part of the last axis.
pub proof fn like_slice_last<E>(
    p: Pair<E>,
    t: Term,
    s: Seq<int>,
    d: int,
    from: i32,
    to: i32,
    ax: int,
    l: Link,
)
    requires
        is_like(p, t, s.push(d), ax, l),
        ax < s.len(),
        0 <= from <= to <= d,
    ensures
        is_like(p, unary(Kind::SliceLast { from, to }, t), s.push(to - from), ax, l),
{
    reveal(is_like);
    let kind = Kind::SliceLast { from, to };
    lemma_value1(p.ar, p.e1, kind, t);
    lemma_value1(p.ar, p.e2, kind, t);
    lemma_result1(p.ar, p.e1, kind, first(p, t));
    lemma_result1(p.ar, p.e2, kind, second(p, t));
    let (full, out) = (s.push(d), s.push(to - from));
    let n = s.len() as int;
    assert(full.drop_last() =~= s);
    assert forall|i: Seq<int>| #[trigger] in_range(i, out) && (l.keep)(i[0], i[ax]) implies (first(
        p,
        t,
    ).at)(moved(i, ax, l).update(n, moved(i, ax, l).last() + from)) == (second(p, t).at)(
        i.update(n, i.last() + from),
    ) by {
        let j = i.update(n, i.last() + from);
        assert forall|a: int| 0 <= a < j.len() implies 0 <= #[trigger] j[a] < full[a] by {
            assert(0 <= i[a] < out[a]);
        }
        assert(in_range(j, full));
        assert(moved(i, ax, l).update(n, moved(i, ax, l).last() + from) =~= moved(j, ax, l));
    }
    assert forall|a: int| 0 <= a < out.len() implies 0 <= #[trigger] out[a] by {
        if a < n {
            assert(out[a] == full[a]);
        }
    }
    assert(out[ax] == full[ax]);
}

/// Two arrays side by side on the last axis.
pub proof fn like_concat_last<E>(
    p: Pair<E>,
    t: Term,
    u: Term,
    s: Seq<int>,
    a: int,
    b: int,
    ax: int,
    l: Link,
)
    requires
        is_like(p, t, s.push(a), ax, l),
        is_like(p, u, s.push(b), ax, l),
        ax < s.len(),
    ensures
        is_like(p, binary(Kind::Concat { axis: -1i32 }, t, u), s.push(a + b), ax, l),
{
    reveal(is_like);
    let kind = Kind::Concat { axis: -1i32 };
    let (sa, sb, out) = (s.push(a), s.push(b), s.push(a + b));
    let n = s.len() as int;
    lemma_value2(p.ar, p.e1, kind, t, u);
    lemma_value2(p.ar, p.e2, kind, t, u);
    assert(0 <= sa[n] && 0 <= sb[n]);
    lemma_result_concat(p.ar, p.e1, -1i32, first(p, t), first(p, u), out);
    lemma_result_concat(p.ar, p.e2, -1i32, second(p, t), second(p, u), out);
    let c = binary(kind, t, u);
    assert forall|i: Seq<int>| #[trigger] in_range(i, out) && (l.keep)(i[0], i[ax]) implies (first(
        p,
        c,
    ).at)(moved(i, ax, l)) == (second(p, c).at)(i) by {
        assert(0 <= i[n] < out[n]);
        if i[n] < a {
            assert forall|k: int| 0 <= k < i.len() implies 0 <= #[trigger] i[k] < sa[k] by {
                assert(0 <= i[k] < out[k]);
            }
            assert(in_range(i, sa));
        } else {
            let j = i.update(n, i[n] - a);
            assert forall|k: int| 0 <= k < j.len() implies 0 <= #[trigger] j[k] < sb[k] by {
                assert(0 <= i[k] < out[k]);
            }
            assert(in_range(j, sb));
            assert(moved(i, ax, l).update(n, i[n] - a) =~= moved(j, ax, l));
        }
    }
    assert forall|k: int| 0 <= k < out.len() implies 0 <= #[trigger] out[k] by {
        if k < n {
            assert(out[k] == sa[k]);
        }
    }
    assert(out[ax] == sa[ax]);
}

/// One list of positions behind another.
pub open spec fn chained(a: Link, n: int, b: Link) -> Link {
    Link {
        keep: |r: int, q: int|
            if q < n {
                (a.keep)(r, q)
            } else {
                (b.keep)(r, q - n)
            },
        to: |q: int|
            if q < n {
                (a.to)(q)
            } else {
                (b.to)(q - n) + n
            },
    }
}

/// The positions of one array behind those of another, on the third of four axes.
pub proof fn like_concat_keys<E>(
    p: Pair<E>,
    t: Term,
    u: Term,
    s: Seq<int>,
    z: Seq<int>,
    la: Link,
    lb: Link,
)
    requires
        s.len() == 4,
        z == s.update(2, z[2]),
        is_like(p, t, s, 2, la),
        is_like(p, u, z, 2, lb),
    ensures
        is_like(
            p,
            binary(Kind::Concat { axis: 2 }, t, u),
            s.update(2, s[2] + z[2]),
            2,
            chained(la, s[2], lb),
        ),
{
    reveal(is_like);
    let kind = Kind::Concat { axis: 2 };
    let out = s.update(2, s[2] + z[2]);
    let l = chained(la, s[2], lb);
    let n = s[2];
    lemma_value2(p.ar, p.e1, kind, t, u);
    lemma_value2(p.ar, p.e2, kind, t, u);
    assert(0 <= s[2] && 0 <= z[2]);
    lemma_result_concat(p.ar, p.e1, 2, first(p, t), first(p, u), out);
    lemma_result_concat(p.ar, p.e2, 2, second(p, t), second(p, u), out);
    let c = binary(kind, t, u);
    assert forall|q: int| 0 <= q < out[2] implies 0 <= #[trigger] (l.to)(q) < out[2] by {
        if q < n {
            assert(0 <= (la.to)(q) < s[2]);
        } else {
            assert(0 <= (lb.to)(q - n) < z[2]);
        }
    }
    assert forall|i: Seq<int>| #[trigger] in_range(i, out) && (l.keep)(i[0], i[2]) implies (first(
        p,
        c,
    ).at)(moved(i, 2, l)) == (second(p, c).at)(i) by {
        assert(0 <= i[2] < out[2]);
        if i[2] < n {
            assert forall|k: int| 0 <= k < i.len() implies 0 <= #[trigger] i[k] < s[k] by {
                assert(0 <= i[k] < out[k]);
            }
            assert(in_range(i, s));
            assert(0 <= (la.to)(i[2]) < s[2]);
            assert(moved(i, 2, l) == moved(i, 2, la));
        } else {
            let j = i.update(2, i[2] - n);
            assert forall|k: int| 0 <= k < j.len() implies 0 <= #[trigger] j[k] < z[k] by {
                assert(0 <= i[k] < out[k]);
            }
            assert(in_range(j, z));
            assert(0 <= (lb.to)(j[2]) < z[2]);
            assert(moved(i, 2, l)[2] == (lb.to)(i[2] - n) + n);
            assert(moved(i, 2, l).update(2, moved(i, 2, l)[2] - n) =~= moved(j, 2, lb));
        }
    }
    assert forall|k: int| 0 <= k < out.len() implies 0 <= #[trigger] out[k] by {
        assert(0 <= s[k]);
    }
}

/// Heads repeated, on the second of four axes.
pub proof fn like_repeat<E>(p: Pair<E>, t: Term, s: Seq<int>, count: i32, l: Link)
    requires
        s.len() == 4,
        count > 0,
        is_like(p, t, s, 2, l),
    ensures
        is_like(p, unary(Kind::Repeat { count, axis: 1 }, t), s.update(1, s[1] * count), 2, l),
{
    reveal(is_like);
    let kind = Kind::Repeat { count, axis: 1 };
    lemma_value1(p.ar, p.e1, kind, t);
    lemma_value1(p.ar, p.e2, kind, t);
    lemma_result1(p.ar, p.e1, kind, first(p, t));
    lemma_result1(p.ar, p.e2, kind, second(p, t));
    let n = s[1];
    let out = s.update(1, n * count);
    assert forall|i: Seq<int>| #[trigger] in_range(i, out) && (l.keep)(i[0], i[2]) implies (first(
        p,
        t,
    ).at)(moved(i, 2, l).update(1, moved(i, 2, l)[1] / count as int)) == (second(p, t).at)(
        i.update(1, i[1] / count as int),
    ) by {
        let j = i.update(1, i[1] / count as int);
        assert(0 <= i[1] < out[1]);
        let (q, c) = (i[1], count as int);
        assert(0 <= q / c < n) by (nonlinear_arith)
            requires
                0 <= q < n * c,
                c > 0,
        ;
        assert forall|a: int| 0 <= a < j.len() implies 0 <= #[trigger] j[a] < s[a] by {
            assert(0 <= i[a] < out[a]);
        }
        assert(in_range(j, s));
        assert(moved(i, 2, l).update(1, moved(i, 2, l)[1] / count as int) =~= moved(j, 2, l));
    }
    assert(0 <= s[1]);
    assert(0 <= n * count) by (nonlinear_arith)
        requires
            n >= 0,
            count > 0,
    ;
    assert forall|a: int| 0 <= a < out.len() implies 0 <= #[trigger] out[a] by {
        assert(0 <= s[a]);
    }
}

} // verus!
