//! Windows under sums and attention, where what lies behind a window adds nothing.

use crate::graph::{Kind, Num};
use crate::meaning::{element4, ignores_padding, in_range, kept_keys, key_at, line, project};
use crate::meaning::{result, total, zero, Arithmetic, Val};
use crate::shapes::{axis_of, is_axis, lemma_stretched_into};
use crate::windows::{is_window, lemma_line, lemma_project, lemma_result1, lemma_result4};
use crate::windows::{lies_in, shifted, stretches};
use vstd::prelude::*;

verus! {

/// Whether an index, counted from a window's beginning, lies behind the window along
/// axis `k` and within it along all others.
pub open spec fn is_behind(i: Seq<int>, great: Seq<int>, small: Seq<int>, k: int) -> bool {
    &&& i.len() == small.len()
    &&& small[k] <= i[k] < great[k]
    &&& forall|a: int| 0 <= a < i.len() && a != k ==> 0 <= #[trigger] i[a] < small[a]
}

/// Whether there is nothing but zeros behind a window along axis `k`.
pub open spec fn fades<E>(ar: Arithmetic<E>, x: Val<E>, y: Val<E>, off: Seq<int>, k: int) -> bool {
    forall|i: Seq<int>| #[trigger]
        is_behind(i, x.shape, y.shape, k) ==> (x.at)(shifted(i, off)) == zero(ar)
}

/// Whether a mask hides every key behind a window along axis `k`.
pub open spec fn is_hidden<E>(
    ar: Arithmetic<E>,
    x: Val<E>,
    y: Val<E>,
    off: Seq<int>,
    k: int,
) -> bool {
    forall|i: Seq<int>| #[trigger]
        is_behind(i, x.shape, y.shape, k) ==> (ar.hides)((x.at)(shifted(i, off)))
}

/// Zeros at the end leave a sum as it is.
pub proof fn lemma_total<E>(ar: Arithmetic<E>, s: Seq<E>, t: Seq<E>)
    requires
        ignores_padding(ar),
        t.len() <= s.len(),
        forall|c: int| 0 <= c < t.len() ==> #[trigger] s[c] == t[c],
        forall|c: int| t.len() <= c < s.len() ==> #[trigger] s[c] == zero(ar),
    ensures
        total(ar, s) == total(ar, t),
    decreases s.len(),
{
    if s.len() > t.len() {
        assert(s[s.len() - 1] == zero(ar));
        lemma_total(ar, s.drop_last(), t);
    } else {
        assert(s =~= t);
    }
}

/// A sum along an axis that the window has from its beginning, with zeros behind.
pub proof fn window_sum<E>(
    ar: Arithmetic<E>,
    e1: spec_fn(Kind) -> Val<E>,
    e2: spec_fn(Kind) -> Val<E>,
    axis: i32,
    x: Val<E>,
    y: Val<E>,
    off: Seq<int>,
)
    requires
        ignores_padding(ar),
        is_window(x, y, off),
        is_axis(axis, off.len()),
        off[axis_of(axis, off.len())] == 0,
        fades(ar, x, y, off, axis_of(axis, off.len())),
    ensures
        ({
            let kind = Kind::Sum { axis, keep: false };
            let k = axis_of(axis, off.len());
            &&& is_window(
                result(ar, e1, kind, seq![x]),
                result(ar, e2, kind, seq![y]),
                off.remove(k),
            )
            &&& result(ar, e1, kind, seq![x]).shape == x.shape.remove(k)
            &&& result(ar, e2, kind, seq![y]).shape == y.shape.remove(k)
        }),
{
    let kind = Kind::Sum { axis, keep: false };
    let k = axis_of(axis, off.len());
    lemma_result1(ar, e1, kind, x);
    lemma_result1(ar, e2, kind, y);
    let (s, new) = (y.shape.remove(k), off.remove(k));
    assert forall|i: Seq<int>| #[trigger] in_range(i, s) implies total(
        ar,
        line(x, k, shifted(i, new).insert(k, 0)),
    ) == total(ar, line(y, k, i.insert(k, 0))) by {
        let j = i.insert(k, 0);
        assert(shifted(i, new).insert(k, 0) =~= shifted(j, off));
        let (p, q) = (line(x, k, shifted(j, off)), line(y, k, j));
        assert forall|a: int| 0 <= a < j.len() && a != k implies 0 <= #[trigger] j[a]
            < y.shape[a] by {
            if a < k {
                assert(0 <= i[a] < s[a]);
            } else {
                assert(0 <= i[a - 1] < s[a - 1]);
            }
        }
        assert(0 <= off[k] && off[k] + y.shape[k] <= x.shape[k]);
        assert forall|c: int| 0 <= c < q.len() implies #[trigger] p[c] == q[c] by {
            assert(in_range(j.update(k, c), y.shape));
            assert(shifted(j, off).update(k, c) =~= shifted(j.update(k, c), off));
        }
        assert forall|c: int| q.len() <= c < p.len() implies #[trigger] p[c] == zero(ar) by {
            assert(is_behind(j.update(k, c), x.shape, y.shape, k));
            assert(shifted(j, off).update(k, c) =~= shifted(j.update(k, c), off));
        }
        lemma_total(ar, p, q);
    }
    assert forall|a: int| 0 <= a < new.len() implies 0 <= #[trigger] new[a] && 0 <= s[a] && new[a]
        + s[a] <= x.shape.remove(k)[a] by {
        let c = if a < k {
            a
        } else {
            a + 1
        };
        assert(new[a] == off[c] && s[a] == y.shape[c] && x.shape.remove(k)[a] == x.shape[c]);
    }
}

/// The keys that a query keeps are those of the window.
proof fn lemma_kept<E>(
    ar: Arithmetic<E>,
    k1: Val<E>,
    v1: Val<E>,
    m1: Val<E>,
    k2: Val<E>,
    v2: Val<E>,
    m2: Val<E>,
    off: Seq<int>,
    group: int,
    heads: int,
    c1: Seq<int>,
    c2: Seq<int>,
    i: Seq<int>,
    n: int,
)
    requires
        off.len() == 4,
        off[1] == 0,
        off[2] == 0,
        off[3] == 0,
        is_window(k1, k2, off),
        is_window(v1, v2, off),
        is_window(m1, m2, off),
        is_hidden(ar, m1, m2, off, 3),
        k1.shape[3] == k2.shape[3],
        v1.shape[3] == v2.shape[3],
        v1.shape[2] == k1.shape[2],
        v2.shape[2] == k2.shape[2],
        k2.shape[0] == v2.shape[0] == c2[0],
        k2.shape[1] == v2.shape[1] == heads,
        c1.len() == 4,
        lies_in(c2, c1, off),
        c1[3] == k1.shape[2],
        c2[3] == k2.shape[2],
        m1.shape[3] == c1[3],
        m2.shape[3] == c2[3],
        stretches(m1.shape, m2.shape, off, c1, c2, off),
        group > 0,
        i.len() == 4,
        0 <= i[0] < c2[0],
        0 <= i[1] < c2[1],
        c2[1] <= heads * group,
        0 <= i[2] < c2[2],
        0 <= n <= k1.shape[2],
        k2.shape[2] >= 1,
    ensures
        kept_keys(ar, k1, v1, m1, group, shifted(i, off), n) == kept_keys(
            ar,
            k2,
            v2,
            m2,
            group,
            i,
            if n < k2.shape[2] {
                n
            } else {
                k2.shape[2]
            },
        ),
    decreases n,
{
    if n > 0 {
        let u = n - 1;
        lemma_kept(ar, k1, v1, m1, k2, v2, m2, off, group, heads, c1, c2, i, u);
        let im = shifted(i, off);
        let (a, b) = (key_at(k1, v1, m1, group, im, u), key_at(k2, v2, m2, group, i, u));
        let (ask1, ask2) = (seq![im[0], im[1], im[2], u], seq![i[0], i[1], i[2], u]);
        if n <= k2.shape[2] {
            let at = seq![i[0], i[1] / group, u, 0];
            let (head, p) = (i[1] / group, i[1]);
            assert(0 <= head < heads) by (nonlinear_arith)
                requires
                    head == p / group,
                    0 <= p < heads * group,
                    group > 0,
            ;
            assert(seq![im[0], im[1] / group, u, 0] =~= shifted(at, off));
            lemma_line(k1, k2, off, 3, at);
            lemma_line(v1, v2, off, 3, at);
            assert(in_range(ask2, c2));
            assert(ask1 =~= shifted(ask2, off));
            lemma_project(m1.shape, m2.shape, off, c1, c2, off, ask2);
            assert(a == b);
        } else {
            let back = project(ask2.update(3, 0), m2.shape).update(3, u);
            assert(in_range(ask2.update(3, 0), c2));
            lemma_project(m1.shape, m2.shape, off, c1, c2, off, ask2.update(3, 0));
            assert(shifted(ask2.update(3, 0), off) =~= ask1.update(3, 0));
            assert(is_behind(back, m1.shape, m2.shape, 3));
            assert forall|t: int| 0 <= t < 4 implies #[trigger] project(ask1, m1.shape)[t]
                == shifted(back, off)[t] by {
                let before = project(ask1.update(3, 0), m1.shape);
                assert(before == shifted(project(ask2.update(3, 0), m2.shape), off));
                if t < 3 {
                    assert(before[t] == project(ask1, m1.shape)[t]);
                }
            }
            assert(project(ask1, m1.shape) =~= shifted(back, off));
        }
    }
}

/// Attention over keys that the window has from their beginning, all others hidden.
pub proof fn window_attention<E>(
    ar: Arithmetic<E>,
    e1: spec_fn(Kind) -> Val<E>,
    e2: spec_fn(Kind) -> Val<E>,
    num: Num,
    q1: Val<E>,
    q2: Val<E>,
    k1: Val<E>,
    k2: Val<E>,
    v1: Val<E>,
    v2: Val<E>,
    m1: Val<E>,
    m2: Val<E>,
    sq: Seq<int>,
    tq: Seq<int>,
    sk: Seq<int>,
    tk: Seq<int>,
    r: int,
)
    requires
        is_window(q1, q2, seq![r, 0, 0, 0]),
        is_window(k1, k2, seq![r, 0, 0, 0]),
        is_window(v1, v2, seq![r, 0, 0, 0]),
        is_window(m1, m2, seq![r, 0, 0, 0]),
        is_hidden(ar, m1, m2, seq![r, 0, 0, 0], 3),
        q1.shape == sq,
        q2.shape == tq,
        k1.shape == sk,
        v1.shape == sk,
        k2.shape == tk,
        v2.shape == tk,
        sq.len() == 4,
        sk.len() == 4,
        tk.len() == 4,
        tq == seq![1, sq[1], tq[2], sq[3]],
        sk == seq![sq[0], sk[1], sk[2], sq[3]],
        tk == seq![1, sk[1], tk[2], sq[3]],
        sk[1] > 0,
        sq[1] > 0,
        sq[1] % sk[1] == 0,
        tk[2] >= 1,
        stretches(
            m1.shape,
            m2.shape,
            seq![r, 0, 0, 0],
            seq![sq[0], sq[1], sq[2], sk[2]],
            seq![1, sq[1], tq[2], tk[2]],
            seq![r, 0, 0, 0],
        ),
        m1.shape.len() == 4,
        m1.shape[3] == sk[2],
        m2.shape[3] == tk[2],
    ensures
        ({
            let r1 = result(ar, e1, Kind::Attention(num), seq![q1, k1, v1, m1]);
            let r2 = result(ar, e2, Kind::Attention(num), seq![q2, k2, v2, m2]);
            &&& is_window(r1, r2, seq![r, 0, 0, 0])
            &&& r1.shape == sq
            &&& r2.shape == tq
        }),
{
    let kind = Kind::Attention(num);
    let off = seq![r, 0, 0, 0];
    lemma_result4(ar, e1, kind, q1, k1, v1, m1);
    lemma_result4(ar, e2, kind, q2, k2, v2, m2);
    let (c1, c2) = (
        seq![sq[0], sq[1], sq[2], sk[2]],
        seq![1, sq[1], tq[2], tk[2]],
    );
    assert forall|a: int| 0 <= a < m1.shape.len() implies #[trigger] m1.shape[a] == 1
        || m1.shape[a] == c1[a] by {}
    assert forall|a: int| 0 <= a < m2.shape.len() implies #[trigger] m2.shape[a] == 1
        || m2.shape[a] == c2[a] by {
        assert(m1.shape[a] == 1 || m1.shape[a] == c1[a]);
    }
    lemma_stretched_into(c1, m1.shape);
    lemma_stretched_into(c2, m2.shape);
    assert(seq![sq[0], sq[1], sq[2], sk[3]] =~= sq);
    assert(seq![tq[0], tq[1], tq[2], tk[3]] =~= tq);
    assert(off[0] == r && off[1] == 0 && off[2] == 0 && off[3] == 0);
    assert(lies_in(c2, c1, off)) by {
        assert forall|a: int| 0 <= a < 4 implies 0 <= #[trigger] off[a] && 0 <= c2[a] && off[a]
            + c2[a] <= c1[a] by {
            assert(off[a] + tq[a] <= sq[a]);
            assert(off[2] + tk[2] <= sk[2]);
        }
    }
    let (n, g) = (sq[1], sk[1]);
    let group = n / g;
    assert(group > 0 && n == g * group) by (nonlinear_arith)
        requires
            group == n / g,
            g > 0,
            n > 0,
            n % g == 0,
    ;
    assert forall|i: Seq<int>| #[trigger] in_range(i, tq) implies element4(
        ar,
        kind,
        q1,
        k1,
        v1,
        m1,
        shifted(i, off),
    ) == element4(ar, kind, q2, k2, v2, m2, i) by {
        assert(0 <= i[0] < tq[0] && 0 <= i[1] < tq[1] && 0 <= i[2] < tq[2] && 0 <= i[3] < tq[3]);
        lemma_line(q1, q2, off, 3, i);
        assert(off[2] + tk[2] <= sk[2]);
        lemma_kept(ar, k1, v1, m1, k2, v2, m2, off, group, g, c1, c2, i, sk[2]);
    }
}

} // verus!
