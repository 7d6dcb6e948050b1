//! What the steps of the encoder-decoder compute, by the weights that they read.

use crate::graph::{binary, dec, leaf, literal, unary, Dims, Kind, LayerType, Num, Part, REST, Side};
use crate::graph::{Slot, Stack, Term, Ty, WeightKey};
use crate::kalm::{angles_term, cos_term, embedded_term, embedding, gelu_term, half_of};
use crate::kalm::{invfreq_term, norm_term, prj_term, repeat_kv_term, rms_term, rope_term, sin_term};
use crate::kalm::{times_term, weight};
use crate::kalm_config::KalmConfig;
use crate::links::{at1, at2, at3, at4};
use crate::meaning::{in_range, lemma_value0, lemma_value1, lemma_value2, line, project, value};
use crate::meaning::{Arithmetic, Val};
use crate::shapes::{extents, known_extents, lemma_product, lemma_reshaped, lemma_reshaped_rest};
use crate::shapes::{lemma_stretched_into, lemma_stretched_scalar, stretched};
use crate::types::{joint, Elem};
use crate::values::{embedded_rows, head_of, heads_at, leaf_at, lemma_line4, linear_at, list};
use crate::values::{number_at, row2, row3, row4, times, weight_of};
use crate::window_moves::{lemma_flat, lemma_reshape_at};
use crate::windows::{is_map, is_zip, lemma_result1, lemma_result2, lemma_result_concat};
use vstd::prelude::*;

verus! {

/// The squares of a row in 32-bit reals.
pub open spec fn squares_of<E>(ar: Arithmetic<E>, x: Seq<E>) -> Seq<E> {
    Seq::new(
        x.len(),
        |k: int|
            (ar.bin)(
                Kind::Multiply,
                (ar.cast)(Elem::F32, x[k]),
                (ar.cast)(Elem::F32, x[k]),
            ),
    )
}

/// A row normalised by its root mean square in 32-bit reals, scaled by one more than the
/// weights, in elements of type `e`.
pub open spec fn norm_row<E>(ar: Arithmetic<E>, e: Elem, x: Seq<E>, w: Seq<E>) -> Seq<E> {
    let wide = |v: E| (ar.cast)(Elem::F32, v);
    let inv = (ar.un)(
        Kind::Rsqrt,
        (ar.bin)(Kind::Add, (ar.mean)(squares_of(ar, x)), (ar.num)(Num::Eps)),
    );
    Seq::new(
        x.len(),
        |j: int|
            (ar.cast)(
                e,
                (ar.bin)(
                    Kind::Multiply,
                    (ar.bin)(Kind::Multiply, wide(x[j]), inv),
                    (ar.bin)(Kind::Add, (ar.num)(dec(1, 0)), wide(w[j])),
                ),
            ),
    )
}

/// A row behind its activation, in elements of type `e`.
pub open spec fn gelu_row<E>(ar: Arithmetic<E>, e: Elem, x: Seq<E>) -> Seq<E> {
    Seq::new(
        x.len(),
        |j: int|
            ({
                let v = x[j];
                let prod = |a: E, b: E| (ar.bin)(Kind::Multiply, a, b);
                let cubic = prod(prod(prod(v, v), v), (ar.num)(dec(44715, -6)));
                let inner = prod(
                    (ar.bin)(Kind::Add, v, cubic),
                    (ar.num)(dec(7978845608028654, -16)),
                );
                let slope = (ar.bin)(Kind::Add, (ar.un)(Kind::Tanh, inner), (ar.num)(dec(1, 0)));
                (ar.cast)(e, prod(prod(v, (ar.num)(dec(5, -1))), slope))
            }),
    )
}

/// A head turned by the cosines and sines of its position, in elements of type `e`.
pub open spec fn rope_row<E>(
    ar: Arithmetic<E>,
    e: Elem,
    x: Seq<E>,
    cos: Seq<E>,
    sin: Seq<E>,
) -> Seq<E> {
    let half = x.len() as int / 2;
    Seq::new(
        x.len(),
        |j: int|
            (ar.cast)(
                e,
                (ar.bin)(
                    Kind::Add,
                    (ar.bin)(Kind::Multiply, x[j], cos[j]),
                    (ar.bin)(
                        Kind::Multiply,
                        if j < half {
                            (ar.bin)(Kind::Multiply, x[j + half], (ar.num)(dec(-1, 0)))
                        } else {
                            x[j - half]
                        },
                        sin[j],
                    ),
                ),
            ),
    )
}

/// One wave of the angles of a position, in short reals: every frequency times the
/// position, all of them twice.
pub open spec fn wave_row<E>(ar: Arithmetic<E>, wave: Kind, freqs: Seq<E>, p: int) -> Seq<E> {
    let half = freqs.len() as int;
    Seq::new(
        2 * freqs.len(),
        |d: int|
            (ar.cast)(
                Elem::Bf16,
                (ar.un)(
                    wave,
                    (ar.bin)(
                        Kind::Multiply,
                        (ar.whole)(p),
                        freqs[if d < half {
                            d
                        } else {
                            d - half
                        }],
                    ),
                ),
            ),
    )
}

/// An index of an array is read where it stands.
pub proof fn lemma_in_place(i: Seq<int>, s: Seq<int>)
    requires
        in_range(i, s),
    ensures
        project(i, s) == i,
{
    assert forall|a: int| 0 <= a < s.len() implies #[trigger] project(i, s)[a] == i[a] by {
        assert(0 <= i[a] < s[a]);
    }
    assert(project(i, s) =~= i);
}

/// Element-wise operations on two arrays of the same extents, and with a number.
pub proof fn zip_at<E>(
    ar: Arithmetic<E>,
    env: spec_fn(Kind) -> Val<E>,
    kind: Kind,
    t: Term,
    u: Term,
    s: Seq<int>,
)
    requires
        is_zip(kind),
        value(ar, env, t).shape == s,
        value(ar, env, u).shape == s || value(ar, env, u).shape == Seq::<int>::empty(),
    ensures
        ({
            let (x, z) = (value(ar, env, t), value(ar, env, u));
            let y = value(ar, env, binary(kind, t, u));
            &&& y.shape == s
            &&& forall|i: Seq<int>| #[trigger]
                in_range(i, s) ==> (y.at)(i) == (ar.bin)(
                    kind,
                    (x.at)(i),
                    (z.at)(
                        if z.shape == s {
                            i
                        } else {
                            seq![]
                        },
                    ),
                )
        }),
{
    let (x, z) = (value(ar, env, t), value(ar, env, u));
    lemma_value2(ar, env, kind, t, u);
    lemma_result2(ar, env, kind, x, z);
    lemma_stretched_into(s, z.shape);
    assert forall|i: Seq<int>| #[trigger] in_range(i, s) implies project(i, s) == i && project(
        i,
        Seq::<int>::empty(),
    ) == Seq::<int>::empty() by {
        lemma_in_place(i, s);
        assert(project(i, Seq::<int>::empty()) =~= Seq::<int>::empty());
    }
}

proof fn cast_at<E>(ar: Arithmetic<E>, env: spec_fn(Kind) -> Val<E>, ty: Ty, t: Term)
    ensures
        ({
            let (x, y) = (value(ar, env, t), value(ar, env, unary(Kind::Cast(ty), t)));
            &&& y.shape == x.shape
            &&& y.elem == crate::types::elem_of(ty)
            &&& forall|i: Seq<int>| #[trigger]
                (y.at)(i) == (ar.cast)(crate::types::elem_of(ty), (x.at)(i))
        }),
{
    lemma_value1(ar, env, Kind::Cast(ty), t);
    lemma_result1(ar, env, Kind::Cast(ty), value(ar, env, t));
}

pub proof fn map_at<E>(ar: Arithmetic<E>, env: spec_fn(Kind) -> Val<E>, kind: Kind, t: Term)
    requires
        is_map(kind),
        !(kind is Cast),
    ensures
        ({
            let (x, y) = (value(ar, env, t), value(ar, env, unary(kind, t)));
            &&& y.shape == x.shape
            &&& forall|i: Seq<int>| #[trigger] (y.at)(i) == (ar.un)(kind, (x.at)(i))
        }),
{
    lemma_value1(ar, env, kind, t);
    lemma_result1(ar, env, kind, value(ar, env, t));
}

proof fn cast_like_at<E>(ar: Arithmetic<E>, env: spec_fn(Kind) -> Val<E>, t: Term, u: Term)
    ensures
        ({
            let (x, z) = (value(ar, env, t), value(ar, env, u));
            let y = value(ar, env, binary(Kind::CastLike, t, u));
            &&& y.shape == x.shape
            &&& y.elem == z.elem
            &&& forall|i: Seq<int>| #[trigger] (y.at)(i) == (ar.cast)(z.elem, (x.at)(i))
        }),
{
    lemma_value2(ar, env, Kind::CastLike, t, u);
    lemma_result2(ar, env, Kind::CastLike, value(ar, env, t), value(ar, env, u));
}

/// A normalisation along the last axis, whatever the others are.
proof fn norm_at<E>(
    ar: Arithmetic<E>,
    env: spec_fn(Kind) -> Val<E>,
    t: Term,
    w: Term,
    base: Seq<int>,
    d: int,
)
    requires
        0 <= d,
        value(ar, env, t).shape == base.push(d),
        value(ar, env, w).shape == seq![d],
    ensures
        ({
            let (x, m) = (value(ar, env, t), value(ar, env, w));
            let y = value(ar, env, rms_term(t, w));
            &&& y.shape == base.push(d)
            &&& y.elem == x.elem
            &&& forall|i: Seq<int>| #[trigger]
                in_range(i, base.push(d)) ==> (y.at)(i) == norm_row(
                    ar,
                    x.elem,
                    line(x, base.len() as int, i),
                    list(m),
                )[i.last()]
        }),
{
    let (x, m) = (value(ar, env, t), value(ar, env, w));
    let n = base.len() as int;
    let (s, thin) = (base.push(d), base.push(1));
    let wide = Kind::Cast(Ty::F32);
    let xf = unary(wide, t);
    cast_at(ar, env, Ty::F32, t);
    let sq = binary(Kind::Multiply, xf, xf);
    zip_at(ar, env, Kind::Multiply, xf, xf, s);
    let mean = Kind::Mean { axis: -1i32, keep: true };
    let ms = unary(mean, sq);
    lemma_value1(ar, env, mean, sq);
    lemma_result1(ar, env, mean, value(ar, env, sq));
    assert(s.update(n, 1) =~= thin);
    let eps = leaf(Kind::Const(Num::Eps));
    number_at(ar, env, Num::Eps);
    let e = binary(Kind::Add, ms, eps);
    zip_at(ar, env, Kind::Add, ms, eps, thin);
    let inv = unary(Kind::Rsqrt, e);
    map_at(ar, env, Kind::Rsqrt, e);
    let prod = binary(Kind::Multiply, xf, inv);
    lemma_value2(ar, env, Kind::Multiply, xf, inv);
    lemma_result2(ar, env, Kind::Multiply, value(ar, env, xf), value(ar, env, inv));
    lemma_stretched_into(s, thin);
    let wf = unary(wide, w);
    cast_at(ar, env, Ty::F32, w);
    let one = literal(1, 0);
    number_at(ar, env, dec(1, 0));
    let scale = binary(Kind::Add, one, wf);
    lemma_value2(ar, env, Kind::Add, one, wf);
    lemma_result2(ar, env, Kind::Add, value(ar, env, one), value(ar, env, wf));
    lemma_stretched_scalar(seq![d]);
    let scaled = binary(Kind::Multiply, prod, scale);
    lemma_value2(ar, env, Kind::Multiply, prod, scale);
    lemma_result2(ar, env, Kind::Multiply, value(ar, env, prod), value(ar, env, scale));
    lemma_stretched_into(s, seq![d]);
    cast_like_at(ar, env, scaled, t);
    let y = value(ar, env, rms_term(t, w));
    assert forall|i: Seq<int>| #[trigger] in_range(i, s) implies (y.at)(i) == norm_row(
        ar,
        x.elem,
        line(x, n, i),
        list(m),
    )[i.last()] by {
        let row = line(x, n, i);
        let squares = squares_of(ar, row);
        assert(0 <= i[n] < s[n]);
        let z = i.update(n, 0);
        assert forall|a: int| 0 <= a < thin.len() implies 0 <= #[trigger] z[a] < thin[a] by {
            assert(0 <= i[a] < s[a]);
        }
        assert(in_range(z, thin));
        assert(line(value(ar, env, sq), n, z) =~= squares) by {
            assert forall|c: int| 0 <= c < d implies #[trigger] line(value(ar, env, sq), n, z)[c]
                == squares[c] by {
                let j = z.update(n, c);
                assert(j =~= i.update(n, c));
                assert forall|a: int| 0 <= a < s.len() implies 0 <= #[trigger] j[a] < s[a] by {
                    assert(0 <= i[a] < s[a]);
                }
                assert(in_range(j, s));
            }
        }
        lemma_in_place(i, s);
        assert(project(i, thin) =~= z) by {
            assert forall|a: int| 0 <= a < thin.len() implies #[trigger] project(i, thin)[a]
                == z[a] by {
                assert(0 <= z[a] < thin[a]);
            }
        }
        let last = seq![i[n]];
        assert(i.update(n, i[n]) =~= i);
        assert(row[i[n]] == (x.at)(i));
        if d == 1 {
            assert(project(i, seq![d]) =~= last);
        } else {
            assert(project(i, seq![d]) =~= last);
        }
        assert(project(last, seq![d]) =~= last);
        assert(project(last, Seq::<int>::empty()) =~= Seq::<int>::empty());
        assert(list(m)[i[n]] == (m.at)(last));
        let root = (ar.un)(
            Kind::Rsqrt,
            (ar.bin)(Kind::Add, (ar.mean)(squares), (ar.num)(Num::Eps)),
        );
        assert(thin.len() != 0);
        assert((value(ar, env, ms).at)(z) == (ar.mean)(squares));
        assert((value(ar, env, inv).at)(z) == root);
        let wide_x = (ar.cast)(Elem::F32, (x.at)(i));
        assert((value(ar, env, prod).at)(i) == (ar.bin)(Kind::Multiply, wide_x, root));
        let by_one = (ar.bin)(
            Kind::Add,
            (ar.num)(dec(1, 0)),
            (ar.cast)(Elem::F32, (m.at)(last)),
        );
        assert((value(ar, env, scale).at)(last) == by_one);
        assert((value(ar, env, scaled).at)(i) == (ar.bin)(
            Kind::Multiply,
            (ar.bin)(Kind::Multiply, wide_x, root),
            by_one,
        ));
    }
}

/// A normalisation of rows.
pub proof fn norm_rows<E>(
    ar: Arithmetic<E>,
    env: spec_fn(Kind) -> Val<E>,
    t: Term,
    w: Term,
    a: int,
    b: int,
    d: int,
)
    requires
        0 <= a,
        0 <= b,
        0 <= d,
        value(ar, env, t).shape == seq![a, b, d],
        value(ar, env, w).shape == seq![d],
    ensures
        ({
            let (x, y) = (value(ar, env, t), value(ar, env, rms_term(t, w)));
            &&& y.shape == seq![a, b, d]
            &&& y.elem == x.elem
            &&& forall|r: int, q: int|
                0 <= r < a && 0 <= q < b ==> #[trigger] row3(y, r, q) == norm_row(
                    ar,
                    x.elem,
                    row3(x, r, q),
                    list(value(ar, env, w)),
                )
        }),
{
    let base = seq![a, b];
    let s = seq![a, b, d];
    assert(base.push(d) =~= s);
    norm_at(ar, env, t, w, base, d);
    let (x, y) = (value(ar, env, t), value(ar, env, rms_term(t, w)));
    assert forall|r: int, q: int| 0 <= r < a && 0 <= q < b implies #[trigger] row3(y, r, q)
        == norm_row(ar, x.elem, row3(x, r, q), list(value(ar, env, w))) by {
        let want = norm_row(ar, x.elem, row3(x, r, q), list(value(ar, env, w)));
        assert forall|j: int| 0 <= j < d implies #[trigger] row3(y, r, q)[j] == want[j] by {
            let i = seq![r, q, j];
            assert(in_range(i, s));
            assert(line(x, 2, i) =~= row3(x, r, q)) by {
                assert forall|c: int| 0 <= c < d implies #[trigger] line(x, 2, i)[c] == row3(
                    x,
                    r,
                    q,
                )[c] by {
                    assert(i.update(2, c) =~= seq![r, q, c]);
                }
            }
        }
        assert(row3(y, r, q) =~= want);
    }
}

/// A normalisation of heads.
pub proof fn norm_heads<E>(
    ar: Arithmetic<E>,
    env: spec_fn(Kind) -> Val<E>,
    t: Term,
    w: Term,
    a: int,
    n: int,
    b: int,
    d: int,
)
    requires
        0 <= a,
        0 <= n,
        0 <= b,
        0 <= d,
        value(ar, env, t).shape == seq![a, n, b, d],
        value(ar, env, w).shape == seq![d],
    ensures
        ({
            let (x, y) = (value(ar, env, t), value(ar, env, rms_term(t, w)));
            &&& y.shape == seq![a, n, b, d]
            &&& y.elem == x.elem
            &&& forall|r: int, h: int, q: int|
                0 <= r < a && 0 <= h < n && 0 <= q < b ==> #[trigger] row4(y, r, h, q) == norm_row(
                    ar,
                    x.elem,
                    row4(x, r, h, q),
                    list(value(ar, env, w)),
                )
        }),
{
    let base = seq![a, n, b];
    let s = seq![a, n, b, d];
    assert(base.push(d) =~= s);
    norm_at(ar, env, t, w, base, d);
    let (x, y) = (value(ar, env, t), value(ar, env, rms_term(t, w)));
    assert forall|r: int, h: int, q: int|
        0 <= r < a && 0 <= h < n && 0 <= q < b implies #[trigger] row4(y, r, h, q) == norm_row(
        ar,
        x.elem,
        row4(x, r, h, q),
        list(value(ar, env, w)),
    ) by {
        let want = norm_row(ar, x.elem, row4(x, r, h, q), list(value(ar, env, w)));
        assert forall|j: int| 0 <= j < d implies #[trigger] row4(y, r, h, q)[j] == want[j] by {
            let i = seq![r, h, q, j];
            assert(in_range(i, s));
            lemma_line4(x, r, h, q, j);
        }
        assert(row4(y, r, h, q) =~= want);
    }
}

/// The activation of rows.
pub proof fn gelu_rows<E>(
    ar: Arithmetic<E>,
    env: spec_fn(Kind) -> Val<E>,
    t: Term,
    a: int,
    b: int,
    d: int,
)
    requires
        0 <= a,
        0 <= b,
        0 <= d,
        value(ar, env, t).shape == seq![a, b, d],
    ensures
        ({
            let (x, y) = (value(ar, env, t), value(ar, env, gelu_term(t)));
            &&& y.shape == seq![a, b, d]
            &&& y.elem == x.elem
            &&& forall|r: int, q: int|
                0 <= r < a && 0 <= q < b ==> #[trigger] row3(y, r, q) == gelu_row(
                    ar,
                    x.elem,
                    row3(x, r, q),
                )
        }),
{
    let s = seq![a, b, d];
    let mul = Kind::Multiply;
    number_at(ar, env, dec(44715, -6));
    number_at(ar, env, dec(7978845608028654, -16));
    number_at(ar, env, dec(5, -1));
    number_at(ar, env, dec(1, 0));
    zip_at(ar, env, mul, t, t, s);
    let x2 = binary(mul, t, t);
    zip_at(ar, env, mul, x2, t, s);
    let x3 = binary(mul, x2, t);
    let k = literal(44715, -6);
    zip_at(ar, env, mul, x3, k, s);
    let c = binary(mul, x3, k);
    zip_at(ar, env, Kind::Add, t, c, s);
    let inner = binary(Kind::Add, t, c);
    let m = literal(7978845608028654, -16);
    zip_at(ar, env, mul, inner, m, s);
    let e = binary(mul, inner, m);
    map_at(ar, env, Kind::Tanh, e);
    let th = unary(Kind::Tanh, e);
    let one = literal(1, 0);
    zip_at(ar, env, Kind::Add, th, one, s);
    let half = literal(5, -1);
    zip_at(ar, env, mul, t, half, s);
    let (g, h) = (binary(mul, t, half), binary(Kind::Add, th, one));
    zip_at(ar, env, mul, g, h, s);
    cast_like_at(ar, env, binary(mul, g, h), t);
    let (x, y) = (value(ar, env, t), value(ar, env, gelu_term(t)));
    assert forall|r: int, q: int| 0 <= r < a && 0 <= q < b implies #[trigger] row3(y, r, q)
        == gelu_row(ar, x.elem, row3(x, r, q)) by {
        let want = gelu_row(ar, x.elem, row3(x, r, q));
        assert forall|j: int| 0 <= j < d implies #[trigger] row3(y, r, q)[j] == want[j] by {
            let i = seq![r, q, j];
            assert(in_range(i, s));
            assert(row3(x, r, q)[j] == (x.at)(i));
        }
        assert(row3(y, r, q) =~= want);
    }
}

/// The array of a slot is the one that the program is given for it.
pub proof fn weight_at<E>(ar: Arithmetic<E>, env: spec_fn(Kind) -> Val<E>, side: Side, slot: Slot)
    ensures
        ({
            let x = value(ar, env, weight(side, slot));
            let w = weight_of(env, Stack::Kalm(side), slot);
            &&& x.shape == w.shape
            &&& x.elem == w.elem
            &&& list(x) == list(w)
            &&& forall|c: int| #[trigger] row2(x, c) == row2(w, c)
            &&& forall|v: Seq<E>| #[trigger] times(ar, v, x) == times(ar, v, w)
        }),
{
    let key = WeightKey { stack: Stack::Kalm(side), slot };
    leaf_at(ar, env, Kind::Weight(key));
    let (x, w) = (value(ar, env, weight(side, slot)), weight_of(env, Stack::Kalm(side), slot));
    assert(list(x) =~= list(w));
    assert forall|c: int| #[trigger] row2(x, c) == row2(w, c) by {
        assert(row2(x, c) =~= row2(w, c));
    }
    assert forall|v: Seq<E>| #[trigger] times(ar, v, x) == times(ar, v, w) by {
        assert forall|c: int| 0 <= c < times(ar, v, x).len() implies #[trigger] times(ar, v, x)[c]
            == times(ar, v, w)[c] by {
            assert(row2(x, c) == row2(w, c));
        }
        assert(times(ar, v, x) =~= times(ar, v, w));
    }
}

/// A normalisation divides every row by the root of its mean square, with the
/// configured epsilon, and scales it by one more than the weight of its slot and stack;
/// it computes in 32-bit reals and gives elements of the row's own type.
pub proof fn law_norm_scales_by_one_more_than_its_weight<E>(
    ar: Arithmetic<E>,
    env: spec_fn(Kind) -> Val<E>,
    x: Term,
    side: Side,
    slot: Slot,
    a: int,
    b: int,
    d: int,
)
    requires
        0 <= a,
        0 <= b,
        0 <= d,
        value(ar, env, x).shape == seq![a, b, d],
        weight_of(env, Stack::Kalm(side), slot).shape == seq![d],
    ensures
        value(ar, env, norm_term(x, side, slot)).shape == seq![a, b, d],
        value(ar, env, norm_term(x, side, slot)).elem == value(ar, env, x).elem,
        forall|r: int, q: int, j: int|
            0 <= r < a && 0 <= q < b && 0 <= j < d ==> #[trigger] at3(
                value(ar, env, norm_term(x, side, slot)),
                r,
                q,
                j,
            ) == ({
                let w = env(Kind::Weight(WeightKey { stack: Stack::Kalm(side), slot }));
                let wide = |v: E| (ar.cast)(Elem::F32, v);
                let mean = (ar.mean)(
                    Seq::new(
                        d as nat,
                        |k: int|
                            (ar.bin)(
                                Kind::Multiply,
                                wide(at3(value(ar, env, x), r, q, k)),
                                wide(at3(value(ar, env, x), r, q, k)),
                            ),
                    ),
                );
                let root = (ar.un)(
                    Kind::Rsqrt,
                    (ar.bin)(Kind::Add, mean, (ar.num)(Num::Eps)),
                );
                (ar.cast)(
                    value(ar, env, x).elem,
                    (ar.bin)(
                        Kind::Multiply,
                        (ar.bin)(Kind::Multiply, wide(at3(value(ar, env, x), r, q, j)), root),
                        (ar.bin)(Kind::Add, (ar.num)(dec(1, 0)), wide(at1(w, j))),
                    ),
                )
            }),
        forall|r: int, q: int|
            0 <= r < a && 0 <= q < b ==> #[trigger] row3(
                value(ar, env, norm_term(x, side, slot)),
                r,
                q,
            ) == norm_row(
                ar,
                value(ar, env, x).elem,
                row3(value(ar, env, x), r, q),
                list(env(Kind::Weight(WeightKey { stack: Stack::Kalm(side), slot }))),
            ),
{
    weight_at(ar, env, side, slot);
    norm_rows(ar, env, x, weight(side, slot), a, b, d);
    let y = value(ar, env, norm_term(x, side, slot));
    let w = env(Kind::Weight(WeightKey { stack: Stack::Kalm(side), slot }));
    let wide = |v: E| (ar.cast)(Elem::F32, v);
    assert forall|r: int, q: int| #[trigger]
        squares_of(ar, row3(value(ar, env, x), r, q)) == Seq::new(
        d as nat,
        |k: int|
            (ar.bin)(
                Kind::Multiply,
                wide(at3(value(ar, env, x), r, q, k)),
                wide(at3(value(ar, env, x), r, q, k)),
            ),
    ) by {
        assert(squares_of(ar, row3(value(ar, env, x), r, q)) =~= Seq::new(
            d as nat,
            |k: int|
                (ar.bin)(
                    Kind::Multiply,
                    wide(at3(value(ar, env, x), r, q, k)),
                    wide(at3(value(ar, env, x), r, q, k)),
                ),
        ));
    }
    assert forall|r: int, q: int, j: int|
        0 <= r < a && 0 <= q < b && 0 <= j < d implies #[trigger] at3(y, r, q, j) == norm_row(
        ar,
        value(ar, env, x).elem,
        row3(value(ar, env, x), r, q),
        list(w),
    )[j] && list(w)[j] == at1(w, j) && row3(value(ar, env, x), r, q)[j] == at3(
        value(ar, env, x),
        r,
        q,
        j,
    ) by {
        assert(row3(y, r, q)[j] == at3(y, r, q, j));
    }
}

/// The activation of a number `v` is half of it times one more than the hyperbolic
/// tangent of 0.7978845608028654 times the sum of `v` and 0.044715 times its cube.
pub proof fn law_gelu_by_value<E>(
    ar: Arithmetic<E>,
    env: spec_fn(Kind) -> Val<E>,
    x: Term,
    a: int,
    b: int,
    d: int,
)
    requires
        0 <= a,
        0 <= b,
        0 <= d,
        value(ar, env, x).shape == seq![a, b, d],
    ensures
        forall|r: int, q: int, j: int|
            0 <= r < a && 0 <= q < b && 0 <= j < d ==> #[trigger] at3(
                value(ar, env, gelu_term(x)),
                r,
                q,
                j,
            ) == ({
                let v = at3(value(ar, env, x), r, q, j);
                let prod = |s: E, t: E| (ar.bin)(Kind::Multiply, s, t);
                let cubic = prod(prod(prod(v, v), v), (ar.num)(dec(44715, -6)));
                let inner = prod(
                    (ar.bin)(Kind::Add, v, cubic),
                    (ar.num)(dec(7978845608028654, -16)),
                );
                let slope = (ar.bin)(Kind::Add, (ar.un)(Kind::Tanh, inner), (ar.num)(dec(1, 0)));
                (ar.cast)(
                    value(ar, env, x).elem,
                    prod(prod(v, (ar.num)(dec(5, -1))), slope),
                )
            }),
{
    gelu_rows(ar, env, x, a, b, d);
    let y = value(ar, env, gelu_term(x));
    assert forall|r: int, q: int, j: int|
        0 <= r < a && 0 <= q < b && 0 <= j < d implies #[trigger] at3(y, r, q, j) == gelu_row(
        ar,
        value(ar, env, x).elem,
        row3(value(ar, env, x), r, q),
    )[j] && row3(value(ar, env, x), r, q)[j] == at3(value(ar, env, x), r, q, j) by {
        assert(row3(y, r, q)[j] == at3(y, r, q, j));
    }
}

proof fn lemma_angle_shapes(t: i32, hd: i32)
    requires
        0 < t,
        0 < hd,
        hd as int % 2 == 0,
    ensures
        ({
            let half = hd as int / 2;
            &&& crate::shapes::reshaped(seq![t as int], extents(Dims::D2(t, 1))) == Some(
                seq![t as int, 1],
            )
            &&& crate::shapes::reshaped(seq![half], extents(Dims::D2(1, REST))) == Some(
                seq![1, half],
            )
            &&& crate::shapes::reshaped(
                seq![t as int, hd as int],
                extents(Dims::D4(1, 1, t, REST)),
            ) == Some(seq![1, 1, t as int, hd as int])
            &&& stretched(seq![t as int, 1], seq![1, half]) == Some(seq![t as int, half])
        }),
{
    let half = hd as int / 2;
    lemma_product(t as int, 1, 1, 1);
    assert(extents(Dims::D2(t, 1)) =~= seq![t as int, 1int]);
    lemma_reshaped(seq![t as int], seq![t as int, 1]);
    let open = seq![1int, -1int];
    assert(extents(Dims::D2(1, REST)) =~= open);
    assert(known_extents(open) =~= seq![1int, 1int]);
    lemma_product(1, 1, 1, 1);
    lemma_product(half, 1, 1, 1);
    lemma_reshaped_rest(seq![half], open, 1, half);
    assert(open.update(1, half) =~= seq![1int, half]);
    let wide = seq![1int, 1int, t as int, -1int];
    assert(extents(Dims::D4(1, 1, t, REST)) =~= wide);
    assert(known_extents(wide) =~= seq![1int, 1int, t as int, 1int]);
    lemma_product(1, 1, t as int, 1);
    lemma_product(t as int, hd as int, 1, 1);
    assert(t * hd == (1 * 1 * t * 1) * hd) by (nonlinear_arith);
    lemma_reshaped_rest(seq![t as int, hd as int], wide, 3, hd as int);
    assert(wide.update(3, hd as int) =~= seq![1int, 1int, t as int, hd as int]);
    let (z, zu, o) = (seq![t as int, 1int], seq![1int, half], seq![t as int, half]);
    reveal(stretched);
    assert(stretched(z, zu)->0 =~= o);
}

/// The angles of positions, of a stack's layers of one type.
proof fn angles_at<E>(
    ar: Arithmetic<E>,
    env: spec_fn(Kind) -> Val<E>,
    side: Side,
    lt: LayerType,
    t: i32,
    hd: i32,
)
    requires
        0 < t,
        0 < hd,
        hd as int % 2 == 0,
        env(Kind::InvFreq(side, lt)).shape == seq![hd as int / 2],
    ensures
        ({
            let y = value(ar, env, angles_term(side, lt, t));
            let half = hd as int / 2;
            &&& y.shape == seq![1, 1, t as int, hd as int]
            &&& forall|p: int, d: int|
                0 <= p < t && 0 <= d < hd ==> #[trigger] at4(y, 0, 0, p, d) == (ar.bin)(
                    Kind::Multiply,
                    (ar.whole)(p),
                    at1(
                        env(Kind::InvFreq(side, lt)),
                        if d < half {
                            d
                        } else {
                            d - half
                        },
                    ),
                )
        }),
{
    let half = hd as int / 2;
    lemma_angle_shapes(t, hd);
    let k1 = Kind::Arange { stop: t, step: 1 };
    lemma_value0(ar, env, k1);
    let range = value(ar, env, leaf(k1));
    assert((t + 1 - 1) / 1int == t) by (nonlinear_arith);
    assert(range.shape =~= seq![t as int]);
    let d1 = Dims::D2(t, 1);
    let pos = unary(Kind::Reshape(d1), leaf(k1));
    lemma_value1(ar, env, Kind::Reshape(d1), leaf(k1));
    lemma_result1(ar, env, Kind::Reshape(d1), range);
    let freqs = leaf(Kind::InvFreq(side, lt));
    leaf_at(ar, env, Kind::InvFreq(side, lt));
    let vf = value(ar, env, freqs);
    let d2 = Dims::D2(1, REST);
    let inv = unary(Kind::Reshape(d2), freqs);
    lemma_value1(ar, env, Kind::Reshape(d2), freqs);
    lemma_result1(ar, env, Kind::Reshape(d2), vf);
    let fr = binary(Kind::Multiply, pos, inv);
    lemma_value2(ar, env, Kind::Multiply, pos, inv);
    lemma_result2(ar, env, Kind::Multiply, value(ar, env, pos), value(ar, env, inv));
    let vr = value(ar, env, fr);
    let join = Kind::Concat { axis: -1i32 };
    let both = binary(join, fr, fr);
    lemma_value2(ar, env, join, fr, fr);
    let wide = seq![t as int, hd as int];
    lemma_result_concat(ar, env, -1i32, vr, vr, wide);
    let d4 = Dims::D4(1, 1, t, REST);
    lemma_value1(ar, env, Kind::Reshape(d4), both);
    lemma_result1(ar, env, Kind::Reshape(d4), value(ar, env, both));
    let y = value(ar, env, angles_term(side, lt, t));
    let to = seq![1, 1, t as int, hd as int];
    assert forall|p: int, d: int| 0 <= p < t && 0 <= d < hd implies #[trigger] at4(y, 0, 0, p, d)
        == (ar.bin)(
        Kind::Multiply,
        (ar.whole)(p),
        at1(
            env(Kind::InvFreq(side, lt)),
            if d < half {
                d
            } else {
                d - half
            },
        ),
    ) by {
        let c = if d < half {
            d
        } else {
            d - half
        };
        let (i, j) = (seq![0, 0, p, d], seq![p, d]);
        assert(in_range(j, wide));
        lemma_flat(i, to);
        lemma_flat(j, wide);
        assert(((0 * 1 + 0) * t + p) * hd + d == p * hd + d) by (nonlinear_arith);
        lemma_reshape_at(ar, env, d4, value(ar, env, both), to, i, j);
        let o = seq![p, c];
        if d < half {
            assert(j =~= o);
        } else {
            assert(j.update(1, d - half) =~= o);
        }
        let (zp, zi) = (seq![t as int, 1int], seq![1int, half]);
        let (jp, ji) = (seq![p, 0], seq![0, c]);
        assert(project(o, zp) =~= jp);
        assert(project(o, zi) =~= ji);
        let one = seq![p];
        assert(in_range(one, seq![t as int]));
        lemma_flat(jp, zp);
        lemma_flat(one, seq![t as int]);
        assert(p * 1 + 0 == p);
        lemma_reshape_at(ar, env, d1, range, zp, jp, one);
        let two = seq![c];
        assert(in_range(two, seq![half]));
        lemma_flat(ji, zi);
        lemma_flat(two, seq![half]);
        assert(0 * half + c == c);
        lemma_reshape_at(ar, env, d2, vf, zi, ji, two);
        assert(1 * p == p);
    }
}

/// The tables of cosines and sines of a stack's layers of one type hold, for every
/// position, that of the position times each of the frequencies of that stack and type,
/// all of them twice.
pub proof fn law_tables_turn_by_their_own_frequencies<E>(
    ar: Arithmetic<E>,
    env: spec_fn(Kind) -> Val<E>,
    side: Side,
    lt: LayerType,
    t: i32,
    hd: i32,
)
    requires
        0 < t,
        0 < hd,
        hd as int % 2 == 0,
        env(Kind::InvFreq(side, lt)).shape == seq![hd as int / 2],
    ensures
        value(ar, env, cos_term(side, lt, t)).shape == seq![1, 1, t as int, hd as int],
        value(ar, env, sin_term(side, lt, t)).shape == seq![1, 1, t as int, hd as int],
        forall|p: int, d: int|
            0 <= p < t && 0 <= d < hd ==> #[trigger] at4(
                value(ar, env, cos_term(side, lt, t)),
                0,
                0,
                p,
                d,
            ) == ({
                let c = if d < hd as int / 2 {
                    d
                } else {
                    d - hd as int / 2
                };
                let f = at1(env(Kind::InvFreq(side, lt)), c);
                (ar.cast)(
                    Elem::Bf16,
                    (ar.un)(Kind::Cos, (ar.bin)(Kind::Multiply, (ar.whole)(p), f)),
                )
            }),
        forall|p: int, d: int|
            0 <= p < t && 0 <= d < hd ==> #[trigger] at4(
                value(ar, env, sin_term(side, lt, t)),
                0,
                0,
                p,
                d,
            ) == ({
                let c = if d < hd as int / 2 {
                    d
                } else {
                    d - hd as int / 2
                };
                let f = at1(env(Kind::InvFreq(side, lt)), c);
                (ar.cast)(
                    Elem::Bf16,
                    (ar.un)(Kind::Sin, (ar.bin)(Kind::Multiply, (ar.whole)(p), f)),
                )
            }),
        forall|p: int|
            0 <= p < t ==> #[trigger] row4(value(ar, env, cos_term(side, lt, t)), 0, 0, p)
                == wave_row(ar, Kind::Cos, list(env(Kind::InvFreq(side, lt))), p),
        forall|p: int|
            0 <= p < t ==> #[trigger] row4(value(ar, env, sin_term(side, lt, t)), 0, 0, p)
                == wave_row(ar, Kind::Sin, list(env(Kind::InvFreq(side, lt))), p),
{
    angles_at(ar, env, side, lt, t, hd);
    let a = angles_term(side, lt, t);
    map_at(ar, env, Kind::Cos, a);
    map_at(ar, env, Kind::Sin, a);
    cast_at(ar, env, Ty::Bf16, unary(Kind::Cos, a));
    cast_at(ar, env, Ty::Bf16, unary(Kind::Sin, a));
    let f = env(Kind::InvFreq(side, lt));
    let (c, n) = (value(ar, env, cos_term(side, lt, t)), value(ar, env, sin_term(side, lt, t)));
    let half = hd as int / 2;
    assert forall|p: int, d: int| 0 <= p < t && 0 <= d < hd implies #[trigger] at4(c, 0, 0, p, d)
        == (ar.cast)(Elem::Bf16, (ar.un)(Kind::Cos, at4(value(ar, env, a), 0, 0, p, d))) by {}
    assert forall|p: int, d: int| 0 <= p < t && 0 <= d < hd implies #[trigger] at4(n, 0, 0, p, d)
        == (ar.cast)(Elem::Bf16, (ar.un)(Kind::Sin, at4(value(ar, env, a), 0, 0, p, d))) by {}
    assert forall|p: int| 0 <= p < t implies #[trigger] row4(c, 0, 0, p) == wave_row(
        ar,
        Kind::Cos,
        list(f),
        p,
    ) by {
        let want = wave_row(ar, Kind::Cos, list(f), p);
        assert forall|d: int| 0 <= d < hd implies #[trigger] row4(c, 0, 0, p)[d] == want[d] by {
            assert(row4(c, 0, 0, p)[d] == at4(c, 0, 0, p, d));
        }
        assert(row4(c, 0, 0, p) =~= want);
    }
    assert forall|p: int| 0 <= p < t implies #[trigger] row4(n, 0, 0, p) == wave_row(
        ar,
        Kind::Sin,
        list(f),
        p,
    ) by {
        let want = wave_row(ar, Kind::Sin, list(f), p);
        assert forall|d: int| 0 <= d < hd implies #[trigger] row4(n, 0, 0, p)[d] == want[d] by {
            assert(row4(n, 0, 0, p)[d] == at4(n, 0, 0, p, d));
        }
        assert(row4(n, 0, 0, p) =~= want);
    }
}

/// Heads turned by tables of the positions.
pub proof fn rope_rows<E>(
    ar: Arithmetic<E>,
    env: spec_fn(Kind) -> Val<E>,
    x: Term,
    c: Term,
    s: Term,
    b: int,
    n: int,
    t: int,
    hd: i32,
)
    requires
        0 <= b,
        0 <= n,
        0 <= t,
        0 < hd,
        hd as int % 2 == 0,
        value(ar, env, x).shape == seq![b, n, t, hd as int],
        value(ar, env, c).shape == seq![1, 1, t, hd as int],
        value(ar, env, s).shape == seq![1, 1, t, hd as int],
    ensures
        ({
            let y = value(ar, env, rope_term(x, c, s, hd));
            &&& y.shape == seq![b, n, t, hd as int]
            &&& y.elem == value(ar, env, x).elem
            &&& forall|r: int, h: int, q: int|
                0 <= r < b && 0 <= h < n && 0 <= q < t ==> #[trigger] row4(y, r, h, q) == rope_row(
                    ar,
                    value(ar, env, x).elem,
                    row4(value(ar, env, x), r, h, q),
                    row4(value(ar, env, c), 0, 0, q),
                    row4(value(ar, env, s), 0, 0, q),
                )
        }),
{
    let half = half_of(hd);
    assert(half * 2 == hd && half == hd as int / 2);
    let full = seq![b, n, t, hd as int];
    let part = seq![b, n, t, half as int];
    let table = seq![1, 1, t, hd as int];
    let (vx, vc, vs) = (value(ar, env, x), value(ar, env, c), value(ar, env, s));
    let (k1, k2) = (
        Kind::SliceLast { from: 0, to: half },
        Kind::SliceLast { from: half, to: hd },
    );
    let (x1, x2) = (unary(k1, x), unary(k2, x));
    lemma_value1(ar, env, k1, x);
    lemma_result1(ar, env, k1, vx);
    lemma_value1(ar, env, k2, x);
    lemma_result1(ar, env, k2, vx);
    assert(full.drop_last().push(half as int) =~= part);
    let minus = literal(-1, 0);
    number_at(ar, env, dec(-1, 0));
    let neg = binary(Kind::Multiply, x2, minus);
    zip_at(ar, env, Kind::Multiply, x2, minus, part);
    let join = Kind::Concat { axis: -1i32 };
    let rot = binary(join, neg, x1);
    lemma_value2(ar, env, join, neg, x1);
    lemma_result_concat(ar, env, -1i32, value(ar, env, neg), value(ar, env, x1), full);
    let (mc, ms) = (binary(Kind::Multiply, x, c), binary(Kind::Multiply, rot, s));
    lemma_value2(ar, env, Kind::Multiply, x, c);
    lemma_result2(ar, env, Kind::Multiply, vx, vc);
    lemma_value2(ar, env, Kind::Multiply, rot, s);
    lemma_result2(ar, env, Kind::Multiply, value(ar, env, rot), vs);
    lemma_stretched_into(full, table);
    let sum = binary(Kind::Add, mc, ms);
    zip_at(ar, env, Kind::Add, mc, ms, full);
    cast_like_at(ar, env, sum, x);
    let y = value(ar, env, rope_term(x, c, s, hd));
    assert forall|r: int, h: int, q: int|
        0 <= r < b && 0 <= h < n && 0 <= q < t implies #[trigger] row4(y, r, h, q) == rope_row(
        ar,
        vx.elem,
        row4(vx, r, h, q),
        row4(vc, 0, 0, q),
        row4(vs, 0, 0, q),
    ) by {
        let want = rope_row(
            ar,
            vx.elem,
            row4(vx, r, h, q),
            row4(vc, 0, 0, q),
            row4(vs, 0, 0, q),
        );
        assert forall|j: int| 0 <= j < hd implies #[trigger] row4(y, r, h, q)[j] == want[j] by {
            let i = seq![r, h, q, j];
            assert(in_range(i, full));
            lemma_in_place(i, full);
            let o = seq![0, 0, q, j];
            assert(project(i, table) =~= o);
            assert((value(ar, env, mc).at)(i) == (ar.bin)(
                Kind::Multiply,
                at4(vx, r, h, q, j),
                at4(vc, 0, 0, q, j),
            ));
            let turned = if j < half {
                (ar.bin)(Kind::Multiply, at4(vx, r, h, q, j + half), (ar.num)(dec(-1, 0)))
            } else {
                at4(vx, r, h, q, j - half)
            };
            assert((value(ar, env, rot).at)(i) == turned) by {
                if j < half {
                    assert(in_range(i, part));
                    assert(part.len() != 0);
                    assert(i.update(3, i.last() + half) =~= seq![r, h, q, j + half]);
                } else {
                    let k = i.update(3, j - half);
                    assert(k =~= seq![r, h, q, j - half]);
                    assert(k.update(3, k.last() + 0) =~= k);
                }
            }
            assert((value(ar, env, ms).at)(i) == (ar.bin)(
                Kind::Multiply,
                turned,
                at4(vs, 0, 0, q, j),
            ));
        }
        assert(row4(y, r, h, q) =~= want);
    }
}

/// A rotation takes the numbers half a head apart together: each number times the
/// cosine, plus the other times the sine, which counts negative for the first half.
pub proof fn law_rope_turns_halves<E>(
    ar: Arithmetic<E>,
    env: spec_fn(Kind) -> Val<E>,
    x: Term,
    c: Term,
    s: Term,
    b: int,
    n: int,
    t: int,
    hd: i32,
)
    requires
        0 <= b,
        0 <= n,
        0 <= t,
        0 < hd,
        hd as int % 2 == 0,
        value(ar, env, x).shape == seq![b, n, t, hd as int],
        value(ar, env, c).shape == seq![1, 1, t, hd as int],
        value(ar, env, s).shape == seq![1, 1, t, hd as int],
    ensures
        forall|r: int, h: int, q: int, j: int|
            0 <= r < b && 0 <= h < n && 0 <= q < t && 0 <= j < hd ==> #[trigger] at4(
                value(ar, env, rope_term(x, c, s, hd)),
                r,
                h,
                q,
                j,
            ) == ({
                let half = hd as int / 2;
                let v = value(ar, env, x);
                let other = if j < half {
                    (ar.bin)(Kind::Multiply, at4(v, r, h, q, j + half), (ar.num)(dec(-1, 0)))
                } else {
                    at4(v, r, h, q, j - half)
                };
                (ar.cast)(
                    v.elem,
                    (ar.bin)(
                        Kind::Add,
                        (ar.bin)(
                            Kind::Multiply,
                            at4(v, r, h, q, j),
                            at4(value(ar, env, c), 0, 0, q, j),
                        ),
                        (ar.bin)(Kind::Multiply, other, at4(value(ar, env, s), 0, 0, q, j)),
                    ),
                )
            }),
{
    rope_rows(ar, env, x, c, s, b, n, t, hd);
    let (v, y) = (value(ar, env, x), value(ar, env, rope_term(x, c, s, hd)));
    assert forall|r: int, h: int, q: int, j: int|
        0 <= r < b && 0 <= h < n && 0 <= q < t && 0 <= j < hd implies #[trigger] at4(y, r, h, q, j)
        == rope_row(
        ar,
        v.elem,
        row4(v, r, h, q),
        row4(value(ar, env, c), 0, 0, q),
        row4(value(ar, env, s), 0, 0, q),
    )[j] by {
        assert(row4(y, r, h, q)[j] == at4(y, r, h, q, j));
    }
}

/// The frequency table of a stack's layers of one type: entry `i` is one over the theta
/// of that stack and type to the power of `2 i` over the width of a head, over the
/// factor of that stack and type.
pub proof fn law_frequencies_are_those_of_their_layers<E>(
    ar: Arithmetic<E>,
    env: spec_fn(Kind) -> Val<E>,
    side: Side,
    lt: LayerType,
    hd: i32,
)
    requires
        0 < hd,
    ensures
        value(ar, env, invfreq_term(side, lt, hd)).shape == seq![(hd + 1) / 2],
        forall|i: int|
            0 <= i < (hd + 1) / 2 ==> #[trigger] at1(value(ar, env, invfreq_term(side, lt, hd)), i)
                == (ar.bin)(
                Kind::Divide,
                (ar.un)(
                    Kind::Reciprocal,
                    (ar.bin)(
                        Kind::Power,
                        (ar.num)(Num::Theta(side, lt)),
                        (ar.bin)(
                            Kind::Divide,
                            (ar.whole)(2 * i),
                            (ar.num)(dec(hd as int, 0)),
                        ),
                    ),
                ),
                (ar.num)(Num::Factor(side, lt)),
            ),
{
    let half = (hd + 1) / 2;
    let s = seq![half];
    let k = Kind::Arange { stop: hd, step: 2 };
    lemma_value0(ar, env, k);
    let range = value(ar, env, leaf(k));
    assert((hd + 2 - 1) / 2int == half);
    assert(range.shape =~= s);
    let width = literal(hd as int, 0);
    number_at(ar, env, dec(hd as int, 0));
    let exponent = binary(Kind::Divide, leaf(k), width);
    zip_at(ar, env, Kind::Divide, leaf(k), width, s);
    let theta = leaf(Kind::Const(Num::Theta(side, lt)));
    number_at(ar, env, Num::Theta(side, lt));
    let base = binary(Kind::Power, theta, exponent);
    lemma_value2(ar, env, Kind::Power, theta, exponent);
    lemma_result2(ar, env, Kind::Power, value(ar, env, theta), value(ar, env, exponent));
    lemma_stretched_scalar(s);
    let inv = unary(Kind::Reciprocal, base);
    map_at(ar, env, Kind::Reciprocal, base);
    let factor = leaf(Kind::Const(Num::Factor(side, lt)));
    number_at(ar, env, Num::Factor(side, lt));
    zip_at(ar, env, Kind::Divide, inv, factor, s);
    let y = value(ar, env, invfreq_term(side, lt, hd));
    assert forall|i: int| 0 <= i < half implies #[trigger] at1(y, i) == (ar.bin)(
        Kind::Divide,
        (ar.un)(
            Kind::Reciprocal,
            (ar.bin)(
                Kind::Power,
                (ar.num)(Num::Theta(side, lt)),
                (ar.bin)(Kind::Divide, (ar.whole)(2 * i), (ar.num)(dec(hd as int, 0))),
            ),
        ),
        (ar.num)(Num::Factor(side, lt)),
    ) by {
        let j = seq![i];
        assert(in_range(j, s));
        lemma_in_place(j, s);
        assert(project(j, Seq::<int>::empty()) =~= Seq::<int>::empty());
        assert(s.len() != 0);
        assert((value(ar, env, exponent).at)(j) == (ar.bin)(
            Kind::Divide,
            (ar.whole)(2 * i),
            (ar.num)(dec(hd as int, 0)),
        ));
    }
}

/// The frequency table of a stack's layers of one type depends on the theta and the
/// factor of that stack and type alone: two readings of a configuration that agree on
/// those two numbers give the same table, whatever they say of other layers.
pub proof fn law_frequencies_depend_on_their_layers_alone<E>(
    a1: Arithmetic<E>,
    a2: Arithmetic<E>,
    env: spec_fn(Kind) -> Val<E>,
    side: Side,
    lt: LayerType,
    hd: i32,
)
    requires
        0 < hd,
        a1.bin == a2.bin,
        a1.un == a2.un,
        a1.whole == a2.whole,
        forall|digits: i64, exp: i32| #[trigger]
            (a1.num)(Num::Dec { digits, exp }) == (a2.num)(Num::Dec { digits, exp }),
        (a1.num)(Num::Theta(side, lt)) == (a2.num)(Num::Theta(side, lt)),
        (a1.num)(Num::Factor(side, lt)) == (a2.num)(Num::Factor(side, lt)),
    ensures
        list(value(a1, env, invfreq_term(side, lt, hd))) == list(
            value(a2, env, invfreq_term(side, lt, hd)),
        ),
{
    law_frequencies_are_those_of_their_layers(a1, env, side, lt, hd);
    law_frequencies_are_those_of_their_layers(a2, env, side, lt, hd);
    let (x, y) = (
        value(a1, env, invfreq_term(side, lt, hd)),
        value(a2, env, invfreq_term(side, lt, hd)),
    );
    assert forall|i: int| 0 <= i < (hd + 1) / 2 implies #[trigger] list(x)[i] == list(y)[i] by {
        assert(at1(x, i) == at1(y, i));
    }
    assert(list(x) =~= list(y));
}

/// A product with a layer's weight, by the stack, the layer and the part that it names.
pub proof fn law_product_reads_its_weight<E>(
    ar: Arithmetic<E>,
    env: spec_fn(Kind) -> Val<E>,
    x: Term,
    side: Side,
    i: usize,
    part: Part,
    a: int,
    b: int,
    from: int,
    to: int,
)
    requires
        0 <= a,
        0 <= b,
        0 <= from,
        0 <= to,
        value(ar, env, x).shape == seq![a, b, from],
        weight_of(env, Stack::Kalm(side), Slot::Layer(i, part)).shape == seq![to, from],
    ensures
        value(ar, env, times_term(x, side, i, part)).shape == seq![a, b, to],
        value(ar, env, times_term(x, side, i, part)).elem == joint(
            value(ar, env, x).elem,
            weight_of(env, Stack::Kalm(side), Slot::Layer(i, part)).elem,
        ),
        forall|r: int, q: int|
            0 <= r < a && 0 <= q < b ==> #[trigger] row3(
                value(ar, env, times_term(x, side, i, part)),
                r,
                q,
            ) == times(
                ar,
                row3(value(ar, env, x), r, q),
                env(
                    Kind::Weight(
                        WeightKey { stack: Stack::Kalm(side), slot: Slot::Layer(i, part) },
                    ),
                ),
            ),
{
    let slot = Slot::Layer(i, part);
    weight_at(ar, env, side, slot);
    let w = weight(side, slot);
    linear_at(ar, env, x, w, a, b, from, to);
    let wt = unary(Kind::Transpose, w);
    lemma_value1(ar, env, Kind::Transpose, w);
    lemma_result1(ar, env, Kind::Transpose, value(ar, env, w));
    lemma_value2(ar, env, Kind::Matmul, x, wt);
    lemma_result2(ar, env, Kind::Matmul, value(ar, env, x), value(ar, env, wt));
}

/// A projection to heads: head `h` of a position is part `h` of its products with the
/// weight of the stack, the layer and the part that it names.
pub proof fn law_projection_reads_its_weight<E>(
    ar: Arithmetic<E>,
    env: spec_fn(Kind) -> Val<E>,
    cfg: &KalmConfig,
    x: Term,
    side: Side,
    i: usize,
    part: Part,
    n: i32,
    b: i32,
    t: i32,
)
    requires
        0 < b,
        0 < n,
        0 < t,
        0 < cfg.hd,
        0 <= cfg.h,
        value(ar, env, x).shape == seq![b as int, t as int, cfg.h as int],
        weight_of(env, Stack::Kalm(side), Slot::Layer(i, part)).shape == seq![
            n * cfg.hd,
            cfg.h as int,
        ],
    ensures
        value(ar, env, prj_term(cfg, x, side, i, part, n, b, t)).shape == seq![
            b as int,
            n as int,
            t as int,
            cfg.hd as int,
        ],
        value(ar, env, prj_term(cfg, x, side, i, part, n, b, t)).elem == joint(
            value(ar, env, x).elem,
            weight_of(env, Stack::Kalm(side), Slot::Layer(i, part)).elem,
        ),
        forall|r: int, h: int, q: int|
            0 <= r < b && 0 <= h < n && 0 <= q < t ==> #[trigger] row4(
                value(ar, env, prj_term(cfg, x, side, i, part, n, b, t)),
                r,
                h,
                q,
            ) == head_of(
                times(
                    ar,
                    row3(value(ar, env, x), r, q),
                    env(
                        Kind::Weight(
                            WeightKey { stack: Stack::Kalm(side), slot: Slot::Layer(i, part) },
                        ),
                    ),
                ),
                h,
                cfg.hd as int,
            ),
        forall|r: int, h: int, q: int, j: int|
            0 <= r < b && 0 <= h < n && 0 <= q < t && 0 <= j < cfg.hd ==> #[trigger] at4(
                value(ar, env, prj_term(cfg, x, side, i, part, n, b, t)),
                r,
                h,
                q,
                j,
            ) == (ar.dot)(
                row3(value(ar, env, x), r, q),
                row2(
                    env(
                        Kind::Weight(
                            WeightKey { stack: Stack::Kalm(side), slot: Slot::Layer(i, part) },
                        ),
                    ),
                    h * cfg.hd + j,
                ),
            ),
{
    let hd = cfg.hd;
    assert(0 <= n * hd) by (nonlinear_arith)
        requires
            0 < n,
            0 < hd,
    ;
    law_product_reads_its_weight(
        ar,
        env,
        x,
        side,
        i,
        part,
        b as int,
        t as int,
        cfg.h as int,
        n * cfg.hd,
    );
    heads_at(ar, env, times_term(x, side, i, part), b, t, n, cfg.hd);
    let y = value(ar, env, prj_term(cfg, x, side, i, part, n, b, t));
    let w = weight_of(env, Stack::Kalm(side), Slot::Layer(i, part));
    assert forall|r: int, h: int, q: int, j: int|
        0 <= r < b && 0 <= h < n && 0 <= q < t && 0 <= j < cfg.hd implies #[trigger] at4(
        y,
        r,
        h,
        q,
        j,
    ) == (ar.dot)(row3(value(ar, env, x), r, q), row2(w, h * cfg.hd + j)) by {
        let c = h * cfg.hd + j;
        assert(0 <= c < n * cfg.hd) by (nonlinear_arith)
            requires
                0 <= h < n,
                0 <= j < cfg.hd,
                c == h * cfg.hd + j,
        ;
        assert(row4(y, r, h, q)[j] == at4(y, r, h, q, j));
        assert(head_of(times(ar, row3(value(ar, env, x), r, q), w), h, cfg.hd as int)[j] == times(
            ar,
            row3(value(ar, env, x), r, q),
            w,
        )[c]);
    }
}

/// Repeated heads: each head of the keys stands for as many query heads as there are.
pub proof fn law_repeated_heads_are_copies<E>(
    ar: Arithmetic<E>,
    env: spec_fn(Kind) -> Val<E>,
    cfg: &KalmConfig,
    x: Term,
    b: int,
    n: int,
    t: int,
)
    requires
        0 <= b,
        0 <= n,
        0 <= t,
        0 < cfg.nh,
        0 <= cfg.hd,
        value(ar, env, x).shape == seq![b, n, t, cfg.hd as int],
    ensures
        value(ar, env, repeat_kv_term(cfg, x)).shape == seq![b, n * cfg.nh, t, cfg.hd as int],
        value(ar, env, repeat_kv_term(cfg, x)).elem == value(ar, env, x).elem,
        forall|r: int, h: int, q: int| #[trigger]
            row4(value(ar, env, repeat_kv_term(cfg, x)), r, h, q) == row4(
                value(ar, env, x),
                r,
                h / cfg.nh as int,
                q,
            ),
{
    let kind = Kind::Repeat { count: cfg.nh, axis: 1 };
    let v = value(ar, env, x);
    lemma_value1(ar, env, kind, x);
    lemma_result1(ar, env, kind, v);
    let y = value(ar, env, repeat_kv_term(cfg, x));
    assert(v.shape.update(1, n * cfg.nh) =~= seq![b, n * cfg.nh, t, cfg.hd as int]);
    assert forall|r: int, h: int, q: int| #[trigger] row4(y, r, h, q) == row4(
        v,
        r,
        h / cfg.nh as int,
        q,
    ) by {
        let want = row4(v, r, h / cfg.nh as int, q);
        assert forall|j: int| 0 <= j < cfg.hd implies #[trigger] row4(y, r, h, q)[j] == want[j] by {
            let i = seq![r, h, q, j];
            assert(i.update(1, i[1] / cfg.nh as int) =~= seq![r, h / cfg.nh as int, q, j]);
        }
        assert(row4(y, r, h, q) =~= want);
    }
}

/// Hidden states begin as the rows of the encoder's embedding weight that the ids name,
/// each number times the scale of embeddings in short reals.
pub proof fn law_states_begin_as_scaled_embeddings<E>(
    ar: Arithmetic<E>,
    env: spec_fn(Kind) -> Val<E>,
    cfg: &KalmConfig,
    ids: Term,
    vocab: int,
    b: i32,
    t: i32,
)
    requires
        0 < b,
        0 < t,
        0 < cfg.h,
        value(ar, env, ids).shape == seq![b as int, t as int],
        weight_of(env, Stack::Kalm(Side::Encoder), Slot::Embedding).shape == seq![
            vocab,
            cfg.h as int,
        ],
    ensures
        value(ar, env, embedded_term(cfg, ids, b, t)).shape == seq![
            b as int,
            t as int,
            cfg.h as int,
        ],
        forall|r: int, q: int, j: int|
            0 <= r < b && 0 <= q < t && 0 <= j < cfg.h ==> #[trigger] at3(
                value(ar, env, embedded_term(cfg, ids, b, t)),
                r,
                q,
                j,
            ) == (ar.bin)(
                Kind::Multiply,
                at2(
                    env(
                        Kind::Weight(
                            WeightKey {
                                stack: Stack::Kalm(Side::Encoder),
                                slot: Slot::Embedding,
                            },
                        ),
                    ),
                    (ar.index)(at2(value(ar, env, ids), r, q)),
                    j,
                ),
                (ar.cast)(Elem::Bf16, (ar.num)(Num::EmbScale)),
            ),
{
    weight_at(ar, env, Side::Encoder, Slot::Embedding);
    let table = embedding();
    embedded_rows(ar, env, ids, table, vocab, b, t, cfg.h);
    let flat = unary(Kind::Reshape(Dims::D1(REST)), ids);
    let e = unary(
        Kind::Reshape(Dims::D3(b, t, cfg.h)),
        binary(Kind::Take { axis: 0 }, table, flat),
    );
    let s = seq![b as int, t as int, cfg.h as int];
    let number = leaf(Kind::Const(Num::EmbScale));
    number_at(ar, env, Num::EmbScale);
    cast_at(ar, env, Ty::Bf16, number);
    let scale = unary(Kind::Cast(Ty::Bf16), number);
    zip_at(ar, env, Kind::Multiply, e, scale, s);
    let y = value(ar, env, embedded_term(cfg, ids, b, t));
    let w = weight_of(env, Stack::Kalm(Side::Encoder), Slot::Embedding);
    assert forall|r: int, q: int, j: int|
        0 <= r < b && 0 <= q < t && 0 <= j < cfg.h implies #[trigger] at3(y, r, q, j) == (ar.bin)(
        Kind::Multiply,
        at2(w, (ar.index)(at2(value(ar, env, ids), r, q)), j),
        (ar.cast)(Elem::Bf16, (ar.num)(Num::EmbScale)),
    ) by {
        let i = seq![r, q, j];
        assert(in_range(i, s));
        assert(s.len() != 0);
        let k = (ar.index)(at2(value(ar, env, ids), r, q));
        assert(row3(value(ar, env, e), r, q) == row2(value(ar, env, table), k));
        assert(row3(value(ar, env, e), r, q)[j] == at3(value(ar, env, e), r, q, j));
        assert(row2(value(ar, env, table), k)[j] == row2(w, k)[j]);
    }
}

} // verus!
