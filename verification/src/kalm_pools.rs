//! Pooled states of a row in the encoder, whatever batch holds it.

use crate::batch::MAX_LEN;
use crate::graph::{binary, dec, literal, unary, Dims, Kind, Term, Ty};
use crate::kalm::{chunk_count, chunk_mask_term, chunk_pad, filled_term, pooled_mask_term};
use crate::kalm::{pooled_term, CHUNK};
use crate::kalm_config::KalmConfig;
use crate::kalm_rows::{are_states, marks_end, seq_at, wide};
use crate::meaning::{ignores_padding, in_range, line, project, value, zero};
use crate::meaning::{lemma_value1, lemma_value2, Arithmetic, Val};
use crate::parts::{first, is_part, is_shared, lemma_cast_at, lemma_zip_at, part_map, part_sum};
use crate::parts::{part_zip, part_zip_number, second, shared_number, Pair};
use crate::shapes::{are_extents, extents, lemma_product, lemma_reshaped, lemma_stretched_into};
use crate::types::Elem;
use crate::window_folds::{drop_marks_column, fold_chunk_marks};
use crate::window_moves::{lemma_flat, lemma_reshape_at};
use crate::window_sums::{fades, is_behind, lemma_total};
use crate::windows::{lemma_result1, lemma_result2, lemma_result_concat, lies_in, shifted, stretches};
use vstd::prelude::*;

verus! {

/// Groups of tokens hold all of them, and no whole group more.
proof fn lemma_chunks(t: i32, w: i32)
    requires
        0 < w <= t <= MAX_LEN,
    ensures
        0 < chunk_count(w as int) <= chunk_count(t as int) <= MAX_LEN,
        chunk_pad(t as int) >= 0,
        chunk_count(t as int) * CHUNK == t + chunk_pad(t as int),
        w <= chunk_count(w as int) * CHUNK,
{
}

/// An array filled with zeros along its second axis.
pub proof fn lemma_filled<E>(
    ar: Arithmetic<E>,
    env: spec_fn(Kind) -> Val<E>,
    x: Term,
    s: Seq<int>,
    missing: int,
    zeros: Dims,
)
    requires
        value(ar, env, x).shape == s,
        s.len() >= 2,
        are_extents(s),
        missing >= 0,
        missing > 0 ==> extents(zeros) == s.update(1, missing),
    ensures
        ({
            let v = value(ar, env, filled_term(x, missing, zeros));
            &&& v.shape == s.update(1, s[1] + missing)
            &&& v.elem == value(ar, env, x).elem
            &&& forall|i: Seq<int>|
                in_range(i, v.shape) ==> #[trigger] (v.at)(i) == if i[1] < s[1] {
                    (value(ar, env, x).at)(i)
                } else {
                    zero(ar)
                }
        }),
{
    let v = value(ar, env, filled_term(x, missing, zeros));
    if missing > 0 {
        let kind = Kind::ZerosLike(zeros);
        let z = unary(kind, x);
        lemma_value1(ar, env, kind, x);
        lemma_result1(ar, env, kind, value(ar, env, x));
        lemma_value2(ar, env, Kind::Concat { axis: 1 }, x, z);
        let e = extents(zeros);
        assert forall|a: int| 0 <= a < e.len() implies 0 <= #[trigger] e[a] by {
            if a != 1 {
                assert(e[a] == s[a]);
            }
        }
        assert(value(ar, env, z).shape == s.update(1, missing));
        lemma_result_concat(
            ar,
            env,
            1,
            value(ar, env, x),
            value(ar, env, z),
            s.update(1, s[1] + missing),
        );
    } else {
        assert(s.update(1, s[1] + missing) =~= s);
        assert forall|i: Seq<int>| in_range(i, s) implies #[trigger] (v.at)(i) == if i[1] < s[1] {
            (value(ar, env, x).at)(i)
        } else {
            zero(ar)
        } by {
            assert(0 <= i[1] < s[1]);
        }
    }
}

/// The marks of tokens in groups: those behind the row are zeros in both programs.
proof fn row_filled_marks<E>(
    p: Pair<E>,
    m1: Term,
    m2: Term,
    b: i32,
    t: i32,
    w: i32,
    r: int,
)
    requires
        0 < b,
        0 < w <= t <= MAX_LEN,
        0 <= r < b,
        is_part(p, m1, m2, seq![b as int, t as int], seq![1, w as int], seq![r, 0]),
        marks_end(p, m1, r, w as int, t as int),
    ensures
        ({
            let (pad1, pad2) = (chunk_pad(t as int), chunk_pad(w as int));
            let f1 = filled_term(m1, pad1, Dims::D2(b, pad1 as i32));
            let f2 = filled_term(m2, pad2, Dims::D2(1, pad2 as i32));
            &&& is_part(
                p,
                f1,
                f2,
                seq![b as int, chunk_count(t as int) * CHUNK],
                seq![1, chunk_count(w as int) * CHUNK],
                seq![r, 0],
            )
            &&& forall|c: int|
                w <= c < chunk_count(t as int) * CHUNK ==> (first(p, f1).at)(#[trigger] seq_at(r, c))
                    == zero(p.ar)
        }),
{
    reveal(is_part);
    lemma_chunks(t, w);
    lemma_chunks(w, w);
    let (pad1, pad2) = (chunk_pad(t as int), chunk_pad(w as int));
    let (s1, s2) = (seq![b as int, t as int], seq![1, w as int]);
    let (d1, d2) = (Dims::D2(b, pad1 as i32), Dims::D2(1, pad2 as i32));
    let (f1, f2) = (filled_term(m1, pad1, d1), filled_term(m2, pad2, d2));
    assert(extents(d1) =~= s1.update(1, pad1) && extents(d2) =~= s2.update(1, pad2));
    lemma_filled(p.ar, p.e1, m1, s1, pad1, d1);
    lemma_filled(p.ar, p.e2, m2, s2, pad2, d2);
    let (z1, z2) = (
        seq![b as int, chunk_count(t as int) * CHUNK],
        seq![1, chunk_count(w as int) * CHUNK],
    );
    assert(s1.update(1, t + pad1) =~= z1 && s2.update(1, w + pad2) =~= z2);
    let off = seq![r, 0];
    assert forall|c: int| w <= c < z1[1] implies (first(p, f1).at)(#[trigger] seq_at(r, c)) == zero(
        p.ar,
    ) by {
        assert(in_range(seq_at(r, c), z1));
    }
    assert forall|i: Seq<int>| #[trigger] in_range(i, z2) implies (first(p, f1).at)(
        shifted(i, off),
    ) == (second(p, f2).at)(i) by {
        assert(0 <= i[0] < z2[0] && 0 <= i[1] < z2[1]);
        let j = shifted(i, off);
        assert(in_range(j, z1));
        assert(j =~= seq_at(r, i[1]));
        if i[1] < w {
            assert(in_range(i, s2));
        }
    }
    assert(lies_in(z2, z1, off));
}

/// The grouped marks as columns.
proof fn row_marks<E>(
    p: Pair<E>,
    m1: Term,
    m2: Term,
    b: i32,
    t: i32,
    w: i32,
    r: int,
)
    requires
        ignores_padding(p.ar),
        0 < b,
        0 < w <= t <= MAX_LEN,
        0 <= r < b,
        is_part(p, m1, m2, seq![b as int, t as int], seq![1, w as int], seq![r, 0]),
        marks_end(p, m1, r, w as int, t as int),
    ensures
        is_part(
            p,
            chunk_mask_term(m1, b, t),
            chunk_mask_term(m2, 1, w),
            seq![b as int, chunk_count(t as int), CHUNK as int, 1],
            seq![1, chunk_count(w as int), CHUNK as int, 1],
            seq![r, 0, 0, 0],
        ),
        forall|g: int, j: int|
            0 <= g < chunk_count(t as int) && 0 <= j < CHUNK && w <= g * CHUNK + j ==> (first(
                p,
                chunk_mask_term(m1, b, t),
            ).at)(#[trigger] mark_index(r, g, j)) == zero(p.ar),
{
    lemma_chunks(t, w);
    let (n1, n2) = (chunk_count(t as int) as i32, chunk_count(w as int) as i32);
    let (pad1, pad2) = (chunk_pad(t as int), chunk_pad(w as int));
    let f1 = filled_term(m1, pad1, Dims::D2(b, pad1 as i32));
    let f2 = filled_term(m2, pad2, Dims::D2(1, pad2 as i32));
    row_filled_marks(p, m1, m2, b, t, w, r);
    let (d1, d2) = (Dims::D4(b, n1, CHUNK, 1), Dims::D4(1, n2, CHUNK, 1));
    let (g1, g2) = (unary(Kind::Reshape(d1), f1), unary(Kind::Reshape(d2), f2));
    let (s1, s2) = (
        seq![b as int, n1 as int, CHUNK as int, 1],
        seq![1, n2 as int, CHUNK as int, 1],
    );
    let off = seq![r, 0, 0, 0];
    assert(is_part(p, g1, g2, s1, s2, off)) by {
        reveal(is_part);
        lemma_value1(p.ar, p.e1, Kind::Reshape(d1), f1);
        lemma_value1(p.ar, p.e2, Kind::Reshape(d2), f2);
        fold_chunk_marks(p.ar, p.e1, p.e2, first(p, f1), second(p, f2), b, n1, n2, CHUNK, r);
    }
    part_map(p, Kind::Cast(Ty::F32), g1, g2, s1, s2, off);
    lemma_cast_at(p, Ty::F32, g1);
    let z1 = seq![b as int, n1 * CHUNK];
    assert(first(p, f1).shape == z1) by {
        reveal(is_part);
    }
    lemma_grouped_shape(b, n1, CHUNK, 1);
    lemma_product(b as int, n1 * CHUNK, 1, 1);
    assert(extents(d1) =~= s1);
    lemma_product(b as int, n1 as int, CHUNK as int, 1);
    lemma_reshaped(z1, s1);
    assert forall|g: int, j: int|
        0 <= g < chunk_count(t as int) && 0 <= j < CHUNK && w <= g * CHUNK + j implies (first(
        p,
        chunk_mask_term(m1, b, t),
    ).at)(#[trigger] mark_index(r, g, j)) == zero(p.ar) by {
        let i = mark_index(r, g, j);
        let k = seq_at(r, g * CHUNK + j);
        lemma_flat(i, s1);
        lemma_flat(k, z1);
        lemma_place(r, n1 as int, CHUNK as int, g, j);
        assert(in_range(k, z1));
        lemma_value1(p.ar, p.e1, Kind::Reshape(d1), f1);
        lemma_reshape_at(p.ar, p.e1, d1, first(p, f1), s1, i, k);
    }
}

/// The index of the mark of token `j` of group `g` of row `r`.
spec fn mark_index(r: int, g: int, j: int) -> Seq<int> {
    seq![r, g, j, 0]
}

proof fn lemma_grouped_shape(b: i32, n: i32, c: i32, h: i32)
    ensures
        b * n * c * h == b * (n * c) * h,
        b * n * c * 1 == b * (n * c),
{
    assert(b * n * c * h == b * (n * c) * h) by (nonlinear_arith);
    assert(b * n * c * 1 == b * (n * c)) by (nonlinear_arith);
}

proof fn lemma_place(r: int, n: int, c: int, g: int, j: int)
    requires
        0 <= g < n,
        0 <= j < c,
    ensures
        (r * n + g) * c + j == r * (n * c) + (g * c + j),
        0 <= g * c + j < n * c,
{
    assert((r * n + g) * c + j == r * (n * c) + (g * c + j)) by (nonlinear_arith);
    assert(0 <= g * c + j < n * c) by (nonlinear_arith)
        requires
            0 <= g < n,
            0 <= j < c,
    ;
}

/// States in groups.
spec fn grouped_term(x: Term, b: i32, t: i32, h: i32) -> Term {
    let pad = chunk_pad(t as int);
    unary(
        Kind::Cast(Ty::F32),
        unary(
            Kind::Reshape(Dims::D4(b, chunk_count(t as int) as i32, CHUNK, h)),
            filled_term(x, pad, Dims::D3(b, pad as i32, h)),
        ),
    )
}

/// An element of grouped states, where it is one of a token.
proof fn lemma_grouped_at<E>(
    ar: Arithmetic<E>,
    env: spec_fn(Kind) -> Val<E>,
    x: Term,
    b: i32,
    t: i32,
    h: i32,
    r: int,
    g: int,
    j: int,
    c: int,
)
    requires
        0 < b,
        0 < t <= MAX_LEN,
        0 < h,
        0 <= r < b,
        0 <= g < chunk_count(t as int),
        0 <= j < CHUNK,
        0 <= c < h,
        value(ar, env, x).shape == wide(b, t, h as int),
    ensures
        ({
            let v = value(ar, env, grouped_term(x, b, t, h));
            &&& v.shape == seq![b as int, chunk_count(t as int), CHUNK as int, h as int]
            &&& v.elem == Elem::F32
            &&& g * CHUNK + j < t ==> (v.at)(seq![r, g, j, c]) == (ar.cast)(
                Elem::F32,
                (value(ar, env, x).at)(seq![r, g * CHUNK + j, c]),
            )
        }),
{
    lemma_chunks(t, t);
    let n = chunk_count(t as int) as i32;
    let pad = chunk_pad(t as int);
    let s = wide(b, t, h as int);
    let zeros = Dims::D3(b, pad as i32, h);
    let f = filled_term(x, pad, zeros);
    assert(extents(zeros) =~= s.update(1, pad));
    lemma_filled(ar, env, x, s, pad, zeros);
    let z = seq![b as int, n * CHUNK, h as int];
    assert(s.update(1, t + pad) =~= z);
    let d = Dims::D4(b, n, CHUNK, h);
    let to = seq![b as int, n as int, CHUNK as int, h as int];
    assert(extents(d) =~= to);
    lemma_grouped_shape(b, n, CHUNK, h);
    lemma_product(b as int, n * CHUNK, h as int, 1);
    lemma_product(b as int, n as int, CHUNK as int, h as int);
    lemma_reshaped(z, to);
    let u = unary(Kind::Reshape(d), f);
    lemma_value1(ar, env, Kind::Reshape(d), f);
    let (i, k) = (seq![r, g, j, c], seq![r, g * CHUNK + j, c]);
    lemma_flat(i, to);
    lemma_flat(k, z);
    lemma_place(r, n as int, CHUNK as int, g, j);
    assert(in_range(k, z));
    lemma_reshape_at(ar, env, d, value(ar, env, f), to, i, k);
    lemma_value1(ar, env, Kind::Cast(Ty::F32), u);
    lemma_result1(ar, env, Kind::Cast(Ty::F32), value(ar, env, u));
    lemma_result1(ar, env, Kind::Reshape(d), value(ar, env, f));
}

/// The grouped states times their marks: what lies behind the row is zero.
proof fn row_products<E>(
    p: Pair<E>,
    t1: Term,
    t2: Term,
    m1: Term,
    m2: Term,
    b: i32,
    t: i32,
    w: i32,
    h: i32,
    r: int,
)
    requires
        ignores_padding(p.ar),
        0 < b,
        0 < w <= t <= MAX_LEN,
        0 < h,
        0 <= r < b,
        are_states(p, t1, t2, b, t, w, r, h as int),
        is_part(p, m1, m2, seq![b as int, t as int], seq![1, w as int], seq![r, 0]),
        marks_end(p, m1, r, w as int, t as int),
    ensures
        is_part(
            p,
            binary(Kind::Multiply, grouped_term(t1, b, t, h), chunk_mask_term(m1, b, t)),
            binary(Kind::Multiply, grouped_term(t2, 1, w, h), chunk_mask_term(m2, 1, w)),
            seq![b as int, chunk_count(t as int), CHUNK as int, h as int],
            seq![1, chunk_count(w as int), CHUNK as int, h as int],
            seq![r, 0, 0, 0],
        ),
{
    reveal(is_part);
    lemma_chunks(t, w);
    lemma_chunks(w, w);
    row_marks(p, m1, m2, b, t, w, r);
    let (n1, n2) = (chunk_count(t as int), chunk_count(w as int));
    let (s1, s2) = (
        seq![b as int, n1, CHUNK as int, h as int],
        seq![1, n2, CHUNK as int, h as int],
    );
    let (z1, z2) = (seq![b as int, n1, CHUNK as int, 1], seq![1, n2, CHUNK as int, 1]);
    let off = seq![r, 0, 0, 0];
    let (g1, g2) = (grouped_term(t1, b, t, h), grouped_term(t2, 1, w, h));
    let (k1, k2) = (chunk_mask_term(m1, b, t), chunk_mask_term(m2, 1, w));
    lemma_grouped_at(p.ar, p.e1, t1, b, t, h, r, 0, 0, 0);
    lemma_grouped_at(p.ar, p.e2, t2, 1, w, h, 0, 0, 0, 0);
    let mul = Kind::Multiply;
    lemma_value2(p.ar, p.e1, mul, g1, k1);
    lemma_value2(p.ar, p.e2, mul, g2, k2);
    lemma_result2(p.ar, p.e1, mul, first(p, g1), first(p, k1));
    lemma_result2(p.ar, p.e2, mul, second(p, g2), second(p, k2));
    lemma_stretched_into(s1, z1);
    lemma_stretched_into(s2, z2);
    let (o1, o2) = (binary(mul, g1, k1), binary(mul, g2, k2));
    assert forall|i: Seq<int>| #[trigger] in_range(i, s2) implies (first(p, o1).at)(
        shifted(i, off),
    ) == (second(p, o2).at)(i) by {
        assert(0 <= i[0] < s2[0] && 0 <= i[1] < s2[1] && 0 <= i[2] < s2[2] && 0 <= i[3] < s2[3]);
        let q = shifted(i, off);
        let (k, c) = (i[1] * CHUNK + i[2], mark_index(0, i[1], i[2]));
        assert(project(q, s1) =~= seq![r, i[1], i[2], i[3]]);
        assert(project(i, s2) =~= seq![0, i[1], i[2], i[3]]);
        assert(project(q, z1) =~= mark_index(r, i[1], i[2]));
        assert(project(i, z2) =~= c);
        assert(in_range(c, z2));
        assert(shifted(c, off) =~= mark_index(r, i[1], i[2]));
        if k < w {
            lemma_grouped_at(p.ar, p.e1, t1, b, t, h, r, i[1], i[2], i[3]);
            lemma_grouped_at(p.ar, p.e2, t2, 1, w, h, 0, i[1], i[2], i[3]);
            let e = seq![0, k, i[3]];
            assert(in_range(e, wide(1, w, h as int)));
            assert(shifted(e, seq![r, 0, 0]) =~= seq![r, k, i[3]]);
        } else {
            assert((first(p, k1).at)(mark_index(r, i[1], i[2])) == zero(p.ar));
        }
    }
    assert(lies_in(s2, s1, off));
}

/// Whether two terms are the pooled states of `b` rows of `n` groups and of row `r` of
/// them, of which `m` groups are kept.
pub open spec fn are_pools<E>(
    p: Pair<E>,
    t1: Term,
    t2: Term,
    b: int,
    n: int,
    m: int,
    h: int,
    r: int,
) -> bool {
    is_part(p, t1, t2, seq![b, n, h], seq![1, m, h], seq![r, 0, 0])
}

/// Whether two terms are the marks of such groups, with zeros behind the row.
pub open spec fn are_pool_marks<E>(
    p: Pair<E>,
    t1: Term,
    t2: Term,
    b: int,
    n: int,
    m: int,
    r: int,
) -> bool {
    &&& is_part(p, t1, t2, seq![b, n], seq![1, m], seq![r, 0])
    &&& marks_end(p, t1, r, m, n)
}

/// Sums over whole groups.
proof fn row_group_sum<E>(
    p: Pair<E>,
    t1: Term,
    t2: Term,
    b: int,
    n: int,
    m: int,
    h: int,
    r: int,
)
    requires
        ignores_padding(p.ar),
        is_part(
            p,
            t1,
            t2,
            seq![b, n, CHUNK as int, h],
            seq![1, m, CHUNK as int, h],
            seq![r, 0, 0, 0],
        ),
    ensures
        ({
            let sum = Kind::Sum { axis: 2, keep: false };
            is_part(p, unary(sum, t1), unary(sum, t2), seq![b, n, h], seq![1, m, h], seq![r, 0, 0])
        }),
{
    let (s1, s2) = (seq![b, n, CHUNK as int, h], seq![1, m, CHUNK as int, h]);
    let off = seq![r, 0, 0, 0];
    assert(first(p, t1).shape == s1 && second(p, t2).shape == s2) by {
        reveal(is_part);
    }
    assert(fades(p.ar, first(p, t1), second(p, t2), off, 2)) by {
        assert forall|i: Seq<int>| !(#[trigger] is_behind(i, s1, s2, 2)) by {}
    }
    part_sum(p, 2, t1, t2, s1, s2, off);
    assert(s1.remove(2) =~= seq![b, n, h] && s2.remove(2) =~= seq![1, m, h]);
    assert(off.remove(2) =~= seq![r, 0, 0]);
}

/// The pooled states of a row, whatever batch holds it.
pub proof fn row_pool<E>(
    p: Pair<E>,
    cfg: &KalmConfig,
    t1: Term,
    t2: Term,
    m1: Term,
    m2: Term,
    b: i32,
    t: i32,
    w: i32,
    r: int,
)
    requires
        ignores_padding(p.ar),
        0 < b,
        0 < w <= t <= MAX_LEN,
        0 < cfg.h,
        0 <= r < b,
        are_states(p, t1, t2, b, t, w, r, cfg.h as int),
        is_part(p, m1, m2, seq![b as int, t as int], seq![1, w as int], seq![r, 0]),
        marks_end(p, m1, r, w as int, t as int),
    ensures
        are_pools(
            p,
            pooled_term(cfg, t1, m1, b, t),
            pooled_term(cfg, t2, m2, 1, w),
            b as int,
            chunk_count(t as int),
            chunk_count(w as int),
            cfg.h as int,
            r,
        ),
{
    let h = cfg.h;
    let (n1, n2) = (chunk_count(t as int), chunk_count(w as int));
    row_products(p, t1, t2, m1, m2, b, t, w, h, r);
    row_marks(p, m1, m2, b, t, w, r);
    let (k1, k2) = (chunk_mask_term(m1, b, t), chunk_mask_term(m2, 1, w));
    let (x1, x2) = (
        binary(Kind::Multiply, grouped_term(t1, b, t, h), k1),
        binary(Kind::Multiply, grouped_term(t2, 1, w, h), k2),
    );
    row_group_sum(p, x1, x2, b as int, n1, n2, h as int, r);
    row_group_sum(p, k1, k2, b as int, n1, n2, 1, r);
    let sum = Kind::Sum { axis: 2, keep: false };
    let one = literal(1, 0);
    shared_number(p, dec(1, 0));
    let (z1, z2) = (seq![b as int, n1, 1], seq![1, n2, 1]);
    let off = seq![r, 0, 0];
    part_zip_number(p, Kind::Maximum, unary(sum, k1), unary(sum, k2), z1, z2, off, one, one);
    let (d1, d2) = (
        binary(Kind::Maximum, unary(sum, k1), one),
        binary(Kind::Maximum, unary(sum, k2), one),
    );
    let (s1, s2) = (seq![b as int, n1, h as int], seq![1, n2, h as int]);
    assert(stretches(z1, z2, off, s1, s2, off));
    part_zip(p, Kind::Divide, unary(sum, x1), unary(sum, x2), s1, s2, off, d1, d2, z1, z2, off);
    let (q1, q2) = (
        binary(Kind::Divide, unary(sum, x1), d1),
        binary(Kind::Divide, unary(sum, x2), d2),
    );
    part_map(p, Kind::Cast(Ty::Bf16), q1, q2, s1, s2, off);
}

/// The marks of a row's groups: those behind the row are zeros.
pub proof fn row_pool_marks<E>(
    p: Pair<E>,
    m1: Term,
    m2: Term,
    b: i32,
    t: i32,
    w: i32,
    r: int,
)
    requires
        ignores_padding(p.ar),
        0 < b,
        0 < w <= t <= MAX_LEN,
        0 <= r < b,
        is_part(p, m1, m2, seq![b as int, t as int], seq![1, w as int], seq![r, 0]),
        marks_end(p, m1, r, w as int, t as int),
    ensures
        are_pool_marks(
            p,
            pooled_mask_term(m1, b, t),
            pooled_mask_term(m2, 1, w),
            b as int,
            chunk_count(t as int),
            chunk_count(w as int),
            r,
        ),
{
    lemma_chunks(t, w);
    let (n1, n2) = (chunk_count(t as int) as i32, chunk_count(w as int) as i32);
    row_marks(p, m1, m2, b, t, w, r);
    let (k1, k2) = (chunk_mask_term(m1, b, t), chunk_mask_term(m2, 1, w));
    let (d1, d2) = (Dims::D3(b, n1, CHUNK), Dims::D3(1, n2, CHUNK));
    let (f1, f2) = (unary(Kind::Reshape(d1), k1), unary(Kind::Reshape(d2), k2));
    let (s1, s2) = (seq![b as int, n1 as int, CHUNK as int], seq![1, n2 as int, CHUNK as int]);
    let off = seq![r, 0, 0];
    assert(is_part(p, f1, f2, s1, s2, off)) by {
        reveal(is_part);
        lemma_value1(p.ar, p.e1, Kind::Reshape(d1), k1);
        lemma_value1(p.ar, p.e2, Kind::Reshape(d2), k2);
        drop_marks_column(p.ar, p.e1, p.e2, first(p, k1), second(p, k2), b, n1, n2, CHUNK, r);
    }
    assert(first(p, f1).shape == s1 && second(p, f2).shape == s2) by {
        reveal(is_part);
    }
    assert(fades(p.ar, first(p, f1), second(p, f2), off, 2)) by {
        assert forall|i: Seq<int>| !(#[trigger] is_behind(i, s1, s2, 2)) by {}
    }
    part_sum(p, 2, f1, f2, s1, s2, off);
    let (z1, z2) = (seq![b as int, n1 as int], seq![1, n2 as int]);
    assert(s1.remove(2) =~= z1 && s2.remove(2) =~= z2 && off.remove(2) =~= seq![r, 0]);
    let sum = Kind::Sum { axis: 2, keep: false };
    let (u1, u2) = (unary(sum, f1), unary(sum, f2));
    let nil = literal(0, 0);
    shared_number(p, dec(0, 0));
    part_zip_number(p, Kind::Greater, u1, u2, z1, z2, seq![r, 0], nil, nil);
    let (g1, g2) = (binary(Kind::Greater, u1, nil), binary(Kind::Greater, u2, nil));
    part_map(p, Kind::Cast(Ty::F32), g1, g2, z1, z2, seq![r, 0]);
    lemma_cast_at(p, Ty::F32, g1);
    lemma_zip_at(p, Kind::Greater, u1, nil);
    assert(first(p, u1).shape == z1 && first(p, nil).shape == Seq::<int>::empty() && first(
        p,
        k1,
    ).shape == seq![b as int, n1 as int, CHUNK as int, 1]) by {
        reveal(is_part);
        reveal(is_shared);
    }
    assert forall|c: int| n2 <= c < n1 implies (first(p, pooled_mask_term(m1, b, t)).at)(
        #[trigger] seq_at(r, c),
    ) == zero(p.ar) by {
        let i = seq_at(r, c);
        assert(project(i, z1) =~= i);
        assert(project(i, Seq::<int>::empty()) =~= seq![]);
        lemma_empty_group(p, k1, b, n1, r, c);
    }
}

/// A group without marks counts nothing.
proof fn lemma_empty_group<E>(p: Pair<E>, k: Term, b: i32, n: i32, r: int, g: int)
    requires
        ignores_padding(p.ar),
        0 < b,
        0 < n,
        0 <= r < b,
        0 <= g < n,
        first(p, k).shape == seq![b as int, n as int, CHUNK as int, 1],
        forall|j: int|
            0 <= j < CHUNK ==> (first(p, k).at)(#[trigger] mark_index(r, g, j)) == zero(p.ar),
    ensures
        ({
            let sum = Kind::Sum { axis: 2, keep: false };
            let f = unary(Kind::Reshape(Dims::D3(b, n, CHUNK)), k);
            (first(p, unary(sum, f)).at)(seq_at(r, g)) == zero(p.ar)
        }),
{
    let sum = Kind::Sum { axis: 2, keep: false };
    let d = Dims::D3(b, n, CHUNK);
    let f = unary(Kind::Reshape(d), k);
    let (z, s) = (
        seq![b as int, n as int, CHUNK as int, 1],
        seq![b as int, n as int, CHUNK as int],
    );
    assert(extents(d) =~= s);
    lemma_product(b as int, n as int, CHUNK as int, 1);
    lemma_reshaped(z, s);
    lemma_value1(p.ar, p.e1, Kind::Reshape(d), k);
    lemma_value1(p.ar, p.e1, sum, f);
    lemma_result1(p.ar, p.e1, Kind::Reshape(d), first(p, k));
    lemma_result1(p.ar, p.e1, sum, first(p, f));
    let i = seq_at(r, g).insert(2, 0);
    let l = line(first(p, f), 2, i);
    assert forall|j: int| 0 <= j < l.len() implies #[trigger] l[j] == zero(p.ar) by {
        let (q, m) = (i.update(2, j), mark_index(r, g, j));
        assert(q =~= seq![r, g, j]);
        lemma_flat(q, s);
        lemma_flat(m, z);
        assert(in_range(m, z));
        lemma_reshape_at(p.ar, p.e1, d, first(p, k), s, q, m);
    }
    lemma_total(p.ar, l, seq![]);
}

} // verus!
