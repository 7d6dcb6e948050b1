//! Hidden states of a row in the encoder-decoder, whatever batch holds it.

use crate::graph::{binary, dec, leaf, literal, quaternary, unary};
use crate::graph::{Dims, Kind, LayerType, Num, Part, Side, Slot, Term, Ty, REST};
use crate::kalm::{after_attention_term, angles_term, block_tail_term, cos_term, embedded_term};
use crate::kalm::{embedding, encoder_layer_term, encoder_layers_term, encoder_states_term};
use crate::kalm::{feedforward_term, gelu_term, half_of, hide_zeros_term, norm_term, prj_term};
use crate::kalm::{repeat_kv_term, rope_term, sin_term, times_term, turned_term, weight};
use crate::kalm_config::KalmConfig;
use crate::kalm_shapes::{fits_together, weight_extents, Sizes};
use crate::meaning::{ignores_padding, in_range, project, zero};
use crate::meaning::{lemma_value0, lemma_value1, lemma_value2};
use crate::parts::{first, is_part, is_shared, second, Pair};
use crate::parts::{lemma_cast_at, lemma_zip_at, part_attention, part_cast_like, part_concat};
use crate::parts::{part_embedded, part_join_heads, part_keys, part_linear, part_map};
use crate::parts::{part_mean_last, part_repeat, part_shared, part_slice_last, part_split_heads};
use crate::parts::{part_which, part_zip, part_zip_number, part_zip_same, shared_map};
use crate::parts::{shared_number, shared_reshape, shared_zip_number};
use crate::shapes::{extents, known_extents, lemma_product, lemma_reshaped, lemma_reshaped_rest};
use crate::shapes::{reshaped, stretched};
use crate::window_folds::{fold_positions, fold_table};
use crate::window_sums::{is_behind, is_hidden};
use crate::windows::{is_window, lemma_result2, shifted, stretches};
use vstd::prelude::*;

verus! {

/// Whether two programs share a checkpoint's weights and frequencies.
pub open spec fn share_weights<E>(p: Pair<E>, cfg: &KalmConfig, sizes: Sizes) -> bool {
    &&& fits_together(cfg)
    &&& sizes.encoder_inner >= 0
    &&& sizes.decoder_inner >= 0
    &&& forall|side: Side, slot: Slot|
        #![trigger weight(side, slot)]
        weight_extents(cfg, sizes, side, slot) is Some ==> is_shared(
            p,
            weight(side, slot),
            weight(side, slot),
            weight_extents(cfg, sizes, side, slot)->0,
        )
    &&& forall|side: Side, lt: LayerType|
        #![trigger leaf(Kind::InvFreq(side, lt))]
        is_shared(
            p,
            leaf(Kind::InvFreq(side, lt)),
            leaf(Kind::InvFreq(side, lt)),
            seq![cfg.hd as int / 2],
        )
}

/// Hidden states of `b` rows of `t` positions, with `n` numbers for each.
pub open spec fn wide(b: i32, t: i32, n: int) -> Seq<int> {
    seq![b as int, t as int, n]
}

/// The extents of `n` heads of `b` rows of `t` positions.
pub open spec fn heads(b: i32, n: i32, t: int, hd: i32) -> Seq<int> {
    seq![b as int, n as int, t, hd as int]
}

/// Whether two terms are the hidden states of `b` rows of `t` positions and of row `r`
/// of them, of which `w` positions are kept.
pub open spec fn are_states<E>(
    p: Pair<E>,
    t1: Term,
    t2: Term,
    b: i32,
    t: i32,
    w: i32,
    r: int,
    n: int,
) -> bool {
    is_part(p, t1, t2, wide(b, t, n), wide(1, w, n), seq![r, 0, 0])
}

/// The same of heads.
pub open spec fn are_heads<E>(
    p: Pair<E>,
    t1: Term,
    t2: Term,
    b: i32,
    n: i32,
    t: int,
    w: int,
    r: int,
    hd: i32,
) -> bool {
    is_part(p, t1, t2, heads(b, n, t, hd), heads(1, n, w, hd), seq![r, 0, 0, 0])
}

/// A normalisation, along the last axis.
pub proof fn row_norm<E>(
    p: Pair<E>,
    t1: Term,
    t2: Term,
    side: Side,
    slot: Slot,
    s1: Seq<int>,
    s2: Seq<int>,
    off: Seq<int>,
    d: int,
)
    requires
        is_part(p, t1, t2, s1.push(d), s2.push(d), off),
        is_shared(p, weight(side, slot), weight(side, slot), seq![d]),
        off.len() == s1.len() + 1,
        off.len() == s2.len() + 1,
        off.last() == 0,
    ensures
        is_part(
            p,
            norm_term(t1, side, slot),
            norm_term(t2, side, slot),
            s1.push(d),
            s2.push(d),
            off,
        ),
{
    let (a1, a2) = (s1.push(d), s2.push(d));
    let (o1, o2) = (s1.push(1), s2.push(1));
    let single = Kind::Cast(Ty::F32);
    let (x1, x2) = (unary(single, t1), unary(single, t2));
    part_map(p, single, t1, t2, a1, a2, off);
    part_zip_same(p, Kind::Multiply, x1, x2, x1, x2, a1, a2, off);
    let (q1, q2) = (binary(Kind::Multiply, x1, x1), binary(Kind::Multiply, x2, x2));
    part_mean_last(p, q1, q2, s1, s2, off, d);
    let mean = Kind::Mean { axis: -1i32, keep: true };
    let eps = leaf(Kind::Const(Num::Eps));
    shared_number(p, Num::Eps);
    part_zip_number(p, Kind::Add, unary(mean, q1), unary(mean, q2), o1, o2, off, eps, eps);
    let (e1, e2) = (
        binary(Kind::Add, unary(mean, q1), eps),
        binary(Kind::Add, unary(mean, q2), eps),
    );
    part_map(p, Kind::Rsqrt, e1, e2, o1, o2, off);
    let (i1, i2) = (unary(Kind::Rsqrt, e1), unary(Kind::Rsqrt, e2));
    part_zip(p, Kind::Multiply, x1, x2, a1, a2, off, i1, i2, o1, o2, off);
    let (m1, m2) = (binary(Kind::Multiply, x1, i1), binary(Kind::Multiply, x2, i2));
    let w = weight(side, slot);
    shared_map(p, single, w, w, seq![d]);
    shared_number(p, dec(1, 0));
    shared_zip_number(p, Kind::Add, literal(1, 0), unary(single, w), seq![d]);
    let scale = binary(Kind::Add, literal(1, 0), unary(single, w));
    part_shared(p, scale, scale, seq![d], seq![0]);
    let z = seq![d];
    assert(stretches(z, z, seq![0], a1, a2, off));
    part_zip(p, Kind::Multiply, m1, m2, a1, a2, off, scale, scale, z, z, seq![0]);
    part_cast_like(
        p,
        binary(Kind::Multiply, m1, scale),
        binary(Kind::Multiply, m2, scale),
        a1,
        a2,
        off,
        t1,
        t2,
        a1,
        a2,
        off,
    );
}

/// The activation of a gate.
proof fn row_gelu<E>(
    p: Pair<E>,
    t1: Term,
    t2: Term,
    s1: Seq<int>,
    s2: Seq<int>,
    off: Seq<int>,
)
    requires
        is_part(p, t1, t2, s1, s2, off),
    ensures
        is_part(p, gelu_term(t1), gelu_term(t2), s1, s2, off),
{
    let mul = Kind::Multiply;
    shared_number(p, dec(44715, -6));
    shared_number(p, dec(7978845608028654, -16));
    shared_number(p, dec(5, -1));
    shared_number(p, dec(1, 0));
    part_zip_same(p, mul, t1, t2, t1, t2, s1, s2, off);
    let (a1, a2) = (binary(mul, t1, t1), binary(mul, t2, t2));
    part_zip_same(p, mul, a1, a2, t1, t2, s1, s2, off);
    let (b1, b2) = (binary(mul, a1, t1), binary(mul, a2, t2));
    let k = literal(44715, -6);
    part_zip_number(p, mul, b1, b2, s1, s2, off, k, k);
    let (c1, c2) = (binary(mul, b1, k), binary(mul, b2, k));
    part_zip_same(p, Kind::Add, t1, t2, c1, c2, s1, s2, off);
    let (d1, d2) = (binary(Kind::Add, t1, c1), binary(Kind::Add, t2, c2));
    let m = literal(7978845608028654, -16);
    part_zip_number(p, mul, d1, d2, s1, s2, off, m, m);
    let (e1, e2) = (binary(mul, d1, m), binary(mul, d2, m));
    part_map(p, Kind::Tanh, e1, e2, s1, s2, off);
    let one = literal(1, 0);
    let (f1, f2) = (unary(Kind::Tanh, e1), unary(Kind::Tanh, e2));
    part_zip_number(p, Kind::Add, f1, f2, s1, s2, off, one, one);
    let half = literal(5, -1);
    part_zip_number(p, mul, t1, t2, s1, s2, off, half, half);
    let (g1, g2) = (binary(mul, t1, half), binary(mul, t2, half));
    let (h1, h2) = (binary(Kind::Add, f1, one), binary(Kind::Add, f2, one));
    part_zip_same(p, mul, g1, g2, h1, h2, s1, s2, off);
    let (o1, o2) = (binary(mul, g1, h1), binary(mul, g2, h2));
    part_cast_like(p, o1, o2, s1, s2, off, t1, t2, s1, s2, off);
}

/// Positions times frequencies, each position by itself.
proof fn row_outer<E>(
    p: Pair<E>,
    t1: Term,
    t2: Term,
    u: Term,
    s: i32,
    w: i32,
    half: int,
)
    requires
        0 < w <= s,
        half > 0,
        is_part(p, t1, t2, seq![s as int, 1], seq![w as int, 1], seq![0, 0]),
        is_shared(p, u, u, seq![1, half]),
    ensures
        is_part(
            p,
            binary(Kind::Multiply, t1, u),
            binary(Kind::Multiply, t2, u),
            seq![s as int, half],
            seq![w as int, half],
            seq![0, 0],
        ),
{
    reveal(is_part);
    reveal(is_shared);
    let mul = Kind::Multiply;
    lemma_value2(p.ar, p.e1, mul, t1, u);
    lemma_value2(p.ar, p.e2, mul, t2, u);
    lemma_result2(p.ar, p.e1, mul, first(p, t1), first(p, u));
    lemma_result2(p.ar, p.e2, mul, second(p, t2), second(p, u));
    let (z1, z2, zu) = (seq![s as int, 1], seq![w as int, 1], seq![1, half]);
    let (o1, o2) = (seq![s as int, half], seq![w as int, half]);
    let off = seq![0int, 0];
    assert(stretched(z1, zu) == Some(o1) && stretched(z2, zu) == Some(o2)) by {
        reveal(stretched);
        assert(stretched(z1, zu)->0 =~= o1);
        assert(stretched(z2, zu)->0 =~= o2);
    }
    assert forall|i: Seq<int>| #[trigger] in_range(i, o2) implies (first(p, t1).at)(
        project(shifted(i, off), z1),
    ) == (second(p, t2).at)(project(i, z2)) && project(shifted(i, off), zu) == project(i, zu) by {
        assert(0 <= i[0] < o2[0] && 0 <= i[1] < o2[1]);
        let j = seq![i[0], 0];
        assert(in_range(j, z2));
        assert(project(i, z2) =~= j);
        assert(project(shifted(i, off), z1) =~= shifted(j, off));
        assert(project(shifted(i, off), zu) =~= project(i, zu));
    }
}

proof fn lemma_steps(t: i32)
    ensures
        seq![(t + 1 - 1) / 1int] == seq![t as int],
{
    assert((t + 1 - 1) / 1int == t) by (nonlinear_arith);
    assert(seq![(t + 1 - 1) / 1int] =~= seq![t as int]);
}

/// The angles of positions: a longer table begins with a shorter one.
pub proof fn row_angles<E>(
    p: Pair<E>,
    side: Side,
    lt: LayerType,
    t: i32,
    w: i32,
    hd: i32,
)
    requires
        0 < w <= t,
        hd > 0,
        hd as int % 2 == 0,
        is_shared(
            p,
            leaf(Kind::InvFreq(side, lt)),
            leaf(Kind::InvFreq(side, lt)),
            seq![hd as int / 2],
        ),
    ensures
        is_part(
            p,
            cos_term(side, lt, t),
            cos_term(side, lt, w),
            heads(1, 1, t as int, hd),
            heads(1, 1, w as int, hd),
            seq![0, 0, 0, 0],
        ),
        is_part(
            p,
            sin_term(side, lt, t),
            sin_term(side, lt, w),
            heads(1, 1, t as int, hd),
            heads(1, 1, w as int, hd),
            seq![0, 0, 0, 0],
        ),
{
    let half = hd as int / 2;
    let (k1, k2) = (Kind::Arange { stop: t, step: 1 }, Kind::Arange { stop: w, step: 1 });
    let (n1, n2) = (Kind::Reshape(Dims::D2(t, 1)), Kind::Reshape(Dims::D2(w, 1)));
    let (p1, p2) = (unary(n1, leaf(k1)), unary(n2, leaf(k2)));
    assert(is_part(p, p1, p2, seq![t as int, 1], seq![w as int, 1], seq![0, 0])) by {
        reveal(is_part);
        lemma_value0(p.ar, p.e1, k1);
        lemma_value0(p.ar, p.e2, k2);
        lemma_steps(t);
        lemma_steps(w);
        let (s1, s2, off) = (seq![t as int], seq![w as int], seq![0int]);
        assert(is_window(first(p, leaf(k1)), second(p, leaf(k2)), off)) by {
            assert forall|i: Seq<int>| #[trigger] in_range(i, s2) implies shifted(i, off) == i by {
                assert(shifted(i, off) =~= i);
            }
        }
        lemma_value1(p.ar, p.e1, n1, leaf(k1));
        lemma_value1(p.ar, p.e2, n2, leaf(k2));
        fold_positions(p.ar, p.e1, p.e2, first(p, leaf(k1)), second(p, leaf(k2)), t, w);
    }
    let freqs = leaf(Kind::InvFreq(side, lt));
    let open = seq![1int, -1int];
    assert(extents(Dims::D2(1, REST)) =~= open);
    assert(known_extents(open) =~= seq![1int, 1int]);
    lemma_product(1, 1, 1, 1);
    lemma_product(half, 1, 1, 1);
    lemma_reshaped_rest(seq![half], open, 1, half);
    assert(open.update(1, half) =~= seq![1int, half]);
    shared_reshape(p, Dims::D2(1, REST), freqs, seq![half], seq![1, half]);
    let inv = unary(Kind::Reshape(Dims::D2(1, REST)), freqs);
    row_outer(p, p1, p2, inv, t, w, half);
    let (f1, f2) = (binary(Kind::Multiply, p1, inv), binary(Kind::Multiply, p2, inv));
    let (h1, h2) = (seq![t as int, half], seq![w as int, half]);
    part_concat(p, -1i32, f1, f2, h1, h2, f1, f2, h1, h2, seq![0, 0]);
    let join = Kind::Concat { axis: -1i32 };
    let (c1, c2) = (binary(join, f1, f1), binary(join, f2, f2));
    let (w1, w2) = (seq![t as int, hd as int], seq![w as int, hd as int]);
    assert(h1.update(1, half + half) =~= w1 && h2.update(1, half + half) =~= w2);
    let (d1, d2) = (Dims::D4(1, 1, t, REST), Dims::D4(1, 1, w, REST));
    lemma_table(t, hd);
    lemma_table(w, hd);
    let (a1, a2) = (angles_term(side, lt, t), angles_term(side, lt, w));
    let (s1, s2) = (heads(1, 1, t as int, hd), heads(1, 1, w as int, hd));
    let off = seq![0int, 0, 0, 0];
    assert(is_part(p, a1, a2, s1, s2, off)) by {
        reveal(is_part);
        lemma_value1(p.ar, p.e1, Kind::Reshape(d1), c1);
        lemma_value1(p.ar, p.e2, Kind::Reshape(d2), c2);
        fold_table(p.ar, p.e1, p.e2, first(p, c1), second(p, c2), d1, d2, t, w, hd);
    }
    part_map(p, Kind::Cos, a1, a2, s1, s2, off);
    part_map(p, Kind::Sin, a1, a2, s1, s2, off);
    let brief = Kind::Cast(Ty::Bf16);
    part_map(p, brief, unary(Kind::Cos, a1), unary(Kind::Cos, a2), s1, s2, off);
    part_map(p, brief, unary(Kind::Sin, a1), unary(Kind::Sin, a2), s1, s2, off);
}

proof fn lemma_table(t: i32, hd: i32)
    requires
        t > 0,
        hd > 0,
    ensures
        reshaped(seq![t as int, hd as int], extents(Dims::D4(1, 1, t, REST))) == Some(
            heads(1, 1, t as int, hd),
        ),
{
    let table = seq![t as int, hd as int];
    let open = seq![1int, 1int, t as int, -1int];
    assert(extents(Dims::D4(1, 1, t, REST)) =~= open);
    assert(known_extents(open) =~= seq![1int, 1int, t as int, 1int]);
    lemma_product(1, 1, t as int, 1);
    lemma_product(t as int, hd as int, 1, 1);
    assert(1 * 1 * t * 1 == t);
    lemma_reshaped_rest(table, open, 3, hd as int);
    assert(open.update(3, hd as int) =~= heads(1, 1, t as int, hd));
}

/// The rotation of heads by their positions.
proof fn row_rope<E>(
    p: Pair<E>,
    t1: Term,
    t2: Term,
    side: Side,
    lt: LayerType,
    b: i32,
    n: i32,
    t: i32,
    w: i32,
    r: int,
    hd: i32,
)
    requires
        0 < w <= t,
        hd > 0,
        hd as int % 2 == 0,
        is_shared(
            p,
            leaf(Kind::InvFreq(side, lt)),
            leaf(Kind::InvFreq(side, lt)),
            seq![hd as int / 2],
        ),
        are_heads(p, t1, t2, b, n, t as int, w as int, r, hd),
    ensures
        are_heads(
            p,
            rope_term(t1, cos_term(side, lt, t), sin_term(side, lt, t), hd),
            rope_term(t2, cos_term(side, lt, w), sin_term(side, lt, w), hd),
            b,
            n,
            t as int,
            w as int,
            r,
            hd,
        ),
{
    let half = half_of(hd);
    assert(half * 2 == hd);
    let off = seq![r, 0, 0, 0];
    let (s1, s2) = (heads(b, n, t as int, hd), heads(1, n, w as int, hd));
    let (l1, l2) = (seq![b as int, n as int, t as int], seq![1int, n as int, w as int]);
    let (z1, z2) = (heads(b, n, t as int, half), heads(1, n, w as int, half));
    assert(l1.push(hd as int) =~= s1 && l2.push(hd as int) =~= s2);
    assert(l1.push(half as int) =~= z1 && l2.push(half as int) =~= z2);
    part_slice_last(p, 0, half, t1, t2, l1, l2, off, hd as int);
    part_slice_last(p, half, hd, t1, t2, l1, l2, off, hd as int);
    let (front, back) = (
        Kind::SliceLast { from: 0, to: half },
        Kind::SliceLast { from: half, to: hd },
    );
    let (x1, x2) = (unary(front, t1), unary(front, t2));
    let (y1, y2) = (unary(back, t1), unary(back, t2));
    let minus = literal(-1, 0);
    shared_number(p, dec(-1, 0));
    part_zip_number(p, Kind::Multiply, y1, y2, z1, z2, off, minus, minus);
    let (m1, m2) = (binary(Kind::Multiply, y1, minus), binary(Kind::Multiply, y2, minus));
    part_concat(p, -1i32, m1, m2, z1, z2, x1, x2, z1, z2, off);
    assert(z1.update(3, half + half) =~= s1 && z2.update(3, half + half) =~= s2);
    let join = Kind::Concat { axis: -1i32 };
    let (r1, r2) = (binary(join, m1, x1), binary(join, m2, x2));
    row_angles(p, side, lt, t, w, hd);
    let (c1, c2) = (cos_term(side, lt, t), cos_term(side, lt, w));
    let (n1, n2) = (sin_term(side, lt, t), sin_term(side, lt, w));
    let (a1, a2) = (heads(1, 1, t as int, hd), heads(1, 1, w as int, hd));
    let oz = seq![0int, 0, 0, 0];
    assert(stretches(a1, a2, oz, s1, s2, off));
    part_zip(p, Kind::Multiply, t1, t2, s1, s2, off, c1, c2, a1, a2, oz);
    part_zip(p, Kind::Multiply, r1, r2, s1, s2, off, n1, n2, a1, a2, oz);
    let (u1, u2) = (binary(Kind::Multiply, t1, c1), binary(Kind::Multiply, t2, c2));
    let (v1, v2) = (binary(Kind::Multiply, r1, n1), binary(Kind::Multiply, r2, n2));
    part_zip_same(p, Kind::Add, u1, u2, v1, v2, s1, s2, off);
    let (o1, o2) = (binary(Kind::Add, u1, v1), binary(Kind::Add, u2, v2));
    part_cast_like(p, o1, o2, s1, s2, off, t1, t2, s1, s2, off);
}

/// A product with the weight of a layer.
proof fn row_times<E>(
    p: Pair<E>,
    cfg: &KalmConfig,
    sizes: Sizes,
    t1: Term,
    t2: Term,
    side: Side,
    i: usize,
    part: Part,
    b: i32,
    t: i32,
    w: i32,
    r: int,
    from: int,
    to: int,
)
    requires
        share_weights(p, cfg, sizes),
        weight_extents(cfg, sizes, side, Slot::Layer(i, part)) == Some(seq![to, from]),
        are_states(p, t1, t2, b, t, w, r, from),
        to >= 0,
    ensures
        are_states(
            p,
            times_term(t1, side, i, part),
            times_term(t2, side, i, part),
            b,
            t,
            w,
            r,
            to,
        ),
{
    let (l1, l2) = (seq![b as int, t as int], seq![1, w as int]);
    assert(l1.push(from) =~= wide(b, t, from) && l2.push(from) =~= wide(1, w, from));
    assert(l1.push(to) =~= wide(b, t, to) && l2.push(to) =~= wide(1, w, to));
    let wt = weight(side, Slot::Layer(i, part));
    part_linear(p, t1, t2, l1, l2, seq![r, 0, 0], wt, from, to);
}

/// A normalisation of hidden states.
pub proof fn row_norm_states<E>(
    p: Pair<E>,
    cfg: &KalmConfig,
    sizes: Sizes,
    t1: Term,
    t2: Term,
    side: Side,
    slot: Slot,
    b: i32,
    t: i32,
    w: i32,
    r: int,
)
    requires
        share_weights(p, cfg, sizes),
        weight_extents(cfg, sizes, side, slot) == Some(seq![cfg.h as int]),
        are_states(p, t1, t2, b, t, w, r, cfg.h as int),
    ensures
        are_states(
            p,
            norm_term(t1, side, slot),
            norm_term(t2, side, slot),
            b,
            t,
            w,
            r,
            cfg.h as int,
        ),
{
    let h = cfg.h as int;
    let (l1, l2) = (seq![b as int, t as int], seq![1, w as int]);
    assert(l1.push(h) =~= wide(b, t, h) && l2.push(h) =~= wide(1, w, h));
    assert(is_shared(p, weight(side, slot), weight(side, slot), seq![h]));
    row_norm(p, t1, t2, side, slot, l1, l2, seq![r, 0, 0], h);
}

/// A projection of hidden states to heads.
pub proof fn row_prj<E>(
    p: Pair<E>,
    cfg: &KalmConfig,
    sizes: Sizes,
    t1: Term,
    t2: Term,
    side: Side,
    i: usize,
    part: Part,
    n: i32,
    b: i32,
    t: i32,
    w: i32,
    r: int,
)
    requires
        share_weights(p, cfg, sizes),
        weight_extents(cfg, sizes, side, Slot::Layer(i, part)) == Some(
            seq![n * cfg.hd, cfg.h as int],
        ),
        are_states(p, t1, t2, b, t, w, r, cfg.h as int),
        0 < b,
        0 < n,
        0 < w <= t,
        0 <= r < b,
    ensures
        are_heads(
            p,
            prj_term(cfg, t1, side, i, part, n, b, t),
            prj_term(cfg, t2, side, i, part, n, 1, w),
            b,
            n,
            t as int,
            w as int,
            r,
            cfg.hd,
        ),
{
    let hd = cfg.hd;
    assert(n * hd >= 0) by (nonlinear_arith)
        requires
            0 < n,
            0 < hd,
    ;
    row_times(p, cfg, sizes, t1, t2, side, i, part, b, t, w, r, cfg.h as int, n * cfg.hd);
    let (x1, x2) = (times_term(t1, side, i, part), times_term(t2, side, i, part));
    part_split_heads(p, x1, x2, b, t, w, n, cfg.hd, r);
}

/// A normalisation of heads.
pub proof fn row_norm_heads<E>(
    p: Pair<E>,
    cfg: &KalmConfig,
    sizes: Sizes,
    t1: Term,
    t2: Term,
    side: Side,
    slot: Slot,
    n: i32,
    b: i32,
    t: i32,
    w: i32,
    r: int,
)
    requires
        share_weights(p, cfg, sizes),
        weight_extents(cfg, sizes, side, slot) == Some(seq![cfg.hd as int]),
        are_heads(p, t1, t2, b, n, t as int, w as int, r, cfg.hd),
    ensures
        are_heads(
            p,
            norm_term(t1, side, slot),
            norm_term(t2, side, slot),
            b,
            n,
            t as int,
            w as int,
            r,
            cfg.hd,
        ),
{
    let hd = cfg.hd as int;
    let (l1, l2) = (seq![b as int, n as int, t as int], seq![1, n as int, w as int]);
    assert(l1.push(hd) =~= heads(b, n, t as int, cfg.hd));
    assert(l2.push(hd) =~= heads(1, n, w as int, cfg.hd));
    assert(is_shared(p, weight(side, slot), weight(side, slot), seq![hd]));
    row_norm(p, t1, t2, side, slot, l1, l2, seq![r, 0, 0, 0], hd);
}

/// Heads projected, normalised and turned.
pub proof fn row_turned<E>(
    p: Pair<E>,
    cfg: &KalmConfig,
    sizes: Sizes,
    t1: Term,
    t2: Term,
    side: Side,
    i: usize,
    part: Part,
    norm: Part,
    n: i32,
    b: i32,
    t: i32,
    w: i32,
    r: int,
)
    requires
        share_weights(p, cfg, sizes),
        weight_extents(cfg, sizes, side, Slot::Layer(i, part)) == Some(
            seq![n * cfg.hd, cfg.h as int],
        ),
        weight_extents(cfg, sizes, side, Slot::Layer(i, norm)) == Some(seq![cfg.hd as int]),
        are_states(p, t1, t2, b, t, w, r, cfg.h as int),
        0 < b,
        0 < n,
        0 < w <= t,
        0 <= r < b,
    ensures
        are_heads(
            p,
            turned_term(cfg, t1, side, i, part, norm, n, b, t),
            turned_term(cfg, t2, side, i, part, norm, n, 1, w),
            b,
            n,
            t as int,
            w as int,
            r,
            cfg.hd,
        ),
{
    let lt = cfg.layer_type(side, i as int);
    let slot = Slot::Layer(i, norm);
    row_prj(p, cfg, sizes, t1, t2, side, i, part, n, b, t, w, r);
    let (x1, x2) = (
        prj_term(cfg, t1, side, i, part, n, b, t),
        prj_term(cfg, t2, side, i, part, n, 1, w),
    );
    row_norm_heads(p, cfg, sizes, x1, x2, side, slot, n, b, t, w, r);
    let freqs = leaf(Kind::InvFreq(side, lt));
    assert(is_shared(p, freqs, freqs, seq![cfg.hd as int / 2]));
    let (y1, y2) = (norm_term(x1, side, slot), norm_term(x2, side, slot));
    row_rope(p, y1, y2, side, lt, b, n, t, w, r, cfg.hd);
}

/// The one key head, once for every query head.
pub proof fn row_repeat<E>(
    p: Pair<E>,
    cfg: &KalmConfig,
    t1: Term,
    t2: Term,
    b: i32,
    t: int,
    w: int,
    r: int,
)
    requires
        fits_together(cfg),
        are_heads(p, t1, t2, b, cfg.nkv, t, w, r, cfg.hd),
    ensures
        are_heads(
            p,
            repeat_kv_term(cfg, t1),
            repeat_kv_term(cfg, t2),
            b,
            cfg.nh,
            t,
            w,
            r,
            cfg.hd,
        ),
{
    let (s1, s2) = (heads(b, cfg.nkv, t, cfg.hd), heads(1, cfg.nkv, w, cfg.hd));
    part_repeat(p, cfg.nh, 1, t1, t2, s1, s2, seq![r, 0, 0, 0]);
    let (one, n) = (cfg.nkv as int, cfg.nh);
    assert(one * n == n) by (nonlinear_arith)
        requires
            one == 1,
    ;
    assert(s1.update(1, s1[1] * cfg.nh) =~= heads(b, cfg.nh, t, cfg.hd));
    assert(s2.update(1, s2[1] * cfg.nh) =~= heads(1, cfg.nh, w, cfg.hd));
}

/// The heads of a position side by side.
pub proof fn lemma_merged(b: i32, t: i32, n: i32, d: i32)
    requires
        0 < b,
        0 < t,
        0 < n,
        0 < d,
        n * d <= i32::MAX,
    ensures
        reshaped(
            seq![b as int, t as int, n as int, d as int],
            extents(Dims::D3(b, t, (n * d) as i32)),
        ) == Some(seq![b as int, t as int, n * d]),
{
    let to = seq![b as int, t as int, n * d];
    assert(n * d >= 0) by (nonlinear_arith)
        requires
            0 < n,
            0 < d,
    ;
    assert(extents(Dims::D3(b, t, (n * d) as i32)) =~= to);
    lemma_product(b as int, t as int, n as int, d as int);
    lemma_product(b as int, t as int, n * d, 1);
    assert(b * t * n * d == b * t * (n * d)) by (nonlinear_arith);
    lemma_reshaped(seq![b as int, t as int, n as int, d as int], to);
}

/// The attention's output merged, projected, normalised and added.
proof fn row_after_attention<E>(
    p: Pair<E>,
    cfg: &KalmConfig,
    sizes: Sizes,
    t1: Term,
    t2: Term,
    o1: Term,
    o2: Term,
    side: Side,
    i: usize,
    b: i32,
    t: i32,
    w: i32,
    r: int,
)
    requires
        share_weights(p, cfg, sizes),
        are_states(p, t1, t2, b, t, w, r, cfg.h as int),
        are_heads(p, o1, o2, b, cfg.nh, t as int, w as int, r, cfg.hd),
        0 < b,
        0 < w <= t,
        0 <= r < b,
    ensures
        are_states(
            p,
            after_attention_term(cfg, t1, o1, b, t, side, i),
            after_attention_term(cfg, t2, o2, 1, w, side, i),
            b,
            t,
            w,
            r,
            cfg.h as int,
        ),
{
    let h = cfg.h as int;
    let all = cfg.nh * cfg.hd;
    lemma_merged(b, t, cfg.nh, cfg.hd);
    lemma_merged(1, w, cfg.nh, cfg.hd);
    let (d1, d2) = (Dims::D3(b, t, all as i32), Dims::D3(1, w, all as i32));
    part_join_heads(p, d1, d2, o1, o2, b, t, w, cfg.nh, cfg.hd, r);
    let swap = Kind::Permute(Dims::D4(0, 2, 1, 3));
    let (m1, m2) = (
        unary(Kind::Reshape(d1), unary(swap, o1)),
        unary(Kind::Reshape(d2), unary(swap, o2)),
    );
    row_times(p, cfg, sizes, m1, m2, side, i, Part::OProj, b, t, w, r, all, h);
    let (x1, x2) = (times_term(m1, side, i, Part::OProj), times_term(m2, side, i, Part::OProj));
    let slot = Slot::Layer(i, Part::PostSelfAttnNorm);
    row_norm_states(p, cfg, sizes, x1, x2, side, slot, b, t, w, r);
    part_zip_same(
        p,
        Kind::Add,
        t1,
        t2,
        norm_term(x1, side, slot),
        norm_term(x2, side, slot),
        wide(b, t, h),
        wide(1, w, h),
        seq![r, 0, 0],
    );
}

/// The gated feed-forward half of a layer.
proof fn row_feedforward<E>(
    p: Pair<E>,
    cfg: &KalmConfig,
    sizes: Sizes,
    t1: Term,
    t2: Term,
    side: Side,
    i: usize,
    b: i32,
    t: i32,
    w: i32,
    r: int,
)
    requires
        share_weights(p, cfg, sizes),
        are_states(p, t1, t2, b, t, w, r, cfg.h as int),
    ensures
        are_states(
            p,
            feedforward_term(t1, side, i),
            feedforward_term(t2, side, i),
            b,
            t,
            w,
            r,
            cfg.h as int,
        ),
{
    let h = cfg.h as int;
    let inner = sizes.inner(side);
    let off = seq![r, 0, 0];
    let (s1, s2) = (wide(b, t, inner), wide(1, w, inner));
    let before = Slot::Layer(i, Part::PreFeedforwardNorm);
    row_norm_states(p, cfg, sizes, t1, t2, side, before, b, t, w, r);
    let (x1, x2) = (norm_term(t1, side, before), norm_term(t2, side, before));
    row_times(p, cfg, sizes, x1, x2, side, i, Part::GateProj, b, t, w, r, h, inner);
    row_times(p, cfg, sizes, x1, x2, side, i, Part::UpProj, b, t, w, r, h, inner);
    let (g1, g2) = (
        times_term(x1, side, i, Part::GateProj),
        times_term(x2, side, i, Part::GateProj),
    );
    let (u1, u2) = (times_term(x1, side, i, Part::UpProj), times_term(x2, side, i, Part::UpProj));
    row_gelu(p, g1, g2, s1, s2, off);
    part_zip_same(p, Kind::Multiply, gelu_term(g1), gelu_term(g2), u1, u2, s1, s2, off);
    let (m1, m2) = (
        binary(Kind::Multiply, gelu_term(g1), u1),
        binary(Kind::Multiply, gelu_term(g2), u2),
    );
    row_times(p, cfg, sizes, m1, m2, side, i, Part::DownProj, b, t, w, r, inner, h);
    let (d1, d2) = (
        times_term(m1, side, i, Part::DownProj),
        times_term(m2, side, i, Part::DownProj),
    );
    let after = Slot::Layer(i, Part::PostFeedforwardNorm);
    row_norm_states(p, cfg, sizes, d1, d2, side, after, b, t, w, r);
    part_zip_same(
        p,
        Kind::Add,
        t1,
        t2,
        norm_term(d1, side, after),
        norm_term(d2, side, after),
        wide(b, t, h),
        wide(1, w, h),
        off,
    );
}

/// What follows the attention of a layer.
pub proof fn row_tail<E>(
    p: Pair<E>,
    cfg: &KalmConfig,
    sizes: Sizes,
    t1: Term,
    t2: Term,
    o1: Term,
    o2: Term,
    side: Side,
    i: usize,
    b: i32,
    t: i32,
    w: i32,
    r: int,
)
    requires
        share_weights(p, cfg, sizes),
        are_states(p, t1, t2, b, t, w, r, cfg.h as int),
        are_heads(p, o1, o2, b, cfg.nh, t as int, w as int, r, cfg.hd),
        0 < b,
        0 < w <= t,
        0 <= r < b,
    ensures
        are_states(
            p,
            block_tail_term(cfg, t1, o1, b, t, side, i),
            block_tail_term(cfg, t2, o2, 1, w, side, i),
            b,
            t,
            w,
            r,
            cfg.h as int,
        ),
{
    row_after_attention(p, cfg, sizes, t1, t2, o1, o2, side, i, b, t, w, r);
    let (x1, x2) = (
        after_attention_term(cfg, t1, o1, b, t, side, i),
        after_attention_term(cfg, t2, o2, 1, w, side, i),
    );
    row_feedforward(p, cfg, sizes, x1, x2, side, i, b, t, w, r);
}

/// The embeddings of tokens, scaled.
pub proof fn row_embedded<E>(
    p: Pair<E>,
    cfg: &KalmConfig,
    sizes: Sizes,
    t1: Term,
    t2: Term,
    b: i32,
    t: i32,
    w: i32,
    r: int,
)
    requires
        share_weights(p, cfg, sizes),
        0 < b,
        0 < w <= t,
        0 <= r < b,
        is_part(p, t1, t2, seq![b as int, t as int], seq![1, w as int], seq![r, 0]),
    ensures
        are_states(
            p,
            embedded_term(cfg, t1, b, t),
            embedded_term(cfg, t2, 1, w),
            b,
            t,
            w,
            r,
            cfg.h as int,
        ),
{
    let h = cfg.h as int;
    let table = embedding();
    assert(is_shared(
        p,
        weight(Side::Encoder, Slot::Embedding),
        weight(Side::Encoder, Slot::Embedding),
        seq![sizes.vocab, h],
    ));
    part_embedded(p, t1, t2, table, sizes.vocab, b, t, w, cfg.h, r);
    let flat = Kind::Reshape(Dims::D1(REST));
    let take = Kind::Take { axis: 0 };
    let (x1, x2) = (
        unary(Kind::Reshape(Dims::D3(b, t, cfg.h)), binary(take, table, unary(flat, t1))),
        unary(Kind::Reshape(Dims::D3(1, w, cfg.h)), binary(take, table, unary(flat, t2))),
    );
    let number = leaf(Kind::Const(Num::EmbScale));
    shared_number(p, Num::EmbScale);
    shared_map(p, Kind::Cast(Ty::Bf16), number, number, seq![]);
    let scale = unary(Kind::Cast(Ty::Bf16), number);
    let (s1, s2) = (wide(b, t, h), wide(1, w, h));
    part_zip_number(p, Kind::Multiply, x1, x2, s1, s2, seq![r, 0, 0], scale, scale);
}

/// Whether a mask of one number for each token has zeros behind the window.
pub open spec fn marks_end<E>(p: Pair<E>, m1: Term, r: int, w: int, t: int) -> bool {
    forall|c: int|
        w <= c < t ==> (first(p, m1).at)(#[trigger] seq_at(r, c)) == zero(p.ar)
}

/// The index of position `c` of row `r`.
pub open spec fn seq_at(r: int, c: int) -> Seq<int> {
    seq![r, c]
}

/// A large negative number for every zero, one number for each key, and the zeros
/// behind the window.
pub proof fn row_hide<E>(
    p: Pair<E>,
    m1: Term,
    m2: Term,
    b: i32,
    t: i32,
    w: i32,
    r: int,
)
    requires
        ignores_padding(p.ar),
        0 < b,
        0 < w <= t,
        0 <= r < b,
        is_part(p, m1, m2, seq![b as int, t as int], seq![1, w as int], seq![r, 0]),
        marks_end(p, m1, r, w as int, t as int),
    ensures
        ({
            let (k1, k2) = (Kind::Reshape(Dims::D4(b, 1, 1, t)), Kind::Reshape(Dims::D4(1, 1, 1, w)));
            let h1 = hide_zeros_term(unary(k1, m1));
            &&& is_part(
                p,
                h1,
                hide_zeros_term(unary(k2, m2)),
                seq![b as int, 1, 1, t as int],
                seq![1, 1, 1, w as int],
                seq![r, 0, 0, 0],
            )
            &&& forall|c: int|
                w <= c < t ==> (first(p, h1).at)(#[trigger] key_index(r, c)) == (p.ar.num)(
                    dec(-1, 30),
                )
        }),
{
    let (s1, s2) = (seq![b as int, 1, 1, t as int], seq![1, 1, 1, w as int]);
    let off = seq![r, 0, 0, 0];
    part_keys(p, m1, m2, b, t, w, r);
    let (k1, k2) = (
        unary(Kind::Reshape(Dims::D4(b, 1, 1, t)), m1),
        unary(Kind::Reshape(Dims::D4(1, 1, 1, w)), m2),
    );
    let (nil, neg) = (literal(0, 0), literal(-1, 30));
    shared_number(p, dec(0, 0));
    shared_number(p, dec(-1, 30));
    part_zip_number(p, Kind::Equal, k1, k2, s1, s2, off, nil, nil);
    let (c1, c2) = (binary(Kind::Equal, k1, nil), binary(Kind::Equal, k2, nil));
    part_which(p, c1, c2, s1, s2, off, neg, nil);
    lemma_zip_at(p, Kind::Equal, k1, nil);
    let h1 = hide_zeros_term(k1);
    assert(first(p, k1).shape == s1 && first(p, nil).shape == Seq::<int>::empty()) by {
        reveal(is_part);
        reveal(is_shared);
    }
    assert forall|c: int| w <= c < t implies (first(p, h1).at)(#[trigger] key_index(r, c)) == (
    p.ar.num)(dec(-1, 30)) by {
        let j = key_index(r, c);
        assert(in_range(j, s1));
        assert(project(j, s1) =~= j);
        assert(project(j, Seq::<int>::empty()) =~= seq![]);
        assert(seq![j[0], j[3]] =~= seq_at(r, c));
    }
}

/// The index of key `c` of row `r` in a mask for all heads and queries.
pub open spec fn key_index(r: int, c: int) -> Seq<int> {
    seq![r, 0, 0, c]
}

/// Whether two terms are the additive masks of a batch and of one of its rows, with
/// every key behind the row hidden.
spec fn are_masks<E>(p: Pair<E>, m1: Term, m2: Term, b: i32, t: i32, w: i32, r: int) -> bool {
    &&& is_part(
        p,
        m1,
        m2,
        seq![b as int, 1, 1, t as int],
        seq![1, 1, 1, w as int],
        seq![r, 0, 0, 0],
    )
    &&& is_hidden(p.ar, first(p, m1), second(p, m2), seq![r, 0, 0, 0], 3)
}

/// The padding mask of the encoder.
proof fn row_mask<E>(
    p: Pair<E>,
    m1: Term,
    m2: Term,
    b: i32,
    t: i32,
    w: i32,
    r: int,
)
    requires
        ignores_padding(p.ar),
        0 < b,
        0 < w <= t,
        0 <= r < b,
        is_part(p, m1, m2, seq![b as int, t as int], seq![1, w as int], seq![r, 0]),
        marks_end(p, m1, r, w as int, t as int),
    ensures
        are_masks(
            p,
            unary(
                Kind::Cast(Ty::Bf16),
                hide_zeros_term(unary(Kind::Reshape(Dims::D4(b, 1, 1, t)), m1)),
            ),
            unary(
                Kind::Cast(Ty::Bf16),
                hide_zeros_term(unary(Kind::Reshape(Dims::D4(1, 1, 1, w)), m2)),
            ),
            b,
            t,
            w,
            r,
        ),
{
    let (s1, s2) = (seq![b as int, 1, 1, t as int], seq![1, 1, 1, w as int]);
    let off = seq![r, 0, 0, 0];
    row_hide(p, m1, m2, b, t, w, r);
    let (h1, h2) = (
        hide_zeros_term(unary(Kind::Reshape(Dims::D4(b, 1, 1, t)), m1)),
        hide_zeros_term(unary(Kind::Reshape(Dims::D4(1, 1, 1, w)), m2)),
    );
    let cast = Kind::Cast(Ty::Bf16);
    part_map(p, cast, h1, h2, s1, s2, off);
    lemma_cast_at(p, Ty::Bf16, h1);
    assert(first(p, unary(cast, h1)).shape == s1 && second(p, unary(cast, h2)).shape == s2) by {
        reveal(is_part);
    }
    assert forall|i: Seq<int>| #[trigger] is_behind(i, s1, s2, 3) implies (p.ar.hides)(
        (first(p, unary(cast, h1)).at)(shifted(i, off)),
    ) by {
        assert(0 <= i[0] < s2[0] && 0 <= i[1] < s2[1] && 0 <= i[2] < s2[2]);
        assert(shifted(i, off) =~= key_index(r, i[3]));
    }
}

/// A layer of the encoder.
proof fn row_encoder_layer<E>(
    p: Pair<E>,
    cfg: &KalmConfig,
    sizes: Sizes,
    t1: Term,
    t2: Term,
    m1: Term,
    m2: Term,
    i: usize,
    b: i32,
    t: i32,
    w: i32,
    r: int,
)
    requires
        share_weights(p, cfg, sizes),
        are_states(p, t1, t2, b, t, w, r, cfg.h as int),
        are_masks(p, m1, m2, b, t, w, r),
        0 < b,
        0 < w <= t,
        0 <= r < b,
    ensures
        are_states(
            p,
            encoder_layer_term(cfg, t1, m1, i, b, t),
            encoder_layer_term(cfg, t2, m2, i, 1, w),
            b,
            t,
            w,
            r,
            cfg.h as int,
        ),
{
    let side = Side::Encoder;
    let slot = Slot::Layer(i, Part::PreSelfAttnNorm);
    row_norm_states(p, cfg, sizes, t1, t2, side, slot, b, t, w, r);
    let (x1, x2) = (norm_term(t1, side, slot), norm_term(t2, side, slot));
    row_turned(p, cfg, sizes, x1, x2, side, i, Part::QProj, Part::QNorm, cfg.nh, b, t, w, r);
    row_turned(p, cfg, sizes, x1, x2, side, i, Part::KProj, Part::KNorm, cfg.nkv, b, t, w, r);
    row_prj(p, cfg, sizes, x1, x2, side, i, Part::VProj, cfg.nkv, b, t, w, r);
    let (q1, q2) = (
        turned_term(cfg, x1, side, i, Part::QProj, Part::QNorm, cfg.nh, b, t),
        turned_term(cfg, x2, side, i, Part::QProj, Part::QNorm, cfg.nh, 1, w),
    );
    let (k1, k2) = (
        turned_term(cfg, x1, side, i, Part::KProj, Part::KNorm, cfg.nkv, b, t),
        turned_term(cfg, x2, side, i, Part::KProj, Part::KNorm, cfg.nkv, 1, w),
    );
    let (v1, v2) = (
        prj_term(cfg, x1, side, i, Part::VProj, cfg.nkv, b, t),
        prj_term(cfg, x2, side, i, Part::VProj, cfg.nkv, 1, w),
    );
    row_repeat(p, cfg, k1, k2, b, t as int, w as int, r);
    row_repeat(p, cfg, v1, v2, b, t as int, w as int, r);
    let (s1, s2) = (heads(b, cfg.nh, t as int, cfg.hd), heads(1, cfg.nh, w as int, cfg.hd));
    part_attention(
        p,
        Num::AttnScale,
        q1,
        q2,
        repeat_kv_term(cfg, k1),
        repeat_kv_term(cfg, k2),
        repeat_kv_term(cfg, v1),
        repeat_kv_term(cfg, v2),
        m1,
        m2,
        s1,
        s2,
        s1,
        s2,
        seq![b as int, 1, 1, t as int],
        seq![1, 1, 1, w as int],
        r,
    );
    let kind = Kind::Attention(Num::AttnScale);
    let o1 = quaternary(kind, q1, repeat_kv_term(cfg, k1), repeat_kv_term(cfg, v1), m1);
    let o2 = quaternary(kind, q2, repeat_kv_term(cfg, k2), repeat_kv_term(cfg, v2), m2);
    row_tail(p, cfg, sizes, t1, t2, o1, o2, side, i, b, t, w, r);
}

proof fn row_encoder_layers<E>(
    p: Pair<E>,
    cfg: &KalmConfig,
    sizes: Sizes,
    t1: Term,
    t2: Term,
    m1: Term,
    m2: Term,
    n: nat,
    b: i32,
    t: i32,
    w: i32,
    r: int,
)
    requires
        share_weights(p, cfg, sizes),
        are_states(p, t1, t2, b, t, w, r, cfg.h as int),
        are_masks(p, m1, m2, b, t, w, r),
        0 < b,
        0 < w <= t,
        0 <= r < b,
    ensures
        are_states(
            p,
            encoder_layers_term(cfg, t1, m1, n, b, t),
            encoder_layers_term(cfg, t2, m2, n, 1, w),
            b,
            t,
            w,
            r,
            cfg.h as int,
        ),
    decreases n,
{
    if n > 0 {
        let j = (n - 1) as nat;
        row_encoder_layers(p, cfg, sizes, t1, t2, m1, m2, j, b, t, w, r);
        let (h1, h2) = (
            encoder_layers_term(cfg, t1, m1, j, b, t),
            encoder_layers_term(cfg, t2, m2, j, 1, w),
        );
        row_encoder_layer(p, cfg, sizes, h1, h2, m1, m2, (n - 1) as usize, b, t, w, r);
    }
}

/// The hidden states of a row in the encoder, whatever batch holds it.
pub proof fn row_encoder_states<E>(
    p: Pair<E>,
    cfg: &KalmConfig,
    sizes: Sizes,
    i1: Term,
    i2: Term,
    m1: Term,
    m2: Term,
    b: i32,
    t: i32,
    w: i32,
    r: int,
)
    requires
        ignores_padding(p.ar),
        share_weights(p, cfg, sizes),
        0 < b,
        0 < w <= t,
        0 <= r < b,
        is_part(p, i1, i2, seq![b as int, t as int], seq![1, w as int], seq![r, 0]),
        is_part(p, m1, m2, seq![b as int, t as int], seq![1, w as int], seq![r, 0]),
        marks_end(p, m1, r, w as int, t as int),
    ensures
        are_states(
            p,
            encoder_states_term(cfg, i1, m1, b, t),
            encoder_states_term(cfg, i2, m2, 1, w),
            b,
            t,
            w,
            r,
            cfg.h as int,
        ),
{
    row_mask(p, m1, m2, b, t, w, r);
    let cast = Kind::Cast(Ty::Bf16);
    let (k1, k2) = (
        unary(cast, hide_zeros_term(unary(Kind::Reshape(Dims::D4(b, 1, 1, t)), m1))),
        unary(cast, hide_zeros_term(unary(Kind::Reshape(Dims::D4(1, 1, 1, w)), m2))),
    );
    row_embedded(p, cfg, sizes, i1, i2, b, t, w, r);
    let (x1, x2) = (embedded_term(cfg, i1, b, t), embedded_term(cfg, i2, 1, w));
    row_encoder_layers(p, cfg, sizes, x1, x2, k1, k2, cfg.enl as nat, b, t, w, r);
    let (h1, h2) = (
        encoder_layers_term(cfg, x1, k1, cfg.enl as nat, b, t),
        encoder_layers_term(cfg, x2, k2, cfg.enl as nat, 1, w),
    );
    row_norm_states(p, cfg, sizes, h1, h2, Side::Encoder, Slot::FinalNorm, b, t, w, r);
}

} // verus!
