//! Linked states in the layers of the encoder-decoder.

use crate::graph::{binary, dec, leaf, literal, unary};
use crate::graph::{Dims, Kind, LayerType, Num, Part, Side, Slot, Term, Ty, REST};
use crate::kalm::{after_attention_term, block_tail_term, cos_term, embedded_term, embedding};
use crate::kalm::{feedforward_term, gelu_term, half_of, norm_term, prj_term, repeat_kv_term};
use crate::kalm::{rope_term, sin_term, times_term, turned_term, weight};
use crate::kalm_config::KalmConfig;
use crate::kalm_rows::{heads, lemma_merged, row_angles, share_weights, wide};
use crate::kalm_shapes::{fits_together, weight_extents, Sizes};
use crate::link_heads::{like_embedded, like_join_heads, like_split_heads};
use crate::links::{is_like, like_cast_like, like_concat_last, like_linear, like_map};
use crate::links::{like_mean_last, like_repeat, like_slice_last, like_zip_last, like_zip_same};
use crate::links::{like_zip_shared, like_zip_table, stays, Link};
use crate::parts::{is_shared, shared_map, shared_number, shared_zip_number, Pair};
use vstd::prelude::*;

verus! {

/// A normalisation, along the last axis.
pub proof fn like_norm<E>(
    p: Pair<E>,
    t: Term,
    side: Side,
    slot: Slot,
    s: Seq<int>,
    d: int,
    ax: int,
    l: Link,
)
    requires
        is_like(p, t, s.push(d), ax, l),
        ax < s.len(),
        is_shared(p, weight(side, slot), weight(side, slot), seq![d]),
    ensures
        is_like(p, norm_term(t, side, slot), s.push(d), ax, l),
{
    let (full, one) = (s.push(d), s.push(1));
    let single = Kind::Cast(Ty::F32);
    let x = unary(single, t);
    like_map(p, single, t, full, ax, l);
    like_zip_same(p, Kind::Multiply, x, x, full, ax, l);
    let q = binary(Kind::Multiply, x, x);
    like_mean_last(p, q, s, d, ax, l);
    let mean = unary(Kind::Mean { axis: -1i32, keep: true }, q);
    let eps = leaf(Kind::Const(Num::Eps));
    shared_number(p, Num::Eps);
    like_zip_shared(p, Kind::Add, mean, eps, one, seq![], ax, l);
    let e = binary(Kind::Add, mean, eps);
    like_map(p, Kind::Rsqrt, e, one, ax, l);
    let inv = unary(Kind::Rsqrt, e);
    like_zip_last(p, Kind::Multiply, x, inv, s, d, ax, l);
    let m = binary(Kind::Multiply, x, inv);
    let w = weight(side, slot);
    shared_map(p, single, w, w, seq![d]);
    shared_number(p, dec(1, 0));
    shared_zip_number(p, Kind::Add, literal(1, 0), unary(single, w), seq![d]);
    let scale = binary(Kind::Add, literal(1, 0), unary(single, w));
    like_zip_shared(p, Kind::Multiply, m, scale, full, seq![d], ax, l);
    like_cast_like(p, binary(Kind::Multiply, m, scale), t, full, full, ax, ax, l);
}

/// The activation of a gate.
proof fn like_gelu<E>(p: Pair<E>, t: Term, s: Seq<int>, ax: int, l: Link)
    requires
        is_like(p, t, s, ax, l),
    ensures
        is_like(p, gelu_term(t), s, ax, l),
{
    let mul = Kind::Multiply;
    let none = Seq::<int>::empty();
    shared_number(p, dec(44715, -6));
    shared_number(p, dec(7978845608028654, -16));
    shared_number(p, dec(5, -1));
    shared_number(p, dec(1, 0));
    like_zip_same(p, mul, t, t, s, ax, l);
    let a = binary(mul, t, t);
    like_zip_same(p, mul, a, t, s, ax, l);
    let b = binary(mul, a, t);
    let k = literal(44715, -6);
    like_zip_shared(p, mul, b, k, s, none, ax, l);
    let c = binary(mul, b, k);
    like_zip_same(p, Kind::Add, t, c, s, ax, l);
    let d = binary(Kind::Add, t, c);
    let m = literal(7978845608028654, -16);
    like_zip_shared(p, mul, d, m, s, none, ax, l);
    let e = binary(mul, d, m);
    like_map(p, Kind::Tanh, e, s, ax, l);
    let one = literal(1, 0);
    let f = unary(Kind::Tanh, e);
    like_zip_shared(p, Kind::Add, f, one, s, none, ax, l);
    let half = literal(5, -1);
    like_zip_shared(p, mul, t, half, s, none, ax, l);
    let (g, h) = (binary(mul, t, half), binary(Kind::Add, f, one));
    like_zip_same(p, mul, g, h, s, ax, l);
    like_cast_like(p, binary(mul, g, h), t, s, s, ax, ax, l);
}

/// A rotation of heads by their positions.
proof fn like_rope<E>(
    p: Pair<E>,
    x: Term,
    side: Side,
    lt: LayerType,
    b: i32,
    n: i32,
    t: i32,
    hd: i32,
    l: Link,
)
    requires
        0 < t,
        0 < hd,
        hd as int % 2 == 0,
        stays(l),
        is_shared(
            p,
            leaf(Kind::InvFreq(side, lt)),
            leaf(Kind::InvFreq(side, lt)),
            seq![hd as int / 2],
        ),
        is_like(p, x, heads(b, n, t as int, hd), 2, l),
    ensures
        is_like(
            p,
            rope_term(x, cos_term(side, lt, t), sin_term(side, lt, t), hd),
            heads(b, n, t as int, hd),
            2,
            l,
        ),
{
    let half = half_of(hd);
    assert(half * 2 == hd);
    let s = heads(b, n, t as int, hd);
    let three = seq![b as int, n as int, t as int];
    let z = heads(b, n, t as int, half);
    assert(three.push(hd as int) =~= s && three.push(half as int) =~= z);
    like_slice_last(p, x, three, hd as int, 0, half, 2, l);
    like_slice_last(p, x, three, hd as int, half, hd, 2, l);
    let (front, back) = (
        unary(Kind::SliceLast { from: 0, to: half }, x),
        unary(Kind::SliceLast { from: half, to: hd }, x),
    );
    let minus = literal(-1, 0);
    shared_number(p, dec(-1, 0));
    like_zip_shared(p, Kind::Multiply, back, minus, z, seq![], 2, l);
    let m = binary(Kind::Multiply, back, minus);
    like_concat_last(p, m, front, three, half as int, half as int, 2, l);
    let rot = binary(Kind::Concat { axis: -1i32 }, m, front);
    row_angles(p, side, lt, t, t, hd);
    let (c, n) = (cos_term(side, lt, t), sin_term(side, lt, t));
    assert(heads(1, 1, t as int, hd) =~= seq![1, 1, s[2], s[3]]);
    like_zip_table(p, Kind::Multiply, x, c, s, l);
    like_zip_table(p, Kind::Multiply, rot, n, s, l);
    let (u, v) = (binary(Kind::Multiply, x, c), binary(Kind::Multiply, rot, n));
    like_zip_same(p, Kind::Add, u, v, s, 2, l);
    like_cast_like(p, binary(Kind::Add, u, v), x, s, s, 2, 2, l);
}

/// A product with the weight of a layer.
proof fn like_times<E>(
    p: Pair<E>,
    cfg: &KalmConfig,
    sizes: Sizes,
    x: Term,
    side: Side,
    i: usize,
    part: Part,
    b: i32,
    t: i32,
    from: int,
    to: int,
    l: Link,
)
    requires
        share_weights(p, cfg, sizes),
        weight_extents(cfg, sizes, side, Slot::Layer(i, part)) == Some(seq![to, from]),
        is_like(p, x, wide(b, t, from), 1, l),
        to >= 0,
    ensures
        is_like(p, times_term(x, side, i, part), wide(b, t, to), 1, l),
{
    let two = seq![b as int, t as int];
    assert(two.push(from) =~= wide(b, t, from) && two.push(to) =~= wide(b, t, to));
    let w = weight(side, Slot::Layer(i, part));
    like_linear(p, x, w, two, from, to, 1, l);
}

/// A normalisation of hidden states.
pub proof fn like_norm_states<E>(
    p: Pair<E>,
    cfg: &KalmConfig,
    sizes: Sizes,
    x: Term,
    side: Side,
    slot: Slot,
    b: i32,
    t: i32,
    l: Link,
)
    requires
        share_weights(p, cfg, sizes),
        weight_extents(cfg, sizes, side, slot) == Some(seq![cfg.h as int]),
        is_like(p, x, wide(b, t, cfg.h as int), 1, l),
    ensures
        is_like(p, norm_term(x, side, slot), wide(b, t, cfg.h as int), 1, l),
{
    let h = cfg.h as int;
    let two = seq![b as int, t as int];
    assert(two.push(h) =~= wide(b, t, h));
    assert(is_shared(p, weight(side, slot), weight(side, slot), seq![h]));
    like_norm(p, x, side, slot, two, h, 1, l);
}

/// A projection of hidden states to heads.
pub proof fn like_prj<E>(
    p: Pair<E>,
    cfg: &KalmConfig,
    sizes: Sizes,
    x: Term,
    side: Side,
    i: usize,
    part: Part,
    n: i32,
    b: i32,
    t: i32,
    l: Link,
)
    requires
        share_weights(p, cfg, sizes),
        weight_extents(cfg, sizes, side, Slot::Layer(i, part)) == Some(
            seq![n * cfg.hd, cfg.h as int],
        ),
        is_like(p, x, wide(b, t, cfg.h as int), 1, l),
        0 < b,
        0 < n,
        0 < t,
    ensures
        is_like(
            p,
            prj_term(cfg, x, side, i, part, n, b, t),
            heads(b, n, t as int, cfg.hd),
            2,
            l,
        ),
{
    let hd = cfg.hd;
    assert(n * hd >= 0) by (nonlinear_arith)
        requires
            0 < n,
            0 < hd,
    ;
    like_times(p, cfg, sizes, x, side, i, part, b, t, cfg.h as int, n * cfg.hd, l);
    like_split_heads(p, times_term(x, side, i, part), b, t, n, cfg.hd, l);
}

/// A normalisation of heads.
pub proof fn like_norm_heads<E>(
    p: Pair<E>,
    cfg: &KalmConfig,
    sizes: Sizes,
    x: Term,
    side: Side,
    slot: Slot,
    n: i32,
    b: i32,
    t: i32,
    l: Link,
)
    requires
        share_weights(p, cfg, sizes),
        weight_extents(cfg, sizes, side, slot) == Some(seq![cfg.hd as int]),
        is_like(p, x, heads(b, n, t as int, cfg.hd), 2, l),
    ensures
        is_like(p, norm_term(x, side, slot), heads(b, n, t as int, cfg.hd), 2, l),
{
    let hd = cfg.hd as int;
    let three = seq![b as int, n as int, t as int];
    assert(three.push(hd) =~= heads(b, n, t as int, cfg.hd));
    assert(is_shared(p, weight(side, slot), weight(side, slot), seq![hd]));
    like_norm(p, x, side, slot, three, hd, 2, l);
}

/// Heads projected, normalised and turned.
pub proof fn like_turned<E>(
    p: Pair<E>,
    cfg: &KalmConfig,
    sizes: Sizes,
    x: Term,
    side: Side,
    i: usize,
    part: Part,
    norm: Part,
    n: i32,
    b: i32,
    t: i32,
    l: Link,
)
    requires
        share_weights(p, cfg, sizes),
        weight_extents(cfg, sizes, side, Slot::Layer(i, part)) == Some(
            seq![n * cfg.hd, cfg.h as int],
        ),
        weight_extents(cfg, sizes, side, Slot::Layer(i, norm)) == Some(seq![cfg.hd as int]),
        is_like(p, x, wide(b, t, cfg.h as int), 1, l),
        stays(l),
        0 < b,
        0 < n,
        0 < t,
    ensures
        is_like(
            p,
            turned_term(cfg, x, side, i, part, norm, n, b, t),
            heads(b, n, t as int, cfg.hd),
            2,
            l,
        ),
{
    let lt = cfg.layer_type(side, i as int);
    let slot = Slot::Layer(i, norm);
    like_prj(p, cfg, sizes, x, side, i, part, n, b, t, l);
    let y = prj_term(cfg, x, side, i, part, n, b, t);
    like_norm_heads(p, cfg, sizes, y, side, slot, n, b, t, l);
    let freqs = leaf(Kind::InvFreq(side, lt));
    assert(is_shared(p, freqs, freqs, seq![cfg.hd as int / 2]));
    like_rope(p, norm_term(y, side, slot), side, lt, b, n, t, cfg.hd, l);
}

/// The one key head, once for every query head.
pub proof fn like_repeated<E>(p: Pair<E>, cfg: &KalmConfig, x: Term, b: i32, t: int, l: Link)
    requires
        fits_together(cfg),
        is_like(p, x, heads(b, cfg.nkv, t, cfg.hd), 2, l),
    ensures
        is_like(p, repeat_kv_term(cfg, x), heads(b, cfg.nh, t, cfg.hd), 2, l),
{
    let s = heads(b, cfg.nkv, t, cfg.hd);
    like_repeat(p, x, s, cfg.nh, l);
    let (one, n) = (cfg.nkv as int, cfg.nh);
    assert(one * n == n) by (nonlinear_arith)
        requires
            one == 1,
    ;
    assert(s.update(1, s[1] * cfg.nh) =~= heads(b, cfg.nh, t, cfg.hd));
}

/// The attention's output merged, projected, normalised and added.
proof fn like_after_attention<E>(
    p: Pair<E>,
    cfg: &KalmConfig,
    sizes: Sizes,
    x: Term,
    o: Term,
    side: Side,
    i: usize,
    b: i32,
    t: i32,
    l: Link,
)
    requires
        share_weights(p, cfg, sizes),
        is_like(p, x, wide(b, t, cfg.h as int), 1, l),
        is_like(p, o, heads(b, cfg.nh, t as int, cfg.hd), 2, l),
        0 < b,
        0 < t,
    ensures
        is_like(
            p,
            after_attention_term(cfg, x, o, b, t, side, i),
            wide(b, t, cfg.h as int),
            1,
            l,
        ),
{
    let h = cfg.h as int;
    let all = cfg.nh * cfg.hd;
    lemma_merged(b, t, cfg.nh, cfg.hd);
    let dims = Dims::D3(b, t, all as i32);
    like_join_heads(p, dims, o, b, t, cfg.nh, cfg.hd, l);
    let m = unary(Kind::Reshape(dims), unary(Kind::Permute(Dims::D4(0, 2, 1, 3)), o));
    like_times(p, cfg, sizes, m, side, i, Part::OProj, b, t, all, h, l);
    let y = times_term(m, side, i, Part::OProj);
    let slot = Slot::Layer(i, Part::PostSelfAttnNorm);
    like_norm_states(p, cfg, sizes, y, side, slot, b, t, l);
    like_zip_same(p, Kind::Add, x, norm_term(y, side, slot), wide(b, t, h), 1, l);
}

/// The gated feed-forward half of a layer.
proof fn like_feedforward<E>(
    p: Pair<E>,
    cfg: &KalmConfig,
    sizes: Sizes,
    x: Term,
    side: Side,
    i: usize,
    b: i32,
    t: i32,
    l: Link,
)
    requires
        share_weights(p, cfg, sizes),
        is_like(p, x, wide(b, t, cfg.h as int), 1, l),
    ensures
        is_like(p, feedforward_term(x, side, i), wide(b, t, cfg.h as int), 1, l),
{
    let h = cfg.h as int;
    let inner = sizes.inner(side);
    let s = wide(b, t, inner);
    let before = Slot::Layer(i, Part::PreFeedforwardNorm);
    like_norm_states(p, cfg, sizes, x, side, before, b, t, l);
    let y = norm_term(x, side, before);
    like_times(p, cfg, sizes, y, side, i, Part::GateProj, b, t, h, inner, l);
    like_times(p, cfg, sizes, y, side, i, Part::UpProj, b, t, h, inner, l);
    let g = times_term(y, side, i, Part::GateProj);
    let u = times_term(y, side, i, Part::UpProj);
    like_gelu(p, g, s, 1, l);
    like_zip_same(p, Kind::Multiply, gelu_term(g), u, s, 1, l);
    let m = binary(Kind::Multiply, gelu_term(g), u);
    like_times(p, cfg, sizes, m, side, i, Part::DownProj, b, t, inner, h, l);
    let d = times_term(m, side, i, Part::DownProj);
    let after = Slot::Layer(i, Part::PostFeedforwardNorm);
    like_norm_states(p, cfg, sizes, d, side, after, b, t, l);
    like_zip_same(p, Kind::Add, x, norm_term(d, side, after), wide(b, t, h), 1, l);
}

/// What follows the attention of a layer.
pub proof fn like_tail<E>(
    p: Pair<E>,
    cfg: &KalmConfig,
    sizes: Sizes,
    x: Term,
    o: Term,
    side: Side,
    i: usize,
    b: i32,
    t: i32,
    l: Link,
)
    requires
        share_weights(p, cfg, sizes),
        is_like(p, x, wide(b, t, cfg.h as int), 1, l),
        is_like(p, o, heads(b, cfg.nh, t as int, cfg.hd), 2, l),
        0 < b,
        0 < t,
    ensures
        is_like(p, block_tail_term(cfg, x, o, b, t, side, i), wide(b, t, cfg.h as int), 1, l),
{
    like_after_attention(p, cfg, sizes, x, o, side, i, b, t, l);
    let y = after_attention_term(cfg, x, o, b, t, side, i);
    like_feedforward(p, cfg, sizes, y, side, i, b, t, l);
}

/// The embeddings of tokens, scaled.
pub proof fn like_embeddings<E>(
    p: Pair<E>,
    cfg: &KalmConfig,
    sizes: Sizes,
    ids: Term,
    b: i32,
    t: i32,
    l: Link,
)
    requires
        share_weights(p, cfg, sizes),
        0 < b,
        0 < t,
        is_like(p, ids, seq![b as int, t as int], 1, l),
    ensures
        is_like(p, embedded_term(cfg, ids, b, t), wide(b, t, cfg.h as int), 1, l),
{
    let h = cfg.h as int;
    let table = embedding();
    assert(is_shared(
        p,
        weight(Side::Encoder, Slot::Embedding),
        weight(Side::Encoder, Slot::Embedding),
        seq![sizes.vocab, h],
    ));
    like_embedded(p, ids, table, sizes.vocab, b, t, cfg.h, l);
    let flat = Kind::Reshape(Dims::D1(REST));
    let take = Kind::Take { axis: 0 };
    let x = unary(Kind::Reshape(Dims::D3(b, t, cfg.h)), binary(take, table, unary(flat, ids)));
    let number = leaf(Kind::Const(Num::EmbScale));
    shared_number(p, Num::EmbScale);
    shared_map(p, Kind::Cast(Ty::Bf16), number, number, seq![]);
    let scale = unary(Kind::Cast(Ty::Bf16), number);
    like_zip_shared(p, Kind::Multiply, x, scale, wide(b, t, h), seq![], 1, l);
}

} // verus!
