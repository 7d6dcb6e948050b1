//! What the pooled states of the encoder depend on.

use crate::graph::{binary, dec, leaf, literal, quaternary, ternary, unary};
use crate::graph::{Dims, Kind, Num, Part, Side, Slot, Term, Ty};
use crate::kalm::{chunk_count, chunk_mask_term, chunk_pad, embedded_term, encoder_layer_term};
use crate::kalm::{encoder_layers_term, encoder_states_term, filled_term, hide_zeros_term};
use crate::kalm::{norm_term, pooled_mask_term, pooled_term, prj_term, repeat_kv_term};
use crate::kalm::{turned_term, CHUNK};
use crate::kalm_config::KalmConfig;
use crate::kalm_joined::{checkpoint_fits, lemma_share_checkpoint, Checkpoint};
use crate::kalm_links::{like_embeddings, like_norm_states, like_prj, like_repeated, like_tail};
use crate::kalm_links::like_turned;
use crate::kalm_pools::lemma_filled;
use crate::kalm_rows::{heads, marks_end, row_encoder_states, seq_at, share_weights, wide};
use crate::kalm_shapes::Sizes;
use crate::link_attention::{is_mask, like_attention, see_alike, told};
use crate::links::{at2, at3, at4, at_place, is_like, moved, stays, Link};
use crate::meaning::{divides_nothing, ignores_padding, in_range, line, project, total, value, zero};
use crate::meaning::{lemma_value0, lemma_value1, lemma_value2, lemma_value3, Arithmetic, Val};
use crate::parts::{first, is_part, second, Pair};
use crate::shapes::{extents, lemma_product, lemma_reshaped, lemma_stretched_into};
use crate::shapes::lemma_stretched_scalar;
use crate::types::Elem;
use crate::window_folds::lemma_grouped;
use crate::window_moves::{lemma_flat, lemma_reshape_at};
use crate::window_sums::lemma_total;
use crate::windows::{lemma_result1, lemma_result2, lemma_result3, shifted};
use vstd::prelude::*;

verus! {

/// A layer of the encoder.
proof fn like_encoder_layer<E>(
    p: Pair<E>,
    cfg: &KalmConfig,
    sizes: Sizes,
    t: Term,
    m: Term,
    i: usize,
    b: i32,
    n: i32,
    l: Link,
)
    requires
        share_weights(p, cfg, sizes),
        0 < b,
        0 < n,
        stays(l),
        is_like(p, t, wide(b, n, cfg.h as int), 1, l),
        is_mask(p, m, b as int, cfg.nh as int, n as int, n as int),
        see_alike(p, m, l, l, b as int, cfg.nh as int, n as int, n as int),
    ensures
        is_like(p, encoder_layer_term(cfg, t, m, i, b, n), wide(b, n, cfg.h as int), 1, l),
{
    let side = Side::Encoder;
    let slot = Slot::Layer(i, Part::PreSelfAttnNorm);
    like_norm_states(p, cfg, sizes, t, side, slot, b, n, l);
    let x = norm_term(t, side, slot);
    like_turned(p, cfg, sizes, x, side, i, Part::QProj, Part::QNorm, cfg.nh, b, n, l);
    like_turned(p, cfg, sizes, x, side, i, Part::KProj, Part::KNorm, cfg.nkv, b, n, l);
    like_prj(p, cfg, sizes, x, side, i, Part::VProj, cfg.nkv, b, n, l);
    let q = turned_term(cfg, x, side, i, Part::QProj, Part::QNorm, cfg.nh, b, n);
    let k = turned_term(cfg, x, side, i, Part::KProj, Part::KNorm, cfg.nkv, b, n);
    let v = prj_term(cfg, x, side, i, Part::VProj, cfg.nkv, b, n);
    like_repeated(p, cfg, k, b, n as int, l);
    like_repeated(p, cfg, v, b, n as int, l);
    let s = heads(b, cfg.nh, n as int, cfg.hd);
    let (rk, rv) = (repeat_kv_term(cfg, k), repeat_kv_term(cfg, v));
    assert(cfg.nh as int % cfg.nh as int == 0) by (nonlinear_arith)
        requires
            cfg.nh > 0,
    ;
    like_attention(p, Num::AttnScale, q, rk, rv, m, s, s, l, l);
    let o = quaternary(Kind::Attention(Num::AttnScale), q, rk, rv, m);
    like_tail(p, cfg, sizes, t, o, side, i, b, n, l);
}

proof fn like_encoder_layers<E>(
    p: Pair<E>,
    cfg: &KalmConfig,
    sizes: Sizes,
    t: Term,
    m: Term,
    c: nat,
    b: i32,
    n: i32,
    l: Link,
)
    requires
        share_weights(p, cfg, sizes),
        0 < b,
        0 < n,
        stays(l),
        is_like(p, t, wide(b, n, cfg.h as int), 1, l),
        is_mask(p, m, b as int, cfg.nh as int, n as int, n as int),
        see_alike(p, m, l, l, b as int, cfg.nh as int, n as int, n as int),
    ensures
        is_like(p, encoder_layers_term(cfg, t, m, c, b, n), wide(b, n, cfg.h as int), 1, l),
    decreases c,
{
    if c > 0 {
        let j = (c - 1) as nat;
        like_encoder_layers(p, cfg, sizes, t, m, j, b, n, l);
        let x = encoder_layers_term(cfg, t, m, j, b, n);
        like_encoder_layer(p, cfg, sizes, x, m, (c - 1) as usize, b, n, l);
    }
}

/// What the encoder's mask says of a token with mark `x`.
pub open spec fn said<E>(ar: Arithmetic<E>, x: E) -> E {
    (ar.cast)(
        Elem::Bf16,
        if (ar.holds)((ar.bin)(Kind::Equal, x, (ar.num)(dec(0, 0)))) {
            (ar.num)(dec(-1, 30))
        } else {
            (ar.num)(dec(0, 0))
        },
    )
}

/// The encoder's mask.
pub open spec fn key_mask_term(am: Term, b: i32, t: i32) -> Term {
    unary(
        Kind::Cast(Ty::Bf16),
        hide_zeros_term(unary(Kind::Reshape(Dims::D4(b, 1, 1, t)), am)),
    )
}

proof fn number_at<E>(ar: Arithmetic<E>, env: spec_fn(Kind) -> Val<E>, digits: int, exp: int)
    ensures
        value(ar, env, literal(digits, exp)).shape == Seq::<int>::empty(),
        forall|i: Seq<int>| #[trigger]
            (value(ar, env, literal(digits, exp)).at)(i) == (ar.num)(dec(digits, exp)),
{
    lemma_value0(ar, env, Kind::Const(dec(digits, exp)));
}

/// The elements of the encoder's mask.
pub proof fn key_mask_at<E>(
    ar: Arithmetic<E>,
    env: spec_fn(Kind) -> Val<E>,
    am: Term,
    b: i32,
    t: i32,
)
    requires
        0 < b,
        0 < t,
        value(ar, env, am).shape == seq![b as int, t as int],
    ensures
        ({
            let x = value(ar, env, key_mask_term(am, b, t));
            &&& x.shape == seq![b as int, 1, 1, t as int]
            &&& forall|r: int, c: int|
                0 <= r < b && 0 <= c < t ==> #[trigger] at4(x, r, 0, 0, c) == said(
                    ar,
                    at2(value(ar, env, am), r, c),
                )
        }),
{
    let m = value(ar, env, am);
    let (dims, to) = (Dims::D4(b, 1, 1, t), seq![b as int, 1, 1, t as int]);
    let k = unary(Kind::Reshape(dims), am);
    lemma_value1(ar, env, Kind::Reshape(dims), am);
    assert(extents(dims) =~= to);
    lemma_product(b as int, t as int, 1, 1);
    lemma_product(b as int, 1, 1, t as int);
    assert(b * 1 * 1 * t == b * t) by (nonlinear_arith);
    lemma_reshaped(m.shape, to);
    lemma_result1(ar, env, Kind::Reshape(dims), m);
    let (nil, neg) = (literal(0, 0), literal(-1, 30));
    number_at(ar, env, 0, 0);
    number_at(ar, env, -1, 30);
    let same = binary(Kind::Equal, k, nil);
    lemma_value2(ar, env, Kind::Equal, k, nil);
    lemma_result2(ar, env, Kind::Equal, value(ar, env, k), value(ar, env, nil));
    lemma_stretched_scalar(to);
    let pick = ternary(Kind::Which, same, neg, nil);
    lemma_value3(ar, env, Kind::Which, same, neg, nil);
    lemma_result3(
        ar,
        env,
        Kind::Which,
        value(ar, env, same),
        value(ar, env, neg),
        value(ar, env, nil),
    );
    lemma_stretched_scalar(seq![]);
    let cast = Kind::Cast(Ty::Bf16);
    lemma_value1(ar, env, cast, pick);
    lemma_result1(ar, env, cast, value(ar, env, pick));
    let x = value(ar, env, key_mask_term(am, b, t));
    assert forall|r: int, c: int| 0 <= r < b && 0 <= c < t implies #[trigger] at4(x, r, 0, 0, c)
        == said(ar, at2(m, r, c)) by {
        let (i, j) = (seq![r, 0, 0, c], seq![r, c]);
        assert(in_range(j, m.shape));
        lemma_flat(i, to);
        lemma_flat(j, m.shape);
        assert((r * 1 + 0) * 1 + 0 == r);
        lemma_reshape_at(ar, env, dims, m, to, i, j);
        assert(project(i, to) =~= i);
    }
}

/// Whether two batches of the same extents agree in row `r`, but for tokens whose mark
/// is zero.
pub open spec fn agree_in_row<E>(p: Pair<E>, ids: Term, am: Term, b: i32, t: i32, r: int) -> bool {
    &&& first(p, ids).shape == seq![b as int, t as int]
    &&& second(p, ids).shape == seq![b as int, t as int]
    &&& first(p, ids).elem == second(p, ids).elem
    &&& first(p, am).shape == seq![b as int, t as int]
    &&& second(p, am).shape == seq![b as int, t as int]
    &&& forall|c: int| 0 <= c < t ==> #[trigger] at2(first(p, am), r, c) == at2(second(p, am), r, c)
    &&& forall|c: int|
        0 <= c < t && at2(first(p, am), r, c) != zero(p.ar) ==> #[trigger] at2(first(p, ids), r, c)
            == at2(second(p, ids), r, c)
}

/// The states of the tokens of a row whose mark is not zero.
proof fn like_encoder_states<E>(
    p: Pair<E>,
    cfg: &KalmConfig,
    sizes: Sizes,
    ids: Term,
    am: Term,
    b: i32,
    t: i32,
    r: int,
)
    requires
        ignores_padding(p.ar),
        share_weights(p, cfg, sizes),
        0 < b,
        0 < t,
        0 <= r < b,
        agree_in_row(p, ids, am, b, t, r),
    ensures
        ({
            let s = encoder_states_term(cfg, ids, am, b, t);
            &&& first(p, s).shape == wide(b, t, cfg.h as int)
            &&& second(p, s).shape == wide(b, t, cfg.h as int)
            &&& forall|c: int, j: int|
                0 <= c < t && 0 <= j < cfg.h && at2(first(p, am), r, c) != zero(p.ar)
                    ==> #[trigger] at3(first(p, s), r, c, j) == at3(second(p, s), r, c, j)
        }),
{
    let marks = first(p, am);
    let l = at_place(|row: int, c: int| row == r && at2(marks, r, c) != zero(p.ar));
    let two = seq![b as int, t as int];
    let full = wide(b, t, cfg.h as int);
    assert(is_like(p, ids, two, 1, l)) by {
        reveal(is_like);
        assert forall|i: Seq<int>| #[trigger] in_range(i, two) && (l.keep)(i[0], i[1]) implies (
        first(p, ids).at)(moved(i, 1, l)) == (second(p, ids).at)(i) by {
            assert(0 <= i[0] < two[0] && 0 <= i[1] < two[1]);
            assert(i =~= seq![r, i[1]]);
            assert(moved(i, 1, l) =~= i);
            assert(at2(first(p, ids), r, i[1]) == at2(second(p, ids), r, i[1]));
        }
    }
    let m = key_mask_term(am, b, t);
    key_mask_at(p.ar, p.e1, am, b, t);
    key_mask_at(p.ar, p.e2, am, b, t);
    assert(see_alike(p, m, l, l, b as int, cfg.nh as int, t as int, t as int)) by {
        reveal(see_alike);
        assert forall|row: int, n: int, a: int, c: int|
            #![trigger told(first(p, m), row, n, a, c)]
            #![trigger told(second(p, m), row, n, a, c)]
            0 <= row < b && 0 <= n < cfg.nh && 0 <= a < t && 0 <= c < t && (l.keep)(
                row,
                a,
            ) implies {
            let (x, y) = (told(first(p, m), row, n, a, c), told(second(p, m), row, n, a, c));
            (p.ar.hides)(x) && (p.ar.hides)(y) || (l.keep)(row, c) && x == y
        } by {
            let z = seq![b as int, 1, 1, t as int];
            assert(project(seq![row, n, a, c], z) =~= seq![r, 0, 0, c]);
            assert(at2(first(p, am), r, c) == at2(second(p, am), r, c));
            assert(at4(first(p, m), r, 0, 0, c) == said(p.ar, at2(first(p, am), r, c)));
            assert(at4(second(p, m), r, 0, 0, c) == said(p.ar, at2(second(p, am), r, c)));
        }
    }
    like_embeddings(p, cfg, sizes, ids, b, t, l);
    let x = embedded_term(cfg, ids, b, t);
    like_encoder_layers(p, cfg, sizes, x, m, cfg.enl as nat, b, t, l);
    let deep = encoder_layers_term(cfg, x, m, cfg.enl as nat, b, t);
    like_norm_states(p, cfg, sizes, deep, Side::Encoder, Slot::FinalNorm, b, t, l);
    reveal(is_like);
    let s = encoder_states_term(cfg, ids, am, b, t);
    assert forall|c: int, j: int|
        0 <= c < t && 0 <= j < cfg.h && at2(first(p, am), r, c) != zero(
            p.ar,
        ) implies #[trigger] at3(first(p, s), r, c, j) == at3(second(p, s), r, c, j) by {
        let i = seq![r, c, j];
        assert(in_range(i, full));
        assert(moved(i, 1, l) =~= i);
    }
}

/// A number of token `q`, or zero behind the tokens.
pub open spec fn state_at<E>(ar: Arithmetic<E>, x: Val<E>, t: int, r: int, q: int, j: int) -> E {
    if q < t {
        at3(x, r, q, j)
    } else {
        zero(ar)
    }
}

/// The mark of token `q`, or zero behind the tokens.
pub open spec fn mark_at<E>(ar: Arithmetic<E>, m: Val<E>, t: int, r: int, q: int) -> E {
    if q < t {
        at2(m, r, q)
    } else {
        zero(ar)
    }
}

/// The marks of one chunk.
pub open spec fn marks_of<E>(ar: Arithmetic<E>, m: Val<E>, t: int, r: int, c: int) -> Seq<E> {
    Seq::new(CHUNK as nat, |k: int| (ar.cast)(Elem::F32, mark_at(ar, m, t, r, c * CHUNK + k)))
}

/// A number of each token of one chunk, times its mark.
pub open spec fn weighted<E>(
    ar: Arithmetic<E>,
    x: Val<E>,
    m: Val<E>,
    t: int,
    r: int,
    c: int,
    j: int,
) -> Seq<E> {
    Seq::new(
        CHUNK as nat,
        |k: int|
            (ar.bin)(
                Kind::Multiply,
                (ar.cast)(Elem::F32, state_at(ar, x, t, r, c * CHUNK + k, j)),
                (ar.cast)(Elem::F32, mark_at(ar, m, t, r, c * CHUNK + k)),
            ),
    )
}

/// A number of one pooled state.
pub open spec fn pool_of<E>(
    ar: Arithmetic<E>,
    x: Val<E>,
    m: Val<E>,
    t: int,
    r: int,
    c: int,
    j: int,
) -> E {
    let count = (ar.bin)(Kind::Maximum, total(ar, marks_of(ar, m, t, r, c)), (ar.num)(dec(1, 0)));
    (ar.cast)(
        Elem::Bf16,
        (ar.bin)(Kind::Divide, total(ar, weighted(ar, x, m, t, r, c, j)), count),
    )
}

/// The mark of one pooled state.
pub open spec fn pool_mark_of<E>(ar: Arithmetic<E>, m: Val<E>, t: int, r: int, c: int) -> E {
    (ar.cast)(
        Elem::F32,
        (ar.bin)(Kind::Greater, total(ar, marks_of(ar, m, t, r, c)), (ar.num)(dec(0, 0))),
    )
}

/// Chunks hold all tokens, and no whole chunk more.
proof fn lemma_chunks(t: int)
    requires
        0 < t <= i32::MAX - CHUNK,
    ensures
        0 < chunk_count(t) <= i32::MAX,
        0 <= chunk_pad(t) < CHUNK,
        chunk_count(t) * CHUNK == t + chunk_pad(t),
{
}

/// The elements of the marks in chunks.
proof fn chunk_mask_at<E>(
    ar: Arithmetic<E>,
    env: spec_fn(Kind) -> Val<E>,
    am: Term,
    b: i32,
    t: i32,
)
    requires
        0 < b,
        0 < t <= i32::MAX - CHUNK,
        value(ar, env, am).shape == seq![b as int, t as int],
    ensures
        ({
            let x = value(ar, env, chunk_mask_term(am, b, t));
            let m = value(ar, env, am);
            &&& x.shape == seq![b as int, chunk_count(t as int), CHUNK as int, 1]
            &&& forall|r: int, c: int, k: int|
                0 <= r < b && 0 <= c < chunk_count(t as int) && 0 <= k < CHUNK ==> #[trigger] at4(
                    x,
                    r,
                    c,
                    k,
                    0,
                ) == (ar.cast)(Elem::F32, mark_at(ar, m, t as int, r, c * CHUNK + k))
        }),
{
    lemma_chunks(t as int);
    let n = chunk_count(t as int) as i32;
    let pad = chunk_pad(t as int);
    let s = seq![b as int, t as int];
    let zeros = Dims::D2(b, pad as i32);
    let f = filled_term(am, pad, zeros);
    assert(extents(zeros) =~= s.update(1, pad));
    lemma_filled(ar, env, am, s, pad, zeros);
    let from = seq![b as int, n * CHUNK];
    assert(s.update(1, t + pad) =~= from);
    let (dims, to) = (Dims::D4(b, n, CHUNK, 1), seq![b as int, n as int, CHUNK as int, 1]);
    let g = unary(Kind::Reshape(dims), f);
    let xf = value(ar, env, f);
    lemma_value1(ar, env, Kind::Reshape(dims), f);
    assert(extents(dims) =~= to);
    lemma_product(b as int, n * CHUNK, 1, 1);
    lemma_product(b as int, n as int, CHUNK as int, 1);
    assert(b * n * CHUNK * 1 == b * (n * CHUNK)) by (nonlinear_arith);
    lemma_reshaped(from, to);
    lemma_result1(ar, env, Kind::Reshape(dims), xf);
    let cast = Kind::Cast(Ty::F32);
    lemma_value1(ar, env, cast, g);
    lemma_result1(ar, env, cast, value(ar, env, g));
    let x = value(ar, env, chunk_mask_term(am, b, t));
    let m = value(ar, env, am);
    assert forall|r: int, c: int, k: int|
        0 <= r < b && 0 <= c < chunk_count(t as int) && 0 <= k < CHUNK implies #[trigger] at4(
        x,
        r,
        c,
        k,
        0,
    ) == (ar.cast)(Elem::F32, mark_at(ar, m, t as int, r, c * CHUNK + k)) by {
        let (i, q) = (seq![r, c, k, 0], seq![r, c * CHUNK + k]);
        lemma_grouped(r, n as int, CHUNK as int, c, k);
        assert(in_range(q, from));
        lemma_flat(i, to);
        lemma_flat(q, from);
        lemma_reshape_at(ar, env, dims, xf, to, i, q);
    }
}

/// The elements of the states in chunks.
proof fn chunk_states_at<E>(
    ar: Arithmetic<E>,
    env: spec_fn(Kind) -> Val<E>,
    states: Term,
    b: i32,
    t: i32,
    h: i32,
)
    requires
        0 < b,
        0 < h,
        0 < t <= i32::MAX - CHUNK,
        value(ar, env, states).shape == wide(b, t, h as int),
    ensures
        ({
            let n = chunk_count(t as int) as i32;
            let pad = chunk_pad(t as int) as i32;
            let f = filled_term(states, chunk_pad(t as int), Dims::D3(b, pad, h));
            let g = unary(Kind::Reshape(Dims::D4(b, n, CHUNK, h)), f);
            let x = value(ar, env, unary(Kind::Cast(Ty::F32), g));
            let v = value(ar, env, states);
            &&& x.shape == seq![b as int, chunk_count(t as int), CHUNK as int, h as int]
            &&& forall|r: int, c: int, k: int, j: int|
                0 <= r < b && 0 <= c < chunk_count(t as int) && 0 <= k < CHUNK && 0 <= j < h
                    ==> #[trigger] at4(x, r, c, k, j) == (ar.cast)(
                    Elem::F32,
                    state_at(ar, v, t as int, r, c * CHUNK + k, j),
                )
        }),
{
    lemma_chunks(t as int);
    let n = chunk_count(t as int) as i32;
    let pad = chunk_pad(t as int);
    let s = wide(b, t, h as int);
    let zeros = Dims::D3(b, pad as i32, h);
    let f = filled_term(states, pad, zeros);
    assert(extents(zeros) =~= s.update(1, pad));
    lemma_filled(ar, env, states, s, pad, zeros);
    let from = seq![b as int, n * CHUNK, h as int];
    assert(s.update(1, t + pad) =~= from);
    let (dims, to) = (Dims::D4(b, n, CHUNK, h), seq![b as int, n as int, CHUNK as int, h as int]);
    let g = unary(Kind::Reshape(dims), f);
    let xf = value(ar, env, f);
    lemma_value1(ar, env, Kind::Reshape(dims), f);
    assert(extents(dims) =~= to);
    lemma_product(b as int, n * CHUNK, h as int, 1);
    lemma_product(b as int, n as int, CHUNK as int, h as int);
    assert(b * n * CHUNK * h == b * (n * CHUNK) * h) by (nonlinear_arith);
    lemma_reshaped(from, to);
    lemma_result1(ar, env, Kind::Reshape(dims), xf);
    let cast = Kind::Cast(Ty::F32);
    lemma_value1(ar, env, cast, g);
    lemma_result1(ar, env, cast, value(ar, env, g));
    let x = value(ar, env, unary(cast, g));
    let v = value(ar, env, states);
    assert forall|r: int, c: int, k: int, j: int|
        0 <= r < b && 0 <= c < chunk_count(t as int) && 0 <= k < CHUNK && 0 <= j
            < h implies #[trigger] at4(x, r, c, k, j) == (ar.cast)(
        Elem::F32,
        state_at(ar, v, t as int, r, c * CHUNK + k, j),
    ) by {
        let (i, q) = (seq![r, c, k, j], seq![r, c * CHUNK + k, j]);
        lemma_grouped(r, n as int, CHUNK as int, c, k);
        assert(in_range(q, from));
        lemma_flat(i, to);
        lemma_flat(q, from);
        lemma_reshape_at(ar, env, dims, xf, to, i, q);
    }
}

/// The elements of the pooled states.
pub proof fn pooled_at<E>(
    ar: Arithmetic<E>,
    env: spec_fn(Kind) -> Val<E>,
    cfg: &KalmConfig,
    states: Term,
    am: Term,
    b: i32,
    t: i32,
)
    requires
        0 < b,
        0 < cfg.h,
        0 < t <= i32::MAX - CHUNK,
        value(ar, env, states).shape == wide(b, t, cfg.h as int),
        value(ar, env, am).shape == seq![b as int, t as int],
    ensures
        ({
            let x = value(ar, env, pooled_term(cfg, states, am, b, t));
            let (v, m) = (value(ar, env, states), value(ar, env, am));
            &&& x.shape == seq![b as int, chunk_count(t as int), cfg.h as int]
            &&& forall|r: int, c: int, j: int|
                0 <= r < b && 0 <= c < chunk_count(t as int) && 0 <= j < cfg.h ==> #[trigger] at3(
                    x,
                    r,
                    c,
                    j,
                ) == pool_of(ar, v, m, t as int, r, c, j)
        }),
{
    let h = cfg.h;
    lemma_chunks(t as int);
    let n = chunk_count(t as int) as i32;
    let pad = chunk_pad(t as int) as i32;
    let f = filled_term(states, chunk_pad(t as int), Dims::D3(b, pad, h));
    let g = unary(Kind::Cast(Ty::F32), unary(Kind::Reshape(Dims::D4(b, n, CHUNK, h)), f));
    let marks = chunk_mask_term(am, b, t);
    chunk_states_at(ar, env, states, b, t, h);
    chunk_mask_at(ar, env, am, b, t);
    let (xg, xm) = (value(ar, env, g), value(ar, env, marks));
    let (v, m) = (value(ar, env, states), value(ar, env, am));
    let full = seq![b as int, n as int, CHUNK as int, h as int];
    let thin = seq![b as int, n as int, CHUNK as int, 1];
    let prod = binary(Kind::Multiply, g, marks);
    lemma_value2(ar, env, Kind::Multiply, g, marks);
    lemma_result2(ar, env, Kind::Multiply, xg, xm);
    lemma_stretched_into(full, thin);
    let xp = value(ar, env, prod);
    let sum = Kind::Sum { axis: 2, keep: false };
    let (num, all) = (unary(sum, prod), unary(sum, marks));
    lemma_value1(ar, env, sum, prod);
    lemma_result1(ar, env, sum, xp);
    lemma_value1(ar, env, sum, marks);
    lemma_result1(ar, env, sum, xm);
    let (wide3, thin3) = (seq![b as int, n as int, h as int], seq![b as int, n as int, 1int]);
    assert(full.remove(2) =~= wide3 && thin.remove(2) =~= thin3);
    let one = literal(1, 0);
    number_at(ar, env, 1, 0);
    let den = binary(Kind::Maximum, all, one);
    lemma_value2(ar, env, Kind::Maximum, all, one);
    lemma_result2(ar, env, Kind::Maximum, value(ar, env, all), value(ar, env, one));
    lemma_stretched_scalar(thin3);
    let quot = binary(Kind::Divide, num, den);
    lemma_value2(ar, env, Kind::Divide, num, den);
    lemma_result2(ar, env, Kind::Divide, value(ar, env, num), value(ar, env, den));
    lemma_stretched_into(wide3, thin3);
    let cast = Kind::Cast(Ty::Bf16);
    lemma_value1(ar, env, cast, quot);
    lemma_result1(ar, env, cast, value(ar, env, quot));
    let x = value(ar, env, pooled_term(cfg, states, am, b, t));
    assert forall|r: int, c: int, j: int|
        0 <= r < b && 0 <= c < chunk_count(t as int) && 0 <= j < cfg.h implies #[trigger] at3(
        x,
        r,
        c,
        j,
    ) == pool_of(ar, v, m, t as int, r, c, j) by {
        let i = seq![r, c, j];
        let at = seq![r, c, 0];
        assert(project(i, wide3) =~= i);
        assert(project(i, thin3) =~= at);
        assert(project(at, thin3) =~= at);
        assert(i.insert(2, 0) =~= seq![r, c, 0, j]);
        assert(at.insert(2, 0) =~= seq![r, c, 0, 0]);
        let products = weighted(ar, v, m, t as int, r, c, j);
        let along = line(xp, 2, seq![r, c, 0, j]);
        assert forall|k: int| 0 <= k < CHUNK implies #[trigger] along[k] == products[k] by {
            let o = seq![r, c, k, j];
            assert(seq![r, c, 0, j].update(2, k) =~= o);
            assert(project(o, full) =~= o);
            assert(project(o, thin) =~= seq![r, c, k, 0]);
            assert(at4(xg, r, c, k, j) == (ar.cast)(
                Elem::F32,
                state_at(ar, v, t as int, r, c * CHUNK + k, j),
            ));
            assert(at4(xm, r, c, k, 0) == (ar.cast)(
                Elem::F32,
                mark_at(ar, m, t as int, r, c * CHUNK + k),
            ));
        }
        assert(along =~= products);
        let list = marks_of(ar, m, t as int, r, c);
        let beside = line(xm, 2, seq![r, c, 0, 0]);
        assert forall|k: int| 0 <= k < CHUNK implies #[trigger] beside[k] == list[k] by {
            assert(seq![r, c, 0, 0int].update(2, k) =~= seq![r, c, k, 0]);
            assert(at4(xm, r, c, k, 0) == (ar.cast)(
                Elem::F32,
                mark_at(ar, m, t as int, r, c * CHUNK + k),
            ));
        }
        assert(beside =~= list);
    }
}

/// The elements of the pooled states' marks.
pub proof fn pooled_mask_at<E>(
    ar: Arithmetic<E>,
    env: spec_fn(Kind) -> Val<E>,
    am: Term,
    b: i32,
    t: i32,
)
    requires
        0 < b,
        0 < t <= i32::MAX - CHUNK,
        value(ar, env, am).shape == seq![b as int, t as int],
    ensures
        ({
            let x = value(ar, env, pooled_mask_term(am, b, t));
            let m = value(ar, env, am);
            &&& x.shape == seq![b as int, chunk_count(t as int)]
            &&& forall|r: int, c: int|
                0 <= r < b && 0 <= c < chunk_count(t as int) ==> #[trigger] at2(x, r, c)
                    == pool_mark_of(ar, m, t as int, r, c)
        }),
{
    lemma_chunks(t as int);
    let n = chunk_count(t as int) as i32;
    let marks = chunk_mask_term(am, b, t);
    chunk_mask_at(ar, env, am, b, t);
    let xm = value(ar, env, marks);
    let m = value(ar, env, am);
    let from = seq![b as int, n as int, CHUNK as int, 1];
    let (dims, to) = (Dims::D3(b, n, CHUNK), seq![b as int, n as int, CHUNK as int]);
    let flat = unary(Kind::Reshape(dims), marks);
    lemma_value1(ar, env, Kind::Reshape(dims), marks);
    assert(extents(dims) =~= to);
    lemma_product(b as int, n as int, CHUNK as int, 1);
    assert(b * n * CHUNK * 1 == b * n * CHUNK);
    lemma_reshaped(from, to);
    lemma_result1(ar, env, Kind::Reshape(dims), xm);
    let xf = value(ar, env, flat);
    let sum = Kind::Sum { axis: 2, keep: false };
    let count = unary(sum, flat);
    lemma_value1(ar, env, sum, flat);
    lemma_result1(ar, env, sum, xf);
    let two = seq![b as int, n as int];
    assert(to.remove(2) =~= two);
    let nil = literal(0, 0);
    number_at(ar, env, 0, 0);
    let some = binary(Kind::Greater, count, nil);
    lemma_value2(ar, env, Kind::Greater, count, nil);
    lemma_result2(ar, env, Kind::Greater, value(ar, env, count), value(ar, env, nil));
    lemma_stretched_scalar(two);
    let cast = Kind::Cast(Ty::F32);
    lemma_value1(ar, env, cast, some);
    lemma_result1(ar, env, cast, value(ar, env, some));
    let x = value(ar, env, pooled_mask_term(am, b, t));
    assert forall|r: int, c: int| 0 <= r < b && 0 <= c < chunk_count(t as int) implies #[trigger] at2(
        x,
        r,
        c,
    ) == pool_mark_of(ar, m, t as int, r, c) by {
        let i = seq![r, c];
        assert(project(i, two) =~= i);
        assert(i.insert(2, 0) =~= seq![r, c, 0]);
        let list = marks_of(ar, m, t as int, r, c);
        let along = line(xf, 2, seq![r, c, 0]);
        assert forall|k: int| 0 <= k < CHUNK implies #[trigger] along[k] == list[k] by {
            let (o, q) = (seq![r, c, k], seq![r, c, k, 0]);
            assert(seq![r, c, 0int].update(2, k) =~= o);
            assert(in_range(q, from));
            lemma_flat(o, to);
            lemma_flat(q, from);
            assert(((r * n + c) * CHUNK + k) * 1 + 0 == (r * n + c) * CHUNK + k);
            lemma_reshape_at(ar, env, dims, xm, to, o, q);
            assert(at4(xm, r, c, k, 0) == (ar.cast)(
                Elem::F32,
                mark_at(ar, m, t as int, r, c * CHUNK + k),
            ));
        }
        assert(along =~= list);
    }
}

/// The arrays that the encoder starts from: a checkpoint, token ids and their marks.
pub open spec fn encoder_inputs<E>(w: Checkpoint<E>, ids: Val<E>, am: Val<E>) -> spec_fn(
    Kind,
) -> Val<E> {
    |kind: Kind|
        match kind {
            Kind::Mask(_) => am,
            Kind::Weight(key) => (w.at)(key),
            Kind::InvFreq(side, lt) => (w.freqs)(side, lt),
            _ => ids,
        }
}

/// The pooled states of a batch of `b` rows of `t` tokens.
pub open spec fn pools_of<E>(
    ar: Arithmetic<E>,
    w: Checkpoint<E>,
    cfg: &KalmConfig,
    ids: Val<E>,
    am: Val<E>,
    b: i32,
    t: i32,
) -> Val<E> {
    let (x, m) = (leaf(Kind::Ids(0)), leaf(Kind::Mask(0)));
    let states = encoder_states_term(cfg, x, m, b, t);
    value(ar, encoder_inputs(w, ids, am), pooled_term(cfg, states, m, b, t))
}

/// The marks of the pooled states.
pub open spec fn pool_marks_of<E>(
    ar: Arithmetic<E>,
    w: Checkpoint<E>,
    ids: Val<E>,
    am: Val<E>,
    b: i32,
    t: i32,
) -> Val<E> {
    value(ar, encoder_inputs(w, ids, am), pooled_mask_term(leaf(Kind::Mask(0)), b, t))
}

/// The first `n` elements of a row.
pub open spec fn row_of<E>(x: Val<E>, r: int, n: int) -> Val<E> {
    Val { shape: seq![1, n], elem: x.elem, at: |i: Seq<int>| at2(x, r + i[0], i[1]) }
}

/// The states of a row are those of its first tokens alone, if the marks are zero behind
/// them.
proof fn lemma_row_alone<E>(
    ar: Arithmetic<E>,
    w: Checkpoint<E>,
    cfg: &KalmConfig,
    sizes: Sizes,
    ids: Val<E>,
    am: Val<E>,
    b: i32,
    t: i32,
    n: i32,
    r: int,
)
    requires
        ignores_padding(ar),
        checkpoint_fits(w, cfg, sizes),
        0 < b,
        0 < n <= t,
        0 <= r < b,
        ids.shape == seq![b as int, t as int],
        am.shape == seq![b as int, t as int],
        forall|c: int| n <= c < t ==> #[trigger] at2(am, r, c) == zero(ar),
    ensures
        ({
            let (x, m) = (leaf(Kind::Ids(0)), leaf(Kind::Mask(0)));
            let e = encoder_inputs(w, row_of(ids, r, n as int), row_of(am, r, n as int));
            let all = value(ar, encoder_inputs(w, ids, am), encoder_states_term(cfg, x, m, b, t));
            let own = value(ar, e, encoder_states_term(cfg, x, m, 1, n));
            &&& all.shape == wide(b, t, cfg.h as int)
            &&& forall|q: int, j: int|
                0 <= q < n && 0 <= j < cfg.h ==> #[trigger] at3(all, r, q, j) == at3(own, 0, q, j)
        }),
{
    let (i2, m2) = (row_of(ids, r, n as int), row_of(am, r, n as int));
    let p = Pair { ar, e1: encoder_inputs(w, ids, am), e2: encoder_inputs(w, i2, m2) };
    lemma_share_checkpoint(p, w, cfg, sizes);
    let (x, m) = (leaf(Kind::Ids(0)), leaf(Kind::Mask(0)));
    lemma_value0(p.ar, p.e1, Kind::Ids(0));
    lemma_value0(p.ar, p.e2, Kind::Ids(0));
    lemma_value0(p.ar, p.e1, Kind::Mask(0));
    lemma_value0(p.ar, p.e2, Kind::Mask(0));
    let (great, small, off) = (seq![b as int, t as int], seq![1, n as int], seq![r, 0]);
    assert(is_part(p, x, x, great, small, off) && is_part(p, m, m, great, small, off)) by {
        reveal(is_part);
        assert forall|i: Seq<int>| #[trigger] in_range(i, small) implies (ids.at)(shifted(i, off))
            == (i2.at)(i) && (am.at)(shifted(i, off)) == (m2.at)(i) by {
            assert(0 <= i[0] < small[0] && 0 <= i[1] < small[1]);
            assert(shifted(i, off) =~= seq![r + i[0], i[1]]);
        }
    }
    assert(marks_end(p, m, r, n as int, t as int)) by {
        assert forall|c: int| n <= c < t implies (first(p, m).at)(#[trigger] seq_at(r, c)) == zero(
            ar,
        ) by {
            assert(at2(am, r, c) == zero(ar));
        }
    }
    row_encoder_states(p, cfg, sizes, x, x, m, m, b, t, n, r);
    reveal(is_part);
    let s = wide(1, n, cfg.h as int);
    let (all, own) = (
        first(p, encoder_states_term(cfg, x, m, b, t)),
        second(p, encoder_states_term(cfg, x, m, 1, n)),
    );
    assert forall|q: int, j: int| 0 <= q < n && 0 <= j < cfg.h implies #[trigger] at3(all, r, q, j)
        == at3(own, 0, q, j) by {
        let i = seq![0, q, j];
        assert(in_range(i, s));
        assert(shifted(i, seq![r, 0, 0]) =~= seq![r, q, j]);
    }
}

/// The states of two rows agree at the tokens whose marks agree and are not zero, if the
/// ids of those tokens agree and the marks of further ones are zero.
proof fn lemma_states_agree<E>(
    ar: Arithmetic<E>,
    w: Checkpoint<E>,
    cfg: &KalmConfig,
    sizes: Sizes,
    ids1: Val<E>,
    am1: Val<E>,
    b1: i32,
    t1: i32,
    r1: int,
    ids2: Val<E>,
    am2: Val<E>,
    b2: i32,
    t2: i32,
    r2: int,
)
    requires
        ignores_padding(ar),
        checkpoint_fits(w, cfg, sizes),
        0 <= r1 < b1,
        0 <= r2 < b2,
        0 < t2 <= t1,
        have_same_rows(ar, ids1, am1, b1, t1, r1, ids2, am2, b2, t2, r2),
    ensures
        ({
            let (x, m) = (leaf(Kind::Ids(0)), leaf(Kind::Mask(0)));
            let s1 = value(
                ar,
                encoder_inputs(w, ids1, am1),
                encoder_states_term(cfg, x, m, b1, t1),
            );
            let s2 = value(
                ar,
                encoder_inputs(w, ids2, am2),
                encoder_states_term(cfg, x, m, b2, t2),
            );
            &&& s1.shape == wide(b1, t1, cfg.h as int)
            &&& s2.shape == wide(b2, t2, cfg.h as int)
            &&& forall|q: int, j: int|
                0 <= q < t2 && 0 <= j < cfg.h && at2(am2, r2, q) != zero(ar) ==> #[trigger] at3(
                    s1,
                    r1,
                    q,
                    j,
                ) == at3(s2, r2, q, j)
        }),
{
    let n = t2 as int;
    lemma_row_alone(ar, w, cfg, sizes, ids1, am1, b1, t1, t2, r1);
    lemma_row_alone(ar, w, cfg, sizes, ids2, am2, b2, t2, t2, r2);
    let (i1, m1) = (row_of(ids1, r1, n), row_of(am1, r1, n));
    let (i2, m2) = (row_of(ids2, r2, n), row_of(am2, r2, n));
    let p = Pair { ar, e1: encoder_inputs(w, i1, m1), e2: encoder_inputs(w, i2, m2) };
    lemma_share_checkpoint(p, w, cfg, sizes);
    lemma_value0(p.ar, p.e1, Kind::Ids(0));
    lemma_value0(p.ar, p.e2, Kind::Ids(0));
    lemma_value0(p.ar, p.e1, Kind::Mask(0));
    lemma_value0(p.ar, p.e2, Kind::Mask(0));
    let (x, m) = (leaf(Kind::Ids(0)), leaf(Kind::Mask(0)));
    assert(agree_in_row(p, x, m, 1, t2, 0)) by {
        assert forall|c: int| 0 <= c < t2 implies #[trigger] at2(first(p, m), 0, c) == at2(
            second(p, m),
            0,
            c,
        ) by {
            assert(at2(am1, r1, c) == at2(am2, r2, c));
        }
        assert forall|c: int|
            0 <= c < t2 && at2(first(p, m), 0, c) != zero(ar) implies #[trigger] at2(
            first(p, x),
            0,
            c,
        ) == at2(second(p, x), 0, c) by {
            assert(at2(am1, r1, c) == at2(am2, r2, c));
            assert(at2(ids1, r1, c) == at2(ids2, r2, c));
        }
    }
    like_encoder_states(p, cfg, sizes, x, m, 1, t2, 0);
    let s1 = value(ar, encoder_inputs(w, ids1, am1), encoder_states_term(cfg, x, m, b1, t1));
    let s2 = value(ar, encoder_inputs(w, ids2, am2), encoder_states_term(cfg, x, m, b2, t2));
    let own = encoder_states_term(cfg, x, m, 1, t2);
    assert forall|q: int, j: int|
        0 <= q < t2 && 0 <= j < cfg.h && at2(am2, r2, q) != zero(ar) implies #[trigger] at3(
        s1,
        r1,
        q,
        j,
    ) == at3(s2, r2, q, j) by {
        assert(at2(am1, r1, q) == at2(am2, r2, q));
        assert(at3(s1, r1, q, j) == at3(first(p, own), 0, q, j));
        assert(at3(s2, r2, q, j) == at3(second(p, own), 0, q, j));
        assert(at2(first(p, m), 0, q) != zero(ar));
        assert(at3(first(p, own), 0, q, j) == at3(second(p, own), 0, q, j));
    }
}

/// Whether a row of one batch holds a row of another: the same marks, the same ids where
/// the marks are not zero, and zero marks behind it.
pub open spec fn have_same_rows<E>(
    ar: Arithmetic<E>,
    ids1: Val<E>,
    am1: Val<E>,
    b1: i32,
    t1: i32,
    r1: int,
    ids2: Val<E>,
    am2: Val<E>,
    b2: i32,
    t2: i32,
    r2: int,
) -> bool {
    &&& ids1.shape == seq![b1 as int, t1 as int]
    &&& am1.shape == seq![b1 as int, t1 as int]
    &&& ids2.shape == seq![b2 as int, t2 as int]
    &&& am2.shape == seq![b2 as int, t2 as int]
    &&& ids1.elem == ids2.elem
    &&& am1.elem == am2.elem
    &&& forall|c: int| 0 <= c < t2 ==> #[trigger] at2(am1, r1, c) == at2(am2, r2, c)
    &&& forall|c: int| t2 <= c < t1 ==> #[trigger] at2(am1, r1, c) == zero(ar)
    &&& forall|c: int|
        0 <= c < t2 && at2(am2, r2, c) != zero(ar) ==> #[trigger] at2(ids1, r1, c) == at2(
            ids2,
            r2,
            c,
        )
}

/// The pooled states of a row, and their marks, depend on the tokens whose marks are not
/// zero alone: ids under a zero mark, further columns of them, and other rows change
/// nothing.
pub proof fn law_masked_ids_change_no_pool<E>(
    ar: Arithmetic<E>,
    w: Checkpoint<E>,
    cfg: &KalmConfig,
    sizes: Sizes,
    ids1: Val<E>,
    am1: Val<E>,
    b1: i32,
    t1: i32,
    r1: int,
    ids2: Val<E>,
    am2: Val<E>,
    b2: i32,
    t2: i32,
    r2: int,
)
    requires
        ignores_padding(ar),
        checkpoint_fits(w, cfg, sizes),
        0 <= r1 < b1,
        0 <= r2 < b2,
        0 < t2 <= t1 <= i32::MAX - CHUNK,
        have_same_rows(ar, ids1, am1, b1, t1, r1, ids2, am2, b2, t2, r2),
    ensures
        forall|c: int, j: int|
            0 <= c < chunk_count(t2 as int) && 0 <= j < cfg.h ==> #[trigger] at3(
                pools_of(ar, w, cfg, ids1, am1, b1, t1),
                r1,
                c,
                j,
            ) == at3(pools_of(ar, w, cfg, ids2, am2, b2, t2), r2, c, j),
        forall|c: int|
            0 <= c < chunk_count(t2 as int) ==> #[trigger] at2(
                pool_marks_of(ar, w, ids1, am1, b1, t1),
                r1,
                c,
            ) == at2(pool_marks_of(ar, w, ids2, am2, b2, t2), r2, c),
{
    let (x, m) = (leaf(Kind::Ids(0)), leaf(Kind::Mask(0)));
    let (e1, e2) = (encoder_inputs(w, ids1, am1), encoder_inputs(w, ids2, am2));
    lemma_states_agree(ar, w, cfg, sizes, ids1, am1, b1, t1, r1, ids2, am2, b2, t2, r2);
    lemma_value0(ar, e1, Kind::Mask(0));
    lemma_value0(ar, e2, Kind::Mask(0));
    let (d1, d2) = (
        encoder_states_term(cfg, x, m, b1, t1),
        encoder_states_term(cfg, x, m, b2, t2),
    );
    pooled_at(ar, e1, cfg, d1, m, b1, t1);
    pooled_at(ar, e2, cfg, d2, m, b2, t2);
    pooled_mask_at(ar, e1, m, b1, t1);
    pooled_mask_at(ar, e2, m, b2, t2);
    let (s1, s2) = (value(ar, e1, d1), value(ar, e2, d2));
    let (m1, m2) = (value(ar, e1, m), value(ar, e2, m));
    lemma_chunks(t1 as int);
    lemma_chunks(t2 as int);
    assert(chunk_count(t2 as int) <= chunk_count(t1 as int));
    assert forall|q: int| 0 <= q implies #[trigger] mark_at(ar, m1, t1 as int, r1, q) == mark_at(
        ar,
        m2,
        t2 as int,
        r2,
        q,
    ) by {
        if q < t2 {
            assert(at2(am1, r1, q) == at2(am2, r2, q));
        } else if q < t1 {
            assert(at2(am1, r1, q) == zero(ar));
        }
    }
    assert forall|c: int| 0 <= c implies #[trigger] marks_of(ar, m1, t1 as int, r1, c)
        == marks_of(ar, m2, t2 as int, r2, c) by {
        let (a, d) = (marks_of(ar, m1, t1 as int, r1, c), marks_of(ar, m2, t2 as int, r2, c));
        assert forall|k: int| 0 <= k < CHUNK implies #[trigger] a[k] == d[k] by {
            let q = c * CHUNK + k;
            assert(mark_at(ar, m1, t1 as int, r1, q) == mark_at(ar, m2, t2 as int, r2, q));
        }
        assert(a =~= d);
    }
    assert forall|c: int| 0 <= c < chunk_count(t2 as int) implies #[trigger] at2(
        pool_marks_of(ar, w, ids1, am1, b1, t1),
        r1,
        c,
    ) == at2(pool_marks_of(ar, w, ids2, am2, b2, t2), r2, c) by {
        assert(marks_of(ar, m1, t1 as int, r1, c) == marks_of(ar, m2, t2 as int, r2, c));
    }
    assert forall|c: int, j: int|
        0 <= c < chunk_count(t2 as int) && 0 <= j < cfg.h implies #[trigger] at3(
        pools_of(ar, w, cfg, ids1, am1, b1, t1),
        r1,
        c,
        j,
    ) == at3(pools_of(ar, w, cfg, ids2, am2, b2, t2), r2, c, j) by {
        assert(marks_of(ar, m1, t1 as int, r1, c) == marks_of(ar, m2, t2 as int, r2, c));
        let a = weighted(ar, s1, m1, t1 as int, r1, c, j);
        let d = weighted(ar, s2, m2, t2 as int, r2, c, j);
        assert forall|k: int| 0 <= k < CHUNK implies #[trigger] a[k] == d[k] by {
            let q = c * CHUNK + k;
            assert(mark_at(ar, m1, t1 as int, r1, q) == mark_at(ar, m2, t2 as int, r2, q));
            if mark_at(ar, m2, t2 as int, r2, q) != zero(ar) {
                assert(at3(s1, r1, q, j) == at3(s2, r2, q, j));
            }
        }
        assert(a =~= d);
    }
}

/// Columns with zero marks pool to nothing: behind the chunks of the tokens before them
/// every pooled state is zero, and so is its mark.
pub proof fn law_masked_columns_pool_to_nothing<E>(
    ar: Arithmetic<E>,
    w: Checkpoint<E>,
    cfg: &KalmConfig,
    sizes: Sizes,
    ids: Val<E>,
    am: Val<E>,
    b: i32,
    t: i32,
    n: i32,
    r: int,
)
    requires
        ignores_padding(ar),
        divides_nothing(ar),
        checkpoint_fits(w, cfg, sizes),
        0 <= r < b,
        0 < n <= t <= i32::MAX - CHUNK,
        ids.shape == seq![b as int, t as int],
        am.shape == seq![b as int, t as int],
        forall|c: int| n <= c < t ==> #[trigger] at2(am, r, c) == zero(ar),
    ensures
        forall|c: int, j: int|
            chunk_count(n as int) <= c < chunk_count(t as int) && 0 <= j < cfg.h ==> #[trigger] at3(
                pools_of(ar, w, cfg, ids, am, b, t),
                r,
                c,
                j,
            ) == zero(ar),
        forall|c: int|
            chunk_count(n as int) <= c < chunk_count(t as int) ==> #[trigger] at2(
                pool_marks_of(ar, w, ids, am, b, t),
                r,
                c,
            ) == zero(ar),
{
    let (x, m) = (leaf(Kind::Ids(0)), leaf(Kind::Mask(0)));
    let e = encoder_inputs(w, ids, am);
    lemma_row_alone(ar, w, cfg, sizes, ids, am, b, t, n, r);
    lemma_value0(ar, e, Kind::Mask(0));
    let d = encoder_states_term(cfg, x, m, b, t);
    pooled_at(ar, e, cfg, d, m, b, t);
    pooled_mask_at(ar, e, m, b, t);
    let (s, marks) = (value(ar, e, d), value(ar, e, m));
    lemma_chunks(n as int);
    assert forall|c: int|
        chunk_count(n as int) <= c < chunk_count(t as int) implies #[trigger] total(
        ar,
        marks_of(ar, marks, t as int, r, c),
    ) == zero(ar) && forall|j: int| #[trigger]
        total(ar, weighted(ar, s, marks, t as int, r, c, j)) == zero(ar) by {
        let list = marks_of(ar, marks, t as int, r, c);
        assert forall|k: int| 0 <= k < CHUNK implies #[trigger] list[k] == zero(ar) by {
            let q = c * CHUNK + k;
            if q < t {
                assert(at2(am, r, q) == zero(ar));
            }
        }
        let none = Seq::<E>::empty();
        lemma_total(ar, list, none);
        assert forall|j: int| #[trigger] total(ar, weighted(ar, s, marks, t as int, r, c, j))
            == zero(ar) by {
            let products = weighted(ar, s, marks, t as int, r, c, j);
            assert forall|k: int| 0 <= k < CHUNK implies #[trigger] products[k] == zero(ar) by {
                assert(list[k] == zero(ar));
            }
            lemma_total(ar, products, none);
        }
    }
    assert forall|c: int, j: int|
        chunk_count(n as int) <= c < chunk_count(t as int) && 0 <= j < cfg.h implies #[trigger] at3(
        pools_of(ar, w, cfg, ids, am, b, t),
        r,
        c,
        j,
    ) == zero(ar) by {
        assert(total(ar, marks_of(ar, marks, t as int, r, c)) == zero(ar));
        assert(total(ar, weighted(ar, s, marks, t as int, r, c, j)) == zero(ar));
    }
    assert forall|c: int|
        chunk_count(n as int) <= c < chunk_count(t as int) implies #[trigger] at2(
        pool_marks_of(ar, w, ids, am, b, t),
        r,
        c,
    ) == zero(ar) by {
        assert(total(ar, marks_of(ar, marks, t as int, r, c)) == zero(ar));
    }
}

} // verus!
