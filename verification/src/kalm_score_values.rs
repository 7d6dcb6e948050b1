//! What the encoder-decoder's scores are made of, from hidden states to the answer.

use crate::encoder_links::{key_mask_at, key_mask_term, marks_of, pool_mark_of, pool_of, pooled_at};
use crate::encoder_links::{pooled_mask_at, weighted};
use crate::graph::{dec, unary, Dims, Kind, Side, Slot, Stack, Term, Ty, WeightKey};
use crate::kalm::{chunk_count, decode_term, decoder_layer_term, decoder_layers_term, embedded_term};
use crate::kalm::{encoder_layer_term, encoder_layers_term, encoder_states_term, hide_zeros_term};
use crate::kalm::{pooled_mask_term, pooled_term};
use crate::kalm_config::KalmConfig;
use crate::kalm_decoder_values::law_decoder_layer_reads_its_weights;
use crate::kalm_layer_values::{holds_checkpoint, law_encoder_layer_reads_its_weights};
use crate::kalm_shapes::{weight_extents, Sizes};
use crate::kalm_values::law_norm_scales_by_one_more_than_its_weight;
use crate::kalm_values::{law_states_begin_as_scaled_embeddings, norm_row};
use crate::links::{at2, at3, at4};
use crate::meaning::{total, value, zero, Arithmetic, Val};
use crate::types::Elem;
use crate::values::{list, row3};
use vstd::prelude::*;

verus! {

/// Layers of the encoder follow one another in the order of their numbers, from layer
/// zero, and so do layers of the decoder, each over the same pooled states.
pub proof fn law_stacks_run_in_order(
    cfg: &KalmConfig,
    h: Term,
    pooled: Term,
    mask: Term,
    n: nat,
    b: i32,
    t: i32,
    ne: i32,
)
    ensures
        encoder_layers_term(cfg, h, mask, 0, b, t) == h,
        encoder_layers_term(cfg, h, mask, n + 1, b, t) == encoder_layer_term(
            cfg,
            encoder_layers_term(cfg, h, mask, n, b, t),
            mask,
            n as usize,
            b,
            t,
        ),
        decoder_layers_term(cfg, h, pooled, mask, 0, b, t, ne) == h,
        decoder_layers_term(cfg, h, pooled, mask, n + 1, b, t, ne) == decoder_layer_term(
            cfg,
            decoder_layers_term(cfg, h, pooled, mask, n, b, t, ne),
            pooled,
            mask,
            n as usize,
            b,
            t,
            ne,
        ),
{
}

proof fn lemma_encoder_shape<E>(
    ar: Arithmetic<E>,
    env: spec_fn(Kind) -> Val<E>,
    cfg: &KalmConfig,
    sizes: Sizes,
    h: Term,
    m: Term,
    n: nat,
    b: i32,
    t: i32,
)
    requires
        holds_checkpoint(env, cfg, sizes),
        0 < b,
        0 < t,
        value(ar, env, h).shape == seq![b as int, t as int, cfg.h as int],
        value(ar, env, m).shape == seq![b as int, 1, 1, t as int],
    ensures
        value(ar, env, encoder_layers_term(cfg, h, m, n, b, t)).shape == seq![
            b as int,
            t as int,
            cfg.h as int,
        ],
    decreases n,
{
    if n > 0 {
        let j = (n - 1) as nat;
        lemma_encoder_shape(ar, env, cfg, sizes, h, m, j, b, t);
        let x = encoder_layers_term(cfg, h, m, j, b, t);
        law_encoder_layer_reads_its_weights(ar, env, cfg, sizes, x, m, (n - 1) as usize, b, t);
    }
}

proof fn lemma_decoder_shape<E>(
    ar: Arithmetic<E>,
    env: spec_fn(Kind) -> Val<E>,
    cfg: &KalmConfig,
    sizes: Sizes,
    h: Term,
    pooled: Term,
    m: Term,
    n: nat,
    b: i32,
    t: i32,
    ne: i32,
)
    requires
        holds_checkpoint(env, cfg, sizes),
        0 < b,
        0 < t,
        0 < ne,
        value(ar, env, h).shape == seq![b as int, t as int, cfg.h as int],
        value(ar, env, pooled).shape == seq![b as int, ne as int, cfg.h as int],
        value(ar, env, m).shape == seq![b as int, 1, t as int, t + ne],
    ensures
        value(ar, env, decoder_layers_term(cfg, h, pooled, m, n, b, t, ne)).shape == seq![
            b as int,
            t as int,
            cfg.h as int,
        ],
    decreases n,
{
    if n > 0 {
        let j = (n - 1) as nat;
        lemma_decoder_shape(ar, env, cfg, sizes, h, pooled, m, j, b, t, ne);
        let x = decoder_layers_term(cfg, h, pooled, m, j, b, t, ne);
        law_decoder_layer_reads_its_weights(
            ar,
            env,
            cfg,
            sizes,
            x,
            pooled,
            m,
            (n - 1) as usize,
            b,
            t,
            ne,
        );
    }
}

/// The encoder's states are those behind all of its layers, normalised by its own final
/// weight. Its mask says ten to the thirtieth below zero of a token whose mark equals
/// zero, and zero of every other, to every query alike.
pub proof fn law_encoder_ends_in_its_final_norm<E>(
    ar: Arithmetic<E>,
    env: spec_fn(Kind) -> Val<E>,
    cfg: &KalmConfig,
    sizes: Sizes,
    ids: Term,
    am: Term,
    b: i32,
    t: i32,
)
    requires
        holds_checkpoint(env, cfg, sizes),
        0 < b,
        0 < t,
        value(ar, env, ids).shape == seq![b as int, t as int],
        value(ar, env, am).shape == seq![b as int, t as int],
    ensures
        ({
            let kp = unary(
                Kind::Cast(Ty::Bf16),
                hide_zeros_term(unary(Kind::Reshape(Dims::D4(b, 1, 1, t)), am)),
            );
            let deep = value(
                ar,
                env,
                encoder_layers_term(cfg, embedded_term(cfg, ids, b, t), kp, cfg.enl as nat, b, t),
            );
            let last = env(
                Kind::Weight(
                    WeightKey { stack: Stack::Kalm(Side::Encoder), slot: Slot::FinalNorm },
                ),
            );
            let y = value(ar, env, encoder_states_term(cfg, ids, am, b, t));
            &&& y.shape == seq![b as int, t as int, cfg.h as int]
            &&& forall|r: int, q: int|
                0 <= r < b && 0 <= q < t ==> #[trigger] row3(y, r, q) == norm_row(
                    ar,
                    deep.elem,
                    row3(deep, r, q),
                    list(last),
                )
            &&& value(ar, env, kp).shape == seq![b as int, 1, 1, t as int]
            &&& forall|r: int, c: int|
                0 <= r < b && 0 <= c < t ==> #[trigger] at4(value(ar, env, kp), r, 0, 0, c) == (
                ar.cast)(
                    Elem::Bf16,
                    if (ar.holds)(
                        (ar.bin)(
                            Kind::Equal,
                            at2(value(ar, env, am), r, c),
                            (ar.num)(dec(0, 0)),
                        ),
                    ) {
                        (ar.num)(dec(-1, 30))
                    } else {
                        (ar.num)(dec(0, 0))
                    },
                )
        }),
{
    key_mask_at(ar, env, am, b, t);
    let kp = key_mask_term(am, b, t);
    let side = Side::Encoder;
    assert(weight_extents(cfg, sizes, side, Slot::Embedding) is Some);
    assert(weight_extents(cfg, sizes, side, Slot::FinalNorm) is Some);
    law_states_begin_as_scaled_embeddings(ar, env, cfg, ids, sizes.vocab, b, t);
    let x = embedded_term(cfg, ids, b, t);
    lemma_encoder_shape(ar, env, cfg, sizes, x, kp, cfg.enl as nat, b, t);
    let deep = encoder_layers_term(cfg, x, kp, cfg.enl as nat, b, t);
    law_norm_scales_by_one_more_than_its_weight(
        ar,
        env,
        deep,
        side,
        Slot::FinalNorm,
        b as int,
        t as int,
        cfg.h as int,
    );
}

/// The decoder's states are those behind all of its layers, which begin as the scaled
/// embeddings of the prompt, normalised by its own final weight.
pub proof fn law_decoder_ends_in_its_final_norm<E>(
    ar: Arithmetic<E>,
    env: spec_fn(Kind) -> Val<E>,
    cfg: &KalmConfig,
    sizes: Sizes,
    dids: Term,
    pooled: Term,
    mm: Term,
    b: i32,
    t: i32,
    ne: i32,
)
    requires
        holds_checkpoint(env, cfg, sizes),
        0 < b,
        0 < t,
        0 < ne,
        value(ar, env, dids).shape == seq![b as int, t as int],
        value(ar, env, pooled).shape == seq![b as int, ne as int, cfg.h as int],
        value(ar, env, mm).shape == seq![b as int, 1, t as int, t + ne],
    ensures
        ({
            let deep = value(
                ar,
                env,
                decoder_layers_term(
                    cfg,
                    embedded_term(cfg, dids, b, t),
                    pooled,
                    mm,
                    cfg.dnl as nat,
                    b,
                    t,
                    ne,
                ),
            );
            let last = env(
                Kind::Weight(
                    WeightKey { stack: Stack::Kalm(Side::Decoder), slot: Slot::FinalNorm },
                ),
            );
            let y = value(ar, env, decode_term(cfg, dids, pooled, mm, b, t, ne));
            &&& y.shape == seq![b as int, t as int, cfg.h as int]
            &&& forall|r: int, q: int|
                0 <= r < b && 0 <= q < t ==> #[trigger] row3(y, r, q) == norm_row(
                    ar,
                    deep.elem,
                    row3(deep, r, q),
                    list(last),
                )
        }),
{
    assert(weight_extents(cfg, sizes, Side::Encoder, Slot::Embedding) is Some);
    assert(weight_extents(cfg, sizes, Side::Decoder, Slot::FinalNorm) is Some);
    law_states_begin_as_scaled_embeddings(ar, env, cfg, dids, sizes.vocab, b, t);
    let x = embedded_term(cfg, dids, b, t);
    lemma_decoder_shape(ar, env, cfg, sizes, x, pooled, mm, cfg.dnl as nat, b, t, ne);
    let deep = decoder_layers_term(cfg, x, pooled, mm, cfg.dnl as nat, b, t, ne);
    law_norm_scales_by_one_more_than_its_weight(
        ar,
        env,
        deep,
        Side::Decoder,
        Slot::FinalNorm,
        b as int,
        t as int,
        cfg.h as int,
    );
}

/// Every chunk of four tokens is pooled to the sum of its states, each times its mark,
/// over the sum of its marks, which counts as one where it is less; it is marked where
/// the sum of its marks is greater than zero. Behind the tokens of a row a state and a
/// mark count as zero.
pub proof fn law_chunks_are_pooled_by_their_marks<E>(
    ar: Arithmetic<E>,
    env: spec_fn(Kind) -> Val<E>,
    cfg: &KalmConfig,
    states: Term,
    am: Term,
    b: i32,
    t: i32,
)
    requires
        0 < b,
        0 < cfg.h,
        0 < t <= i32::MAX - 4,
        value(ar, env, states).shape == seq![b as int, t as int, cfg.h as int],
        value(ar, env, am).shape == seq![b as int, t as int],
    ensures
        ({
            let (v, m) = (value(ar, env, states), value(ar, env, am));
            let wide = |x: E| (ar.cast)(Elem::F32, x);
            let mark = |r: int, q: int|
                wide(
                    if q < t {
                        at2(m, r, q)
                    } else {
                        zero(ar)
                    },
                );
            let state = |r: int, q: int, j: int|
                wide(
                    if q < t {
                        at3(v, r, q, j)
                    } else {
                        zero(ar)
                    },
                );
            let count = |r: int, c: int| total(ar, Seq::new(4, |k: int| mark(r, c * 4 + k)));
            &&& value(ar, env, pooled_term(cfg, states, am, b, t)).shape == seq![
                b as int,
                (t + 3) / 4,
                cfg.h as int,
            ]
            &&& value(ar, env, pooled_mask_term(am, b, t)).shape == seq![b as int, (t + 3) / 4]
            &&& forall|r: int, c: int, j: int|
                0 <= r < b && 0 <= c < (t + 3) / 4 && 0 <= j < cfg.h ==> #[trigger] at3(
                    value(ar, env, pooled_term(cfg, states, am, b, t)),
                    r,
                    c,
                    j,
                ) == (ar.cast)(
                    Elem::Bf16,
                    (ar.bin)(
                        Kind::Divide,
                        total(
                            ar,
                            Seq::new(
                                4,
                                |k: int|
                                    (ar.bin)(
                                        Kind::Multiply,
                                        state(r, c * 4 + k, j),
                                        mark(r, c * 4 + k),
                                    ),
                            ),
                        ),
                        (ar.bin)(Kind::Maximum, count(r, c), (ar.num)(dec(1, 0))),
                    ),
                )
            &&& forall|r: int, c: int|
                0 <= r < b && 0 <= c < (t + 3) / 4 ==> #[trigger] at2(
                    value(ar, env, pooled_mask_term(am, b, t)),
                    r,
                    c,
                ) == (ar.cast)(
                    Elem::F32,
                    (ar.bin)(Kind::Greater, count(r, c), (ar.num)(dec(0, 0))),
                )
        }),
{
    pooled_at(ar, env, cfg, states, am, b, t);
    pooled_mask_at(ar, env, am, b, t);
    let (v, m) = (value(ar, env, states), value(ar, env, am));
    assert(chunk_count(t as int) == (t + 3) / 4);
    let wide = |x: E| (ar.cast)(Elem::F32, x);
    let mark = |r: int, q: int|
        wide(
            if q < t {
                at2(m, r, q)
            } else {
                zero(ar)
            },
        );
    let state = |r: int, q: int, j: int|
        wide(
            if q < t {
                at3(v, r, q, j)
            } else {
                zero(ar)
            },
        );
    assert forall|r: int, c: int| #[trigger] marks_of(ar, m, t as int, r, c) == Seq::new(
        4,
        |k: int| mark(r, c * 4 + k),
    ) by {
        assert(marks_of(ar, m, t as int, r, c) =~= Seq::new(4, |k: int| mark(r, c * 4 + k)));
    }
    assert forall|r: int, c: int, j: int| #[trigger] weighted(ar, v, m, t as int, r, c, j)
        == Seq::new(
        4,
        |k: int| (ar.bin)(Kind::Multiply, state(r, c * 4 + k, j), mark(r, c * 4 + k)),
    ) by {
        assert(weighted(ar, v, m, t as int, r, c, j) =~= Seq::new(
            4,
            |k: int| (ar.bin)(Kind::Multiply, state(r, c * 4 + k, j), mark(r, c * 4 + k)),
        ));
    }
    assert forall|r: int, c: int, j: int|
        0 <= r < b && 0 <= c < (t + 3) / 4 && 0 <= j < cfg.h implies #[trigger] at3(
        value(ar, env, pooled_term(cfg, states, am, b, t)),
        r,
        c,
        j,
    ) == pool_of(ar, v, m, t as int, r, c, j) by {}
    assert forall|r: int, c: int| 0 <= r < b && 0 <= c < (t + 3) / 4 implies #[trigger] at2(
        value(ar, env, pooled_mask_term(am, b, t)),
        r,
        c,
    ) == pool_mark_of(ar, m, t as int, r, c) by {}
}

} // verus!
