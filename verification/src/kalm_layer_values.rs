//! What the layers of the encoder-decoder compute, by the weights that they read.

use crate::graph::{binary, quaternary, unary, Dims, Kind, LayerType, Num, Part, Side, Slot, Stack};
use crate::graph::{Term, WeightKey};
use crate::kalm::{after_attention_term, block_tail_term, cos_term, encoder_layer_term, gelu_term};
use crate::kalm::{norm_term, prj_term, repeat_kv_term, sin_term, times_term, turned_term, weight};
use crate::kalm_config::KalmConfig;
use crate::kalm_rows::lemma_merged;
use crate::kalm_shapes::{fits_together, weight_extents, Sizes};
use crate::kalm_values::{gelu_row, gelu_rows, law_norm_scales_by_one_more_than_its_weight};
use crate::kalm_values::{law_product_reads_its_weight, law_projection_reads_its_weight};
use crate::kalm_values::{law_repeated_heads_are_copies, law_tables_turn_by_their_own_frequencies};
use crate::kalm_values::{norm_heads, norm_row, rope_row, rope_rows, wave_row, weight_at};
use crate::links::{at3, at4};
use crate::meaning::{value, Arithmetic, Key, Val};
use crate::types::joint;
use crate::values::{attention_rows, head_of, joined_at, lemma_seen, list, pairs_at, pairwise, row3};
use crate::values::{row4, seen, times, weight_of};
use crate::window_folds::lemma_ungrouped;
use vstd::prelude::*;

verus! {

/// Whether the arrays that a program starts from hold a checkpoint of these extents.
pub open spec fn holds_checkpoint<E>(
    env: spec_fn(Kind) -> Val<E>,
    cfg: &KalmConfig,
    sizes: Sizes,
) -> bool {
    &&& fits_together(cfg)
    &&& sizes.vocab >= 0
    &&& sizes.encoder_inner >= 0
    &&& sizes.decoder_inner >= 0
    &&& forall|side: Side, slot: Slot|
        #![trigger weight_extents(cfg, sizes, side, slot)]
        weight_extents(cfg, sizes, side, slot) is Some ==> weight_of(
            env,
            Stack::Kalm(side),
            slot,
        ).shape == weight_extents(cfg, sizes, side, slot)->0
    &&& forall|side: Side, lt: LayerType| #[trigger]
        env(Kind::InvFreq(side, lt)).shape == seq![cfg.hd as int / 2]
}

/// Queries and keys of a layer: the products with the named weight, cut into heads, each
/// normalised by the named norm and turned by its position with the frequencies of the
/// layer's own stack and type.
pub proof fn law_heads_are_normalised_and_turned<E>(
    ar: Arithmetic<E>,
    env: spec_fn(Kind) -> Val<E>,
    cfg: &KalmConfig,
    sizes: Sizes,
    x: Term,
    side: Side,
    i: usize,
    part: Part,
    norm: Part,
    n: i32,
    b: i32,
    t: i32,
)
    requires
        holds_checkpoint(env, cfg, sizes),
        weight_extents(cfg, sizes, side, Slot::Layer(i, part)) == Some(
            seq![n * cfg.hd, cfg.h as int],
        ),
        weight_extents(cfg, sizes, side, Slot::Layer(i, norm)) == Some(seq![cfg.hd as int]),
        0 < b,
        0 < n,
        0 < t,
        value(ar, env, x).shape == seq![b as int, t as int, cfg.h as int],
    ensures
        value(ar, env, turned_term(cfg, x, side, i, part, norm, n, b, t)).shape == seq![
            b as int,
            n as int,
            t as int,
            cfg.hd as int,
        ],
        value(ar, env, turned_term(cfg, x, side, i, part, norm, n, b, t)).elem == joint(
            value(ar, env, x).elem,
            weight_of(env, Stack::Kalm(side), Slot::Layer(i, part)).elem,
        ),
        ({
            let slot = |part: Part|
                env(
                    Kind::Weight(
                        WeightKey { stack: Stack::Kalm(side), slot: Slot::Layer(i, part) },
                    ),
                );
            let name = match side {
                Side::Encoder => cfg.elt@[i as int]@,
                Side::Decoder => cfg.dlt@[i as int]@,
            };
            let lt = if name == "full_attention"@ {
                LayerType::Full
            } else {
                LayerType::Sliding
            };
            let freqs = list(env(Kind::InvFreq(side, lt)));
            let e = joint(value(ar, env, x).elem, slot(part).elem);
            forall|r: int, h: int, q: int|
                0 <= r < b && 0 <= h < n && 0 <= q < t ==> #[trigger] row4(
                    value(ar, env, turned_term(cfg, x, side, i, part, norm, n, b, t)),
                    r,
                    h,
                    q,
                ) == rope_row(
                    ar,
                    e,
                    norm_row(
                        ar,
                        e,
                        head_of(
                            times(ar, row3(value(ar, env, x), r, q), slot(part)),
                            h,
                            cfg.hd as int,
                        ),
                        list(slot(norm)),
                    ),
                    wave_row(ar, Kind::Cos, freqs, q),
                    wave_row(ar, Kind::Sin, freqs, q),
                )
        }),
{
    let lt = cfg.layer_type(side, i as int);
    let sn = Slot::Layer(i, norm);
    let (bb, nn, tt, hd) = (b as int, n as int, t as int, cfg.hd as int);
    law_projection_reads_its_weight(ar, env, cfg, x, side, i, part, n, b, t);
    let y = prj_term(cfg, x, side, i, part, n, b, t);
    weight_at(ar, env, side, sn);
    norm_heads(ar, env, y, weight(side, sn), bb, nn, tt, hd);
    assert(env(Kind::InvFreq(side, lt)).shape == seq![hd / 2]);
    law_tables_turn_by_their_own_frequencies(ar, env, side, lt, t, cfg.hd);
    let z = norm_term(y, side, sn);
    rope_rows(ar, env, z, cos_term(side, lt, t), sin_term(side, lt, t), bb, nn, tt, cfg.hd);
    let out = value(ar, env, turned_term(cfg, x, side, i, part, norm, n, b, t));
    assert forall|r: int, h: int, q: int|
        0 <= r < b && 0 <= h < n && 0 <= q < t implies #[trigger] row4(out, r, h, q) == rope_row(
        ar,
        value(ar, env, z).elem,
        row4(value(ar, env, z), r, h, q),
        row4(value(ar, env, cos_term(side, lt, t)), 0, 0, q),
        row4(value(ar, env, sin_term(side, lt, t)), 0, 0, q),
    ) && row4(value(ar, env, z), r, h, q) == norm_row(
        ar,
        value(ar, env, y).elem,
        row4(value(ar, env, y), r, h, q),
        list(weight_of(env, Stack::Kalm(side), sn)),
    ) by {
        let a = row4(value(ar, env, z), r, h, q);
        let b = row4(value(ar, env, y), r, h, q);
        let c = row4(value(ar, env, cos_term(side, lt, t)), 0, 0, q);
        let d = row4(value(ar, env, sin_term(side, lt, t)), 0, 0, q);
    }
}

/// What follows the attention of a layer: its heads side by side go through the output
/// weight and the norm behind the attention and are added to the states; of the sum, the
/// norm before the feed-forward half, the activation of the products with
/// `gate_proj` times the products with `up_proj`, the products with `down_proj`, the norm
/// behind, and the second addition.
pub proof fn law_tail_reads_its_weights<E>(
    ar: Arithmetic<E>,
    env: spec_fn(Kind) -> Val<E>,
    cfg: &KalmConfig,
    sizes: Sizes,
    h: Term,
    o: Term,
    side: Side,
    i: usize,
    b: i32,
    t: i32,
)
    requires
        holds_checkpoint(env, cfg, sizes),
        0 < b,
        0 < t,
        value(ar, env, h).shape == seq![b as int, t as int, cfg.h as int],
        value(ar, env, o).shape == seq![b as int, cfg.nh as int, t as int, cfg.hd as int],
    ensures
        value(ar, env, block_tail_term(cfg, h, o, b, t, side, i)).shape == seq![
            b as int,
            t as int,
            cfg.h as int,
        ],
        ({
            let slot = |part: Part|
                env(
                    Kind::Weight(
                        WeightKey { stack: Stack::Kalm(side), slot: Slot::Layer(i, part) },
                    ),
                );
            let (eh, eo) = (value(ar, env, h).elem, value(ar, env, o).elem);
            let em = joint(eh, joint(eo, slot(Part::OProj).elem));
            let eg = joint(em, slot(Part::GateProj).elem);
            let ed = joint(
                joint(eg, joint(em, slot(Part::UpProj).elem)),
                slot(Part::DownProj).elem,
            );
            forall|r: int, q: int|
                0 <= r < b && 0 <= q < t ==> #[trigger] row3(
                    value(ar, env, block_tail_term(cfg, h, o, b, t, side, i)),
                    r,
                    q,
                ) == ({
                    let heads = Seq::new(
                        (cfg.nh * cfg.hd) as nat,
                        |e: int|
                            at4(
                                value(ar, env, o),
                                r,
                                e / cfg.hd as int,
                                q,
                                e % cfg.hd as int,
                            ),
                    );
                    let mid = pairwise(
                        ar,
                        Kind::Add,
                        row3(value(ar, env, h), r, q),
                        norm_row(
                            ar,
                            joint(eo, slot(Part::OProj).elem),
                            times(ar, heads, slot(Part::OProj)),
                            list(slot(Part::PostSelfAttnNorm)),
                        ),
                    );
                    let x = norm_row(ar, em, mid, list(slot(Part::PreFeedforwardNorm)));
                    let gate = gelu_row(ar, eg, times(ar, x, slot(Part::GateProj)));
                    let up = times(ar, x, slot(Part::UpProj));
                    let down = times(
                        ar,
                        pairwise(ar, Kind::Multiply, gate, up),
                        slot(Part::DownProj),
                    );
                    pairwise(
                        ar,
                        Kind::Add,
                        mid,
                        norm_row(ar, ed, down, list(slot(Part::PostFeedforwardNorm))),
                    )
                })
        }),
{
    let (bb, tt, hh) = (b as int, t as int, cfg.h as int);
    let all = cfg.nh * cfg.hd;
    let inner = sizes.inner(side);
    let slot = |part: Part| Slot::Layer(i, part);
    assert(weight_extents(cfg, sizes, side, slot(Part::OProj)) is Some);
    assert(weight_extents(cfg, sizes, side, slot(Part::PostSelfAttnNorm)) is Some);
    assert(weight_extents(cfg, sizes, side, slot(Part::PreFeedforwardNorm)) is Some);
    assert(weight_extents(cfg, sizes, side, slot(Part::PostFeedforwardNorm)) is Some);
    assert(weight_extents(cfg, sizes, side, slot(Part::GateProj)) is Some);
    assert(weight_extents(cfg, sizes, side, slot(Part::UpProj)) is Some);
    assert(weight_extents(cfg, sizes, side, slot(Part::DownProj)) is Some);
    assert(0 <= all) by (nonlinear_arith)
        requires
            all == cfg.nh * cfg.hd,
            0 < cfg.nh,
            0 < cfg.hd,
    ;
    lemma_merged(b, t, cfg.nh, cfg.hd);
    let dims = Dims::D3(b, t, all as i32);
    joined_at(ar, env, dims, o, b, t, cfg.nh, cfg.hd);
    let m = unary(Kind::Reshape(dims), unary(Kind::Permute(Dims::D4(0, 2, 1, 3)), o));
    law_product_reads_its_weight(ar, env, m, side, i, Part::OProj, bb, tt, all, hh);
    let po = times_term(m, side, i, Part::OProj);
    let s1 = slot(Part::PostSelfAttnNorm);
    law_norm_scales_by_one_more_than_its_weight(ar, env, po, side, s1, bb, tt, hh);
    let no = norm_term(po, side, s1);
    pairs_at(ar, env, Kind::Add, h, no, bb, tt, hh);
    let mid = after_attention_term(cfg, h, o, b, t, side, i);
    let s2 = slot(Part::PreFeedforwardNorm);
    law_norm_scales_by_one_more_than_its_weight(ar, env, mid, side, s2, bb, tt, hh);
    let x = norm_term(mid, side, s2);
    law_product_reads_its_weight(ar, env, x, side, i, Part::GateProj, bb, tt, hh, inner);
    law_product_reads_its_weight(ar, env, x, side, i, Part::UpProj, bb, tt, hh, inner);
    let (g, u) = (times_term(x, side, i, Part::GateProj), times_term(x, side, i, Part::UpProj));
    gelu_rows(ar, env, g, bb, tt, inner);
    pairs_at(ar, env, Kind::Multiply, gelu_term(g), u, bb, tt, inner);
    let both = binary(Kind::Multiply, gelu_term(g), u);
    law_product_reads_its_weight(ar, env, both, side, i, Part::DownProj, bb, tt, inner, hh);
    let d = times_term(both, side, i, Part::DownProj);
    let s3 = slot(Part::PostFeedforwardNorm);
    law_norm_scales_by_one_more_than_its_weight(ar, env, d, side, s3, bb, tt, hh);
    let nd = norm_term(d, side, s3);
    pairs_at(ar, env, Kind::Add, mid, nd, bb, tt, hh);
    let out = value(ar, env, block_tail_term(cfg, h, o, b, t, side, i));
    assert forall|r: int, q: int| 0 <= r < b && 0 <= q < t implies {
        let heads = Seq::new(
            (cfg.nh * cfg.hd) as nat,
            |e: int| at4(value(ar, env, o), r, e / cfg.hd as int, q, e % cfg.hd as int),
        );
        &&& #[trigger] row3(out, r, q) == pairwise(
            ar,
            Kind::Add,
            row3(value(ar, env, mid), r, q),
            row3(value(ar, env, nd), r, q),
        )
        &&& row3(value(ar, env, m), r, q) == heads
    } by {
        let heads = Seq::new(
            (cfg.nh * cfg.hd) as nat,
            |e: int| at4(value(ar, env, o), r, e / cfg.hd as int, q, e % cfg.hd as int),
        );
        assert forall|e: int| 0 <= e < all implies #[trigger] row3(value(ar, env, m), r, q)[e]
            == heads[e] by {
            assert(at3(value(ar, env, m), r, q, e) == at4(
                value(ar, env, o),
                r,
                e / cfg.hd as int,
                q,
                e % cfg.hd as int,
            ));
        }
        assert(row3(value(ar, env, m), r, q) =~= heads);
    }
    assert forall|r: int, q: int| 0 <= r < b && 0 <= q < t implies {
        &&& #[trigger] row3(value(ar, env, nd), r, q) == norm_row(
            ar,
            value(ar, env, d).elem,
            row3(value(ar, env, d), r, q),
            list(weight_of(env, Stack::Kalm(side), s3)),
        )
        &&& row3(value(ar, env, d), r, q) == times(
            ar,
            row3(value(ar, env, both), r, q),
            weight_of(env, Stack::Kalm(side), slot(Part::DownProj)),
        )
        &&& row3(value(ar, env, both), r, q) == pairwise(
            ar,
            Kind::Multiply,
            gelu_row(ar, value(ar, env, g).elem, row3(value(ar, env, g), r, q)),
            row3(value(ar, env, u), r, q),
        )
        &&& row3(value(ar, env, g), r, q) == times(
            ar,
            row3(value(ar, env, x), r, q),
            weight_of(env, Stack::Kalm(side), slot(Part::GateProj)),
        )
        &&& row3(value(ar, env, u), r, q) == times(
            ar,
            row3(value(ar, env, x), r, q),
            weight_of(env, Stack::Kalm(side), slot(Part::UpProj)),
        )
        &&& row3(value(ar, env, x), r, q) == norm_row(
            ar,
            value(ar, env, mid).elem,
            row3(value(ar, env, mid), r, q),
            list(weight_of(env, Stack::Kalm(side), s2)),
        )
        &&& row3(value(ar, env, mid), r, q) == pairwise(
            ar,
            Kind::Add,
            row3(value(ar, env, h), r, q),
            row3(value(ar, env, no), r, q),
        )
        &&& row3(value(ar, env, no), r, q) == norm_row(
            ar,
            value(ar, env, po).elem,
            row3(value(ar, env, po), r, q),
            list(weight_of(env, Stack::Kalm(side), s1)),
        )
        &&& row3(value(ar, env, po), r, q) == times(
            ar,
            row3(value(ar, env, m), r, q),
            weight_of(env, Stack::Kalm(side), slot(Part::OProj)),
        )
    } by {
        let a = row3(value(ar, env, gelu_term(g)), r, q);
    }
}

/// The numbers of heads of keys that are repeated for every query head.
pub proof fn lemma_one_key_head(nh: int, h: int)
    requires
        0 <= h < nh,
    ensures
        h / nh == 0,
        h / (nh / nh) == h,
        nh % nh == 0,
{
    assert(h / nh == 0) by (nonlinear_arith)
        requires
            0 <= h < nh,
    ;
    assert(nh / nh == 1 && nh % nh == 0) by (nonlinear_arith)
        requires
            nh > 0,
    ;
    assert(h / 1int == h);
}

/// A layer of the encoder, by its own weights and frequencies: the rows normalised by
/// the norm before the attention give queries, keys and values; every query gathers from
/// all keys of its row that the mask does not hide, with the configured scale; the tail
/// of the layer follows.
pub proof fn law_encoder_layer_reads_its_weights<E>(
    ar: Arithmetic<E>,
    env: spec_fn(Kind) -> Val<E>,
    cfg: &KalmConfig,
    sizes: Sizes,
    h: Term,
    kp: Term,
    i: usize,
    b: i32,
    t: i32,
)
    requires
        holds_checkpoint(env, cfg, sizes),
        0 < b,
        0 < t,
        value(ar, env, h).shape == seq![b as int, t as int, cfg.h as int],
        value(ar, env, kp).shape == seq![b as int, 1, 1, t as int],
    ensures
        value(ar, env, encoder_layer_term(cfg, h, kp, i, b, t)).shape == seq![
            b as int,
            t as int,
            cfg.h as int,
        ],
        ({
            let slot = |part: Part|
                env(
                    Kind::Weight(
                        WeightKey { stack: Stack::Kalm(Side::Encoder), slot: Slot::Layer(i, part) },
                    ),
                );
            let lt = if cfg.elt@[i as int]@ == "full_attention"@ {
                LayerType::Full
            } else {
                LayerType::Sliding
            };
            let freqs = list(env(Kind::InvFreq(Side::Encoder, lt)));
            let hd = cfg.hd as int;
            let eh = value(ar, env, h).elem;
            let x = |r: int, u: int|
                norm_row(ar, eh, row3(value(ar, env, h), r, u), list(slot(Part::PreSelfAttnNorm)));
            let head = |r: int, u: int, part: Part, g: int|
                head_of(times(ar, x(r, u), slot(part)), g, hd);
            let turned = |r: int, u: int, part: Part, norm: Part, g: int|
                ({
                    let e = joint(eh, slot(part).elem);
                    rope_row(
                        ar,
                        e,
                        norm_row(ar, e, head(r, u, part, g), list(slot(norm))),
                        wave_row(ar, Kind::Cos, freqs, u),
                        wave_row(ar, Kind::Sin, freqs, u),
                    )
                });
            let eo = joint(
                joint(joint(eh, slot(Part::QProj).elem), joint(eh, slot(Part::KProj).elem)),
                joint(eh, slot(Part::VProj).elem),
            );
            let em = joint(eh, joint(eo, slot(Part::OProj).elem));
            let eg = joint(em, slot(Part::GateProj).elem);
            let ed = joint(
                joint(eg, joint(em, slot(Part::UpProj).elem)),
                slot(Part::DownProj).elem,
            );
            forall|r: int, q: int|
                0 <= r < b && 0 <= q < t ==> #[trigger] row3(
                    value(ar, env, encoder_layer_term(cfg, h, kp, i, b, t)),
                    r,
                    q,
                ) == ({
                    let heads = Seq::new(
                        (cfg.nh * cfg.hd) as nat,
                        |e: int|
                            (ar.attend)(
                                Num::AttnScale,
                                turned(r, q, Part::QProj, Part::QNorm, e / hd),
                                seen(
                                    ar,
                                    t as int,
                                    |u: int|
                                        Key {
                                            key: turned(r, u, Part::KProj, Part::KNorm, 0),
                                            value: head(r, u, Part::VProj, 0),
                                            mask: at4(value(ar, env, kp), r, 0, 0, u),
                                        },
                                ),
                                e % hd,
                            ),
                    );
                    let mid = pairwise(
                        ar,
                        Kind::Add,
                        row3(value(ar, env, h), r, q),
                        norm_row(
                            ar,
                            joint(eo, slot(Part::OProj).elem),
                            times(ar, heads, slot(Part::OProj)),
                            list(slot(Part::PostSelfAttnNorm)),
                        ),
                    );
                    let y = norm_row(ar, em, mid, list(slot(Part::PreFeedforwardNorm)));
                    let gate = gelu_row(ar, eg, times(ar, y, slot(Part::GateProj)));
                    let up = times(ar, y, slot(Part::UpProj));
                    let down = times(
                        ar,
                        pairwise(ar, Kind::Multiply, gate, up),
                        slot(Part::DownProj),
                    );
                    pairwise(
                        ar,
                        Kind::Add,
                        mid,
                        norm_row(ar, ed, down, list(slot(Part::PostFeedforwardNorm))),
                    )
                })
        }),
{
    let side = Side::Encoder;
    let (bb, tt, hh, hd, nh) = (b as int, t as int, cfg.h as int, cfg.hd as int, cfg.nh as int);
    let s0 = Slot::Layer(i, Part::PreSelfAttnNorm);
    assert(weight_extents(cfg, sizes, side, s0) is Some);
    law_norm_scales_by_one_more_than_its_weight(ar, env, h, side, s0, bb, tt, hh);
    let xt = norm_term(h, side, s0);
    let (qp, kpj, vp) = (Part::QProj, Part::KProj, Part::VProj);
    assert(weight_extents(cfg, sizes, side, Slot::Layer(i, vp)) is Some);
    let (qn, kn) = (Part::QNorm, Part::KNorm);
    law_heads_are_normalised_and_turned(
        ar,
        env,
        cfg,
        sizes,
        xt,
        side,
        i,
        qp,
        qn,
        cfg.nh,
        b,
        t,
    );
    law_heads_are_normalised_and_turned(
        ar,
        env,
        cfg,
        sizes,
        xt,
        side,
        i,
        kpj,
        kn,
        cfg.nkv,
        b,
        t,
    );
    law_projection_reads_its_weight(ar, env, cfg, xt, side, i, vp, cfg.nkv, b, t);
    let q0 = turned_term(cfg, xt, side, i, qp, qn, cfg.nh, b, t);
    let k0 = turned_term(cfg, xt, side, i, kpj, kn, cfg.nkv, b, t);
    let v0 = prj_term(cfg, xt, side, i, vp, cfg.nkv, b, t);
    law_repeated_heads_are_copies(ar, env, cfg, k0, bb, 1, tt);
    law_repeated_heads_are_copies(ar, env, cfg, v0, bb, 1, tt);
    let (rk, rv) = (repeat_kv_term(cfg, k0), repeat_kv_term(cfg, v0));
    assert(1 * nh == nh);
    lemma_one_key_head(nh, 0);
    attention_rows(ar, env, Num::AttnScale, q0, rk, rv, kp, bb, nh, nh, tt, tt, hd);
    let o = quaternary(Kind::Attention(Num::AttnScale), q0, rk, rv, kp);
    law_tail_reads_its_weights(ar, env, cfg, sizes, h, o, side, i, b, t);
    let slot = |part: Part|
        env(
            Kind::Weight(
                WeightKey { stack: Stack::Kalm(Side::Encoder), slot: Slot::Layer(i, part) },
            ),
        );
    let lt = if cfg.elt@[i as int]@ == "full_attention"@ {
        LayerType::Full
    } else {
        LayerType::Sliding
    };
    let freqs = list(env(Kind::InvFreq(Side::Encoder, lt)));
    let eh = value(ar, env, h).elem;
    let x = |r: int, u: int|
        norm_row(ar, eh, row3(value(ar, env, h), r, u), list(slot(Part::PreSelfAttnNorm)));
    let head = |r: int, u: int, part: Part, g: int| head_of(times(ar, x(r, u), slot(part)), g, hd);
    let turned = |r: int, u: int, part: Part, norm: Part, g: int|
        ({
            let e = joint(eh, slot(part).elem);
            rope_row(
                ar,
                e,
                norm_row(ar, e, head(r, u, part, g), list(slot(norm))),
                wave_row(ar, Kind::Cos, freqs, u),
                wave_row(ar, Kind::Sin, freqs, u),
            )
        });
    let vo = value(ar, env, o);
    assert forall|r: int, q: int, e: int|
        0 <= r < b && 0 <= q < t && 0 <= e < nh * hd implies #[trigger] at4(
        vo,
        r,
        e / hd,
        q,
        e % hd,
    ) == (ar.attend)(
        Num::AttnScale,
        turned(r, q, Part::QProj, Part::QNorm, e / hd),
        seen(
            ar,
            t as int,
            |u: int|
                Key {
                    key: turned(r, u, Part::KProj, Part::KNorm, 0),
                    value: head(r, u, Part::VProj, 0),
                    mask: at4(value(ar, env, kp), r, 0, 0, u),
                },
        ),
        e % hd,
    ) by {
        lemma_ungrouped(0, nh, hd, e);
        let g = e / hd;
        lemma_one_key_head(nh, g);
        let mine = |u: int|
            Key {
                key: turned(r, u, Part::KProj, Part::KNorm, 0),
                value: head(r, u, Part::VProj, 0),
                mask: at4(value(ar, env, kp), r, 0, 0, u),
            };
        let vm = value(ar, env, kp);
        let theirs = |c: int|
            Key {
                key: row4(value(ar, env, rk), r, g / (nh / nh), c),
                value: row4(value(ar, env, rv), r, g / (nh / nh), c),
                mask: at4(
                    vm,
                    r,
                    0,
                    if vm.shape[2] == 1 {
                        0
                    } else {
                        q
                    },
                    c,
                ),
            };
        assert(row3(value(ar, env, xt), r, q) == x(r, q));
        assert(row4(value(ar, env, q0), r, g, q) == turned(r, q, Part::QProj, Part::QNorm, g));
        assert forall|u: int| 0 <= u < t implies #[trigger] theirs(u) == mine(u) by {
            assert(row3(value(ar, env, xt), r, u) == x(r, u));
            assert(row4(value(ar, env, rk), r, g, u) == row4(value(ar, env, k0), r, 0, u));
            assert(row4(value(ar, env, rv), r, g, u) == row4(value(ar, env, v0), r, 0, u));
            assert(row4(value(ar, env, k0), r, 0, u) == turned(
                r,
                u,
                Part::KProj,
                Part::KNorm,
                0,
            ));
            assert(row4(value(ar, env, v0), r, 0, u) == head(r, u, Part::VProj, 0));
        }
        lemma_seen(ar, tt, theirs, mine);
        assert(at4(vo, r, g, q, e % hd) == (ar.attend)(
            Num::AttnScale,
            row4(value(ar, env, q0), r, g, q),
            seen(ar, tt, theirs),
            e % hd,
        ));
    }
    assert forall|r: int, q: int| 0 <= r < b && 0 <= q < t implies Seq::new(
        (cfg.nh * cfg.hd) as nat,
        |e: int| at4(vo, r, e / cfg.hd as int, q, e % cfg.hd as int),
    ) == Seq::new(
        (cfg.nh * cfg.hd) as nat,
        |e: int|
            (ar.attend)(
                Num::AttnScale,
                turned(r, q, Part::QProj, Part::QNorm, e / hd),
                seen(
                    ar,
                    t as int,
                    |u: int|
                        Key {
                            key: turned(r, u, Part::KProj, Part::KNorm, 0),
                            value: head(r, u, Part::VProj, 0),
                            mask: at4(value(ar, env, kp), r, 0, 0, u),
                        },
                ),
                e % hd,
            ),
    ) && #[trigger] row3(value(ar, env, h), r, q) == row3(value(ar, env, h), r, q) by {
        assert(Seq::new(
            (cfg.nh * cfg.hd) as nat,
            |e: int| at4(vo, r, e / cfg.hd as int, q, e % cfg.hd as int),
        ) =~= Seq::new(
            (cfg.nh * cfg.hd) as nat,
            |e: int|
                (ar.attend)(
                    Num::AttnScale,
                    turned(r, q, Part::QProj, Part::QNorm, e / hd),
                    seen(
                        ar,
                        t as int,
                        |u: int|
                            Key {
                                key: turned(r, u, Part::KProj, Part::KNorm, 0),
                                value: head(r, u, Part::VProj, 0),
                                mask: at4(value(ar, env, kp), r, 0, 0, u),
                            },
                    ),
                    e % hd,
                ),
        ));
    }
    assert(block_tail_term(cfg, h, o, b, t, side, i) == encoder_layer_term(cfg, h, kp, i, b, t));
}

} // verus!
