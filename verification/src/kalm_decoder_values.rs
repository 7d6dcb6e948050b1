//! What the layers of the decoder compute, by the weights that they read.

use crate::graph::{binary, quaternary, Kind, LayerType, Num, Part, Side, Slot, Stack, Term};
use crate::graph::WeightKey;
use crate::kalm::{block_tail_term, decoder_layer_term, norm_term, prj_term, repeat_kv_term};
use crate::kalm::{turned_term, weight};
use crate::kalm_config::KalmConfig;
use crate::kalm_layer_values::{holds_checkpoint, law_heads_are_normalised_and_turned};
use crate::kalm_layer_values::{law_tail_reads_its_weights, lemma_one_key_head};
use crate::kalm_shapes::{weight_extents, Sizes};
use crate::kalm_values::{gelu_row, law_norm_scales_by_one_more_than_its_weight};
use crate::kalm_values::{law_projection_reads_its_weight, law_repeated_heads_are_copies};
use crate::kalm_values::{norm_heads, norm_row, rope_row, wave_row, weight_at};
use crate::links::at4;
use crate::meaning::{lemma_value2, value, zero, Arithmetic, Key, Val};
use crate::types::joint;
use crate::values::{attention_rows, head_of, lemma_seen, list, pairwise, row2, row3, row4, seen};
use crate::values::times;
use crate::window_folds::lemma_ungrouped;
use crate::windows::lemma_result_concat;
use vstd::prelude::*;

verus! {

/// Keys of one kind behind keys of another.
proof fn joined_keys<E>(
    ar: Arithmetic<E>,
    env: spec_fn(Kind) -> Val<E>,
    x: Term,
    y: Term,
    b: int,
    t: int,
    n: int,
    d: int,
)
    requires
        0 <= b,
        0 <= t,
        0 <= n,
        0 <= d,
        value(ar, env, x).shape == seq![b, 1, t, d],
        value(ar, env, y).shape == seq![b, 1, n, d],
    ensures
        ({
            let (vx, vy) = (value(ar, env, x), value(ar, env, y));
            let z = value(ar, env, binary(Kind::Concat { axis: 2 }, x, y));
            &&& z.shape == seq![b, 1, t + n, d]
            &&& z.elem == joint(vx.elem, vy.elem)
            &&& forall|r: int, u: int| #[trigger]
                row4(z, r, 0, u) == if u < t {
                    row4(vx, r, 0, u)
                } else {
                    row4(vy, r, 0, u - t)
                }
        }),
{
    let (vx, vy) = (value(ar, env, x), value(ar, env, y));
    let kind = Kind::Concat { axis: 2 };
    lemma_value2(ar, env, kind, x, y);
    lemma_result_concat(ar, env, 2, vx, vy, seq![b, 1, t + n, d]);
    let z = value(ar, env, binary(kind, x, y));
    assert forall|r: int, u: int| #[trigger] row4(z, r, 0, u) == if u < t {
        row4(vx, r, 0, u)
    } else {
        row4(vy, r, 0, u - t)
    } by {
        let want = if u < t {
            row4(vx, r, 0, u)
        } else {
            row4(vy, r, 0, u - t)
        };
        assert forall|j: int| 0 <= j < d implies #[trigger] row4(z, r, 0, u)[j] == want[j] by {
            let i = seq![r, 0, u, j];
            if u >= t {
                assert(i.update(2, u - t) =~= seq![r, 0, u - t, j]);
            }
        }
        assert(row4(z, r, 0, u) =~= want);
    }
}

/// What the merged attention of a layer gathers.
proof fn merged_at<E>(
    ar: Arithmetic<E>,
    env: spec_fn(Kind) -> Val<E>,
    cfg: &KalmConfig,
    sizes: Sizes,
    h: Term,
    pooled: Term,
    mm: Term,
    i: usize,
    b: i32,
    t: i32,
    ne: i32,
) -> (o: Term)
    requires
        holds_checkpoint(env, cfg, sizes),
        0 < b,
        0 < t,
        0 < ne,
        value(ar, env, h).shape == seq![b as int, t as int, cfg.h as int],
        value(ar, env, pooled).shape == seq![b as int, ne as int, cfg.h as int],
        value(ar, env, mm).shape == seq![b as int, 1, t as int, t + ne],
    ensures
        ({
            let vo = value(ar, env, o);
            let slot = |part: Part|
                env(
                    Kind::Weight(
                        WeightKey { stack: Stack::Kalm(Side::Decoder), slot: Slot::Layer(i, part) },
                    ),
                );
            let lt = if cfg.dlt@[i as int]@ == "full_attention"@ {
                LayerType::Full
            } else {
                LayerType::Sliding
            };
            let freqs = list(env(Kind::InvFreq(Side::Decoder, lt)));
            let hd = cfg.hd as int;
            let eh = value(ar, env, h).elem;
            let x = |r: int, u: int|
                norm_row(ar, eh, row3(value(ar, env, h), r, u), list(slot(Part::PreSelfAttnNorm)));
            let head = |r: int, u: int, part: Part, g: int|
                head_of(times(ar, x(r, u), slot(part)), g, hd);
            let turned = |r: int, u: int, part: Part, norm: Part, g: int|
                ({
                    let e = joint(eh, slot(part).elem);
                    rope_row(
                        ar,
                        e,
                        norm_row(ar, e, head(r, u, part, g), list(slot(norm))),
                        wave_row(ar, Kind::Cos, freqs, u),
                        wave_row(ar, Kind::Sin, freqs, u),
                    )
                });
            let ep = value(ar, env, pooled).elem;
            let far = |r: int, u: int, part: Part|
                head_of(times(ar, row3(value(ar, env, pooled), r, u), slot(part)), 0, hd);
            let eo = joint(
                joint(
                    joint(eh, slot(Part::QProj).elem),
                    joint(joint(eh, slot(Part::KProj).elem), joint(ep, slot(Part::KProj).elem)),
                ),
                joint(joint(eh, slot(Part::VProj).elem), joint(ep, slot(Part::VProj).elem)),
            );
            &&& decoder_layer_term(cfg, h, pooled, mm, i, b, t, ne) == block_tail_term(
                cfg,
                h,
                o,
                b,
                t,
                Side::Decoder,
                i,
            )
            &&& vo.shape == seq![b as int, cfg.nh as int, t as int, hd]
            &&& vo.elem == eo
            &&& forall|r: int, q: int, e: int|
                0 <= r < b && 0 <= q < t && 0 <= e < cfg.nh * cfg.hd ==> #[trigger] at4(
                    vo,
                    r,
                    e / hd,
                    q,
                    e % hd,
                ) == (ar.attend)(
                    Num::AttnScale,
                    turned(r, q, Part::QProj, Part::QNorm, e / hd),
                    seen(
                        ar,
                        t + ne,
                        |u: int|
                            Key {
                                key: if u < t {
                                    turned(r, u, Part::KProj, Part::KNorm, 0)
                                } else {
                                    norm_row(
                                        ar,
                                        joint(ep, slot(Part::KProj).elem),
                                        far(r, u - t, Part::KProj),
                                        list(slot(Part::KNorm)),
                                    )
                                },
                                value: if u < t {
                                    head(r, u, Part::VProj, 0)
                                } else {
                                    far(r, u - t, Part::VProj)
                                },
                                mask: at4(value(ar, env, mm), r, 0, q, u),
                            },
                    ),
                    e % hd,
                )
        }),
{
    let side = Side::Decoder;
    let (bb, tt, hh, hd, nh) = (b as int, t as int, cfg.h as int, cfg.hd as int, cfg.nh as int);
    let s0 = Slot::Layer(i, Part::PreSelfAttnNorm);
    assert(weight_extents(cfg, sizes, side, s0) is Some);
    law_norm_scales_by_one_more_than_its_weight(ar, env, h, side, s0, bb, tt, hh);
    let xt = norm_term(h, side, s0);
    let (qp, kpj, vp) = (Part::QProj, Part::KProj, Part::VProj);
    assert(weight_extents(cfg, sizes, side, Slot::Layer(i, vp)) is Some);
    let (qn, kn) = (Part::QNorm, Part::KNorm);
    law_heads_are_normalised_and_turned(
        ar,
        env,
        cfg,
        sizes,
        xt,
        side,
        i,
        qp,
        qn,
        cfg.nh,
        b,
        t,
    );
    law_heads_are_normalised_and_turned(
        ar,
        env,
        cfg,
        sizes,
        xt,
        side,
        i,
        kpj,
        kn,
        cfg.nkv,
        b,
        t,
    );
    law_projection_reads_its_weight(ar, env, cfg, xt, side, i, vp, cfg.nkv, b, t);
    let q0 = turned_term(cfg, xt, side, i, qp, qn, cfg.nh, b, t);
    let sk = turned_term(cfg, xt, side, i, kpj, kn, cfg.nkv, b, t);
    let sv = prj_term(cfg, xt, side, i, vp, cfg.nkv, b, t);
    let nn = ne as int;
    let sn = Slot::Layer(i, Part::KNorm);
    assert(weight_extents(cfg, sizes, side, sn) is Some);
    assert(weight_extents(cfg, sizes, side, Slot::Layer(i, kpj)) is Some);
    law_projection_reads_its_weight(ar, env, cfg, pooled, side, i, kpj, cfg.nkv, b, ne);
    law_projection_reads_its_weight(ar, env, cfg, pooled, side, i, vp, cfg.nkv, b, ne);
    let pk = prj_term(cfg, pooled, side, i, kpj, cfg.nkv, b, ne);
    let cv = prj_term(cfg, pooled, side, i, vp, cfg.nkv, b, ne);
    weight_at(ar, env, side, sn);
    norm_heads(ar, env, pk, weight(side, sn), bb, 1, nn, hd);
    let ck = norm_term(pk, side, sn);
    joined_keys(ar, env, sk, ck, bb, tt, nn, hd);
    joined_keys(ar, env, sv, cv, bb, tt, nn, hd);
    let k0 = binary(Kind::Concat { axis: 2 }, sk, ck);
    let v0 = binary(Kind::Concat { axis: 2 }, sv, cv);
    law_repeated_heads_are_copies(ar, env, cfg, k0, bb, 1, tt + nn);
    law_repeated_heads_are_copies(ar, env, cfg, v0, bb, 1, tt + nn);
    let (rk, rv) = (repeat_kv_term(cfg, k0), repeat_kv_term(cfg, v0));
    assert(1 * nh == nh);
    lemma_one_key_head(nh, 0);
    attention_rows(ar, env, Num::AttnScale, q0, rk, rv, mm, bb, nh, nh, tt, tt + nn, hd);
    let o = quaternary(Kind::Attention(Num::AttnScale), q0, rk, rv, mm);
    let slot = |part: Part|
        env(
            Kind::Weight(
                WeightKey { stack: Stack::Kalm(Side::Decoder), slot: Slot::Layer(i, part) },
            ),
        );
    let lt = if cfg.dlt@[i as int]@ == "full_attention"@ {
        LayerType::Full
    } else {
        LayerType::Sliding
    };
    let freqs = list(env(Kind::InvFreq(Side::Decoder, lt)));
    let eh = value(ar, env, h).elem;
    let x = |r: int, u: int|
        norm_row(ar, eh, row3(value(ar, env, h), r, u), list(slot(Part::PreSelfAttnNorm)));
    let head = |r: int, u: int, part: Part, g: int|
        head_of(times(ar, x(r, u), slot(part)), g, hd);
    let turned = |r: int, u: int, part: Part, norm: Part, g: int|
        ({
            let e = joint(eh, slot(part).elem);
            rope_row(
                ar,
                e,
                norm_row(ar, e, head(r, u, part, g), list(slot(norm))),
                wave_row(ar, Kind::Cos, freqs, u),
                wave_row(ar, Kind::Sin, freqs, u),
            )
        });
    let ep = value(ar, env, pooled).elem;
    let far = |r: int, u: int, part: Part|
        head_of(times(ar, row3(value(ar, env, pooled), r, u), slot(part)), 0, hd);
    let vo = value(ar, env, o);
    assert forall|r: int, q: int, e: int|
        0 <= r < b && 0 <= q < t && 0 <= e < nh * hd implies #[trigger] at4(
        vo,
        r,
        e / hd,
        q,
        e % hd,
    ) == (ar.attend)(
        Num::AttnScale,
        turned(r, q, Part::QProj, Part::QNorm, e / hd),
        seen(
            ar,
            t + ne,
            |u: int|
                Key {
                    key: if u < t {
                        turned(r, u, Part::KProj, Part::KNorm, 0)
                    } else {
                        norm_row(
                            ar,
                            joint(ep, slot(Part::KProj).elem),
                            far(r, u - t, Part::KProj),
                            list(slot(Part::KNorm)),
                        )
                    },
                    value: if u < t {
                        head(r, u, Part::VProj, 0)
                    } else {
                        far(r, u - t, Part::VProj)
                    },
                    mask: at4(value(ar, env, mm), r, 0, q, u),
                },
        ),
        e % hd,
    ) by {
        lemma_ungrouped(0, nh, hd, e);
        let g = e / hd;
        lemma_one_key_head(nh, g);
        let mine = |u: int|
                Key {
                    key: if u < t {
                        turned(r, u, Part::KProj, Part::KNorm, 0)
                    } else {
                        norm_row(
                            ar,
                            joint(ep, slot(Part::KProj).elem),
                            far(r, u - t, Part::KProj),
                            list(slot(Part::KNorm)),
                        )
                    },
                    value: if u < t {
                        head(r, u, Part::VProj, 0)
                    } else {
                        far(r, u - t, Part::VProj)
                    },
                    mask: at4(value(ar, env, mm), r, 0, q, u),
                };
        let vm = value(ar, env, mm);
        let theirs = |c: int|
            Key {
                key: row4(value(ar, env, rk), r, g / (nh / nh), c),
                value: row4(value(ar, env, rv), r, g / (nh / nh), c),
                mask: at4(
                    vm,
                    r,
                    0,
                    if vm.shape[2] == 1 {
                        0
                    } else {
                        q
                    },
                    c,
                ),
            };
        assert(row3(value(ar, env, xt), r, q) == x(r, q));
        assert(row4(value(ar, env, q0), r, g, q) == turned(r, q, Part::QProj, Part::QNorm, g));
        assert forall|u: int| 0 <= u < t + ne implies #[trigger] theirs(u) == mine(u) by {
            assert(row4(value(ar, env, rk), r, g, u) == row4(value(ar, env, k0), r, 0, u));
            assert(row4(value(ar, env, rv), r, g, u) == row4(value(ar, env, v0), r, 0, u));
            if u < t {
                assert(row3(value(ar, env, xt), r, u) == x(r, u));
                assert(row4(value(ar, env, k0), r, 0, u) == row4(value(ar, env, sk), r, 0, u));
                assert(row4(value(ar, env, v0), r, 0, u) == row4(value(ar, env, sv), r, 0, u));
                assert(row4(value(ar, env, sk), r, 0, u) == turned(
                    r,
                    u,
                    Part::KProj,
                    Part::KNorm,
                    0,
                ));
                assert(row4(value(ar, env, sv), r, 0, u) == head(r, u, Part::VProj, 0));
            } else {
                let c = u - t;
                assert(row4(value(ar, env, k0), r, 0, u) == row4(value(ar, env, ck), r, 0, c));
                assert(row4(value(ar, env, v0), r, 0, u) == row4(value(ar, env, cv), r, 0, c));
                assert(row4(value(ar, env, pk), r, 0, c) == far(r, c, Part::KProj));
                assert(row4(value(ar, env, cv), r, 0, c) == far(r, c, Part::VProj));
            }
            if t == 1 {
                assert(q == 0);
            }
        }
        lemma_seen(ar, t + ne, theirs, mine);
        assert(at4(vo, r, g, q, e % hd) == (ar.attend)(
            Num::AttnScale,
            row4(value(ar, env, q0), r, g, q),
            seen(ar, t + ne, theirs),
            e % hd,
        ));
    }
    o
}

/// A layer of the decoder, by its own weights and frequencies: the rows normalised by the
/// norm before the attention give queries, keys and values; the pooled states give
/// further keys and values behind them, by the same key weight and norm, not turned, and
/// by the same value weight; every query gathers from the keys of both that the mask does
/// not hide, with the configured scale; the tail of the layer follows.
pub proof fn law_decoder_layer_reads_its_weights<E>(
    ar: Arithmetic<E>,
    env: spec_fn(Kind) -> Val<E>,
    cfg: &KalmConfig,
    sizes: Sizes,
    h: Term,
    pooled: Term,
    mm: Term,
    i: usize,
    b: i32,
    t: i32,
    ne: i32,
)
    requires
        holds_checkpoint(env, cfg, sizes),
        0 < b,
        0 < t,
        0 < ne,
        value(ar, env, h).shape == seq![b as int, t as int, cfg.h as int],
        value(ar, env, pooled).shape == seq![b as int, ne as int, cfg.h as int],
        value(ar, env, mm).shape == seq![b as int, 1, t as int, t + ne],
    ensures
        value(ar, env, decoder_layer_term(cfg, h, pooled, mm, i, b, t, ne)).shape == seq![
            b as int,
            t as int,
            cfg.h as int,
        ],
        ({
            let slot = |part: Part|
                env(
                    Kind::Weight(
                        WeightKey { stack: Stack::Kalm(Side::Decoder), slot: Slot::Layer(i, part) },
                    ),
                );
            let lt = if cfg.dlt@[i as int]@ == "full_attention"@ {
                LayerType::Full
            } else {
                LayerType::Sliding
            };
            let freqs = list(env(Kind::InvFreq(Side::Decoder, lt)));
            let hd = cfg.hd as int;
            let eh = value(ar, env, h).elem;
            let x = |r: int, u: int|
                norm_row(ar, eh, row3(value(ar, env, h), r, u), list(slot(Part::PreSelfAttnNorm)));
            let head = |r: int, u: int, part: Part, g: int|
                head_of(times(ar, x(r, u), slot(part)), g, hd);
            let turned = |r: int, u: int, part: Part, norm: Part, g: int|
                ({
                    let e = joint(eh, slot(part).elem);
                    rope_row(
                        ar,
                        e,
                        norm_row(ar, e, head(r, u, part, g), list(slot(norm))),
                        wave_row(ar, Kind::Cos, freqs, u),
                        wave_row(ar, Kind::Sin, freqs, u),
                    )
                });
            let ep = value(ar, env, pooled).elem;
            let far = |r: int, u: int, part: Part|
                head_of(times(ar, row3(value(ar, env, pooled), r, u), slot(part)), 0, hd);
            let eo = joint(
                joint(
                    joint(eh, slot(Part::QProj).elem),
                    joint(joint(eh, slot(Part::KProj).elem), joint(ep, slot(Part::KProj).elem)),
                ),
                joint(joint(eh, slot(Part::VProj).elem), joint(ep, slot(Part::VProj).elem)),
            );
            let em = joint(eh, joint(eo, slot(Part::OProj).elem));
            let eg = joint(em, slot(Part::GateProj).elem);
            let ed = joint(
                joint(eg, joint(em, slot(Part::UpProj).elem)),
                slot(Part::DownProj).elem,
            );
            forall|r: int, q: int|
                0 <= r < b && 0 <= q < t ==> #[trigger] row3(
                    value(ar, env, decoder_layer_term(cfg, h, pooled, mm, i, b, t, ne)),
                    r,
                    q,
                ) == ({
                    let heads = Seq::new(
                        (cfg.nh * cfg.hd) as nat,
                        |e: int|
                            (ar.attend)(
                                Num::AttnScale,
                                turned(r, q, Part::QProj, Part::QNorm, e / hd),
                                seen(
                                    ar,
                                    t + ne,
                                    |u: int|
                                        Key {
                                            key: if u < t {
                                                turned(r, u, Part::KProj, Part::KNorm, 0)
                                            } else {
                                                norm_row(
                                                    ar,
                                                    joint(ep, slot(Part::KProj).elem),
                                                    far(r, u - t, Part::KProj),
                                                    list(slot(Part::KNorm)),
                                                )
                                            },
                                            value: if u < t {
                                                head(r, u, Part::VProj, 0)
                                            } else {
                                                far(r, u - t, Part::VProj)
                                            },
                                            mask: at4(value(ar, env, mm), r, 0, q, u),
                                        },
                                ),
                                e % hd,
                            ),
                    );
                    let mid = pairwise(
                        ar,
                        Kind::Add,
                        row3(value(ar, env, h), r, q),
                        norm_row(
                            ar,
                            joint(eo, slot(Part::OProj).elem),
                            times(ar, heads, slot(Part::OProj)),
                            list(slot(Part::PostSelfAttnNorm)),
                        ),
                    );
                    let y = norm_row(ar, em, mid, list(slot(Part::PreFeedforwardNorm)));
                    let gate = gelu_row(ar, eg, times(ar, y, slot(Part::GateProj)));
                    let up = times(ar, y, slot(Part::UpProj));
                    let down = times(
                        ar,
                        pairwise(ar, Kind::Multiply, gate, up),
                        slot(Part::DownProj),
                    );
                    pairwise(
                        ar,
                        Kind::Add,
                        mid,
                        norm_row(ar, ed, down, list(slot(Part::PostFeedforwardNorm))),
                    )
                })
        }),
{
    let o = merged_at(ar, env, cfg, sizes, h, pooled, mm, i, b, t, ne);
    law_tail_reads_its_weights(ar, env, cfg, sizes, h, o, Side::Decoder, i, b, t);
    let slot = |part: Part|
        env(
            Kind::Weight(
                WeightKey { stack: Stack::Kalm(Side::Decoder), slot: Slot::Layer(i, part) },
            ),
        );
    let lt = if cfg.dlt@[i as int]@ == "full_attention"@ {
        LayerType::Full
    } else {
        LayerType::Sliding
    };
    let freqs = list(env(Kind::InvFreq(Side::Decoder, lt)));
    let hd = cfg.hd as int;
    let eh = value(ar, env, h).elem;
    let x = |r: int, u: int|
        norm_row(ar, eh, row3(value(ar, env, h), r, u), list(slot(Part::PreSelfAttnNorm)));
    let head = |r: int, u: int, part: Part, g: int|
        head_of(times(ar, x(r, u), slot(part)), g, hd);
    let turned = |r: int, u: int, part: Part, norm: Part, g: int|
        ({
            let e = joint(eh, slot(part).elem);
            rope_row(
                ar,
                e,
                norm_row(ar, e, head(r, u, part, g), list(slot(norm))),
                wave_row(ar, Kind::Cos, freqs, u),
                wave_row(ar, Kind::Sin, freqs, u),
            )
        });
    let ep = value(ar, env, pooled).elem;
    let far = |r: int, u: int, part: Part|
        head_of(times(ar, row3(value(ar, env, pooled), r, u), slot(part)), 0, hd);
    let vo = value(ar, env, o);
    assert forall|r: int, q: int| 0 <= r < b && 0 <= q < t implies Seq::new(
        (cfg.nh * cfg.hd) as nat,
        |e: int| at4(vo, r, e / cfg.hd as int, q, e % cfg.hd as int),
    ) == Seq::new(
        (cfg.nh * cfg.hd) as nat,
        |e: int|
            (ar.attend)(
                Num::AttnScale,
                turned(r, q, Part::QProj, Part::QNorm, e / hd),
                seen(
                    ar,
                    t + ne,
                    |u: int|
                        Key {
                            key: if u < t {
                                turned(r, u, Part::KProj, Part::KNorm, 0)
                            } else {
                                norm_row(
                                    ar,
                                    joint(ep, slot(Part::KProj).elem),
                                    far(r, u - t, Part::KProj),
                                    list(slot(Part::KNorm)),
                                )
                            },
                            value: if u < t {
                                head(r, u, Part::VProj, 0)
                            } else {
                                far(r, u - t, Part::VProj)
                            },
                            mask: at4(value(ar, env, mm), r, 0, q, u),
                        },
                ),
                e % hd,
            ),
    ) && #[trigger] row3(value(ar, env, h), r, q) == row3(value(ar, env, h), r, q) by {
        assert(Seq::new(
            (cfg.nh * cfg.hd) as nat,
            |e: int| at4(vo, r, e / cfg.hd as int, q, e % cfg.hd as int),
        ) =~= Seq::new(
            (cfg.nh * cfg.hd) as nat,
            |e: int|
                (ar.attend)(
                    Num::AttnScale,
                    turned(r, q, Part::QProj, Part::QNorm, e / hd),
                    seen(
                        ar,
                        t + ne,
                        |u: int|
                            Key {
                                key: if u < t {
                                    turned(r, u, Part::KProj, Part::KNorm, 0)
                                } else {
                                    norm_row(
                                        ar,
                                        joint(ep, slot(Part::KProj).elem),
                                        far(r, u - t, Part::KProj),
                                        list(slot(Part::KNorm)),
                                    )
                                },
                                value: if u < t {
                                    head(r, u, Part::VProj, 0)
                                } else {
                                    far(r, u - t, Part::VProj)
                                },
                                mask: at4(value(ar, env, mm), r, 0, q, u),
                            },
                    ),
                    e % hd,
                ),
        ));
    }
}

/// A list of zeros.
pub open spec fn zeros<E>(ar: Arithmetic<E>, n: int) -> Seq<E> {
    Seq::new(n as nat, |j: int| zero(ar))
}

/// Whether nothing comes of zeros: a product with a list of zeros is zero, and so is what
/// is gathered from keys whose values are zeros.
pub open spec fn gathers_nothing<E>(ar: Arithmetic<E>) -> bool {
    &&& forall|x: Seq<E>, n: int| #[trigger] (ar.dot)(x, zeros(ar, n)) == zero(ar)
    &&& forall|scale: Num, q: Seq<E>, keys: Seq<Key<E>>, n: int, j: int|
        #![trigger (ar.attend)(scale, q, keys, j), zeros(ar, n)]
        (forall|k: int| 0 <= k < keys.len() ==> (#[trigger] keys[k]).value == zeros(ar, n))
            ==> (ar.attend)(scale, q, keys, j) == zero(ar)
}

proof fn lemma_seen_values<E>(
    ar: Arithmetic<E>,
    n: int,
    key: spec_fn(int) -> Key<E>,
    v: Seq<E>,
)
    requires
        forall|u: int| 0 <= u < n ==> (#[trigger] key(u)).value == v,
    ensures
        forall|k: int| 0 <= k < seen(ar, n, key).len() ==> (#[trigger] seen(ar, n, key)[k]).value
            == v,
    decreases n,
{
    if n > 0 {
        lemma_seen_values(ar, n - 1, key, v);
        let (rest, last) = (seen(ar, n - 1, key), key(n - 1));
        assert(last.value == v);
        assert forall|k: int| 0 <= k < seen(ar, n, key).len() implies (
        #[trigger] seen(ar, n, key)[k]).value == v by {
            if k < rest.len() {
                assert(seen(ar, n, key)[k] == rest[k]);
            } else {
                assert(seen(ar, n, key)[k] == last);
            }
        }
    }
}

/// The values of a layer come from its value weight alone: with zeros in it, and where
/// nothing comes of zeros, the attention adds nothing but what the norm behind it makes
/// of the products of zeros, whatever the keys and queries are.
pub proof fn law_values_of_zeros_gather_zeros<E>(
    ar: Arithmetic<E>,
    env: spec_fn(Kind) -> Val<E>,
    cfg: &KalmConfig,
    sizes: Sizes,
    h: Term,
    pooled: Term,
    mm: Term,
    i: usize,
    b: i32,
    t: i32,
    ne: i32,
)
    requires
        gathers_nothing(ar),
        holds_checkpoint(env, cfg, sizes),
        0 < b,
        0 < t,
        0 < ne,
        value(ar, env, h).shape == seq![b as int, t as int, cfg.h as int],
        value(ar, env, pooled).shape == seq![b as int, ne as int, cfg.h as int],
        value(ar, env, mm).shape == seq![b as int, 1, t as int, t + ne],
        ({
            let values = env(
                Kind::Weight(
                    WeightKey {
                        stack: Stack::Kalm(Side::Decoder),
                        slot: Slot::Layer(i, Part::VProj),
                    },
                ),
            );
            forall|c: int|
                0 <= c < values.shape[0] ==> #[trigger] row2(values, c) == zeros(ar, cfg.h as int)
        }),
    ensures
        ({
            let slot = |part: Part|
                env(
                    Kind::Weight(
                        WeightKey { stack: Stack::Kalm(Side::Decoder), slot: Slot::Layer(i, part) },
                    ),
                );
            let (eh, ep) = (value(ar, env, h).elem, value(ar, env, pooled).elem);
            let eo = joint(
                joint(
                    joint(eh, slot(Part::QProj).elem),
                    joint(joint(eh, slot(Part::KProj).elem), joint(ep, slot(Part::KProj).elem)),
                ),
                joint(joint(eh, slot(Part::VProj).elem), joint(ep, slot(Part::VProj).elem)),
            );
            let em = joint(eh, joint(eo, slot(Part::OProj).elem));
            let eg = joint(em, slot(Part::GateProj).elem);
            let ed = joint(
                joint(eg, joint(em, slot(Part::UpProj).elem)),
                slot(Part::DownProj).elem,
            );
            forall|r: int, q: int|
                0 <= r < b && 0 <= q < t ==> #[trigger] row3(
                    value(ar, env, decoder_layer_term(cfg, h, pooled, mm, i, b, t, ne)),
                    r,
                    q,
                ) == ({
                    let mid = pairwise(
                        ar,
                        Kind::Add,
                        row3(value(ar, env, h), r, q),
                        norm_row(
                            ar,
                            joint(eo, slot(Part::OProj).elem),
                            times(ar, zeros(ar, cfg.nh * cfg.hd), slot(Part::OProj)),
                            list(slot(Part::PostSelfAttnNorm)),
                        ),
                    );
                    let y = norm_row(ar, em, mid, list(slot(Part::PreFeedforwardNorm)));
                    let gate = gelu_row(ar, eg, times(ar, y, slot(Part::GateProj)));
                    let up = times(ar, y, slot(Part::UpProj));
                    let down = times(
                        ar,
                        pairwise(ar, Kind::Multiply, gate, up),
                        slot(Part::DownProj),
                    );
                    pairwise(
                        ar,
                        Kind::Add,
                        mid,
                        norm_row(ar, ed, down, list(slot(Part::PostFeedforwardNorm))),
                    )
                })
        }),
{
    let o = merged_at(ar, env, cfg, sizes, h, pooled, mm, i, b, t, ne);
    law_tail_reads_its_weights(ar, env, cfg, sizes, h, o, Side::Decoder, i, b, t);
    let slot = |part: Part|
        env(
            Kind::Weight(
                WeightKey { stack: Stack::Kalm(Side::Decoder), slot: Slot::Layer(i, part) },
            ),
        );
    let lt = if cfg.dlt@[i as int]@ == "full_attention"@ {
        LayerType::Full
    } else {
        LayerType::Sliding
    };
    let freqs = list(env(Kind::InvFreq(Side::Decoder, lt)));
    let hd = cfg.hd as int;
    let eh = value(ar, env, h).elem;
    let x = |r: int, u: int|
        norm_row(ar, eh, row3(value(ar, env, h), r, u), list(slot(Part::PreSelfAttnNorm)));
    let head = |r: int, u: int, part: Part, g: int|
        head_of(times(ar, x(r, u), slot(part)), g, hd);
    let turned = |r: int, u: int, part: Part, norm: Part, g: int|
        ({
            let e = joint(eh, slot(part).elem);
            rope_row(
                ar,
                e,
                norm_row(ar, e, head(r, u, part, g), list(slot(norm))),
                wave_row(ar, Kind::Cos, freqs, u),
                wave_row(ar, Kind::Sin, freqs, u),
            )
        });
    let ep = value(ar, env, pooled).elem;
    let far = |r: int, u: int, part: Part|
        head_of(times(ar, row3(value(ar, env, pooled), r, u), slot(part)), 0, hd);
    let vo = value(ar, env, o);
    assert(weight_extents(cfg, sizes, Side::Decoder, Slot::Layer(i, Part::VProj)) is Some);
    let none = zeros(ar, hd);
    let values = slot(Part::VProj);
    assert(values.shape[0] == hd);
    assert forall|x: Seq<E>| #[trigger] head_of(times(ar, x, values), 0, hd) == none by {
        assert forall|j: int| 0 <= j < hd implies #[trigger] head_of(times(ar, x, values), 0, hd)[j]
            == none[j] by {
            assert(row2(values, j) == zeros(ar, cfg.h as int));
        }
        assert(head_of(times(ar, x, values), 0, hd) =~= none);
    }
    assert forall|r: int, q: int| 0 <= r < b && 0 <= q < t implies Seq::new(
        (cfg.nh * cfg.hd) as nat,
        |e: int| at4(vo, r, e / cfg.hd as int, q, e % cfg.hd as int),
    ) == zeros(ar, cfg.nh * cfg.hd) && #[trigger] row3(value(ar, env, h), r, q) == row3(
        value(ar, env, h),
        r,
        q,
    ) by {
        let keys = |u: int|
            Key {
                key: if u < t {
                    turned(r, u, Part::KProj, Part::KNorm, 0)
                } else {
                    norm_row(
                        ar,
                        joint(ep, slot(Part::KProj).elem),
                        far(r, u - t, Part::KProj),
                        list(slot(Part::KNorm)),
                    )
                },
                value: if u < t {
                    head(r, u, Part::VProj, 0)
                } else {
                    far(r, u - t, Part::VProj)
                },
                mask: at4(value(ar, env, mm), r, 0, q, u),
            };
        assert forall|u: int| 0 <= u < t + ne implies (#[trigger] keys(u)).value == none by {}
        lemma_seen_values(ar, t + ne, keys, none);
        assert forall|e: int| 0 <= e < cfg.nh * cfg.hd implies #[trigger] at4(
            vo,
            r,
            e / hd,
            q,
            e % hd,
        ) == zero(ar) by {
            assert(at4(vo, r, e / hd, q, e % hd) == (ar.attend)(
                Num::AttnScale,
                turned(r, q, Part::QProj, Part::QNorm, e / hd),
                seen(ar, t + ne, keys),
                e % hd,
            ));
        }
        assert(Seq::new(
            (cfg.nh * cfg.hd) as nat,
            |e: int| at4(vo, r, e / cfg.hd as int, q, e % cfg.hd as int),
        ) =~= zeros(ar, cfg.nh * cfg.hd));
    }
}

/// Keys only weigh values: where the values of a layer are zeros, two programs that differ
/// in the layer's key weight alone compute the same states.
pub proof fn law_keys_only_weigh_values<E>(
    ar: Arithmetic<E>,
    e1: spec_fn(Kind) -> Val<E>,
    e2: spec_fn(Kind) -> Val<E>,
    cfg: &KalmConfig,
    sizes: Sizes,
    h: Term,
    pooled: Term,
    mm: Term,
    i: usize,
    b: i32,
    t: i32,
    ne: i32,
    r: int,
    q: int,
)
    requires
        gathers_nothing(ar),
        holds_checkpoint(e1, cfg, sizes),
        holds_checkpoint(e2, cfg, sizes),
        0 <= r < b,
        0 <= q < t,
        0 < ne,
        value(ar, e1, h).shape == seq![b as int, t as int, cfg.h as int],
        value(ar, e1, pooled).shape == seq![b as int, ne as int, cfg.h as int],
        value(ar, e1, mm).shape == seq![b as int, 1, t as int, t + ne],
        value(ar, e2, h) == value(ar, e1, h),
        value(ar, e2, pooled) == value(ar, e1, pooled),
        value(ar, e2, mm) == value(ar, e1, mm),
        ({
            let key = |part: Part|
                WeightKey { stack: Stack::Kalm(Side::Decoder), slot: Slot::Layer(i, part) };
            let values = e1(Kind::Weight(key(Part::VProj)));
            &&& forall|c: int|
                0 <= c < values.shape[0] ==> #[trigger] row2(values, c) == zeros(ar, cfg.h as int)
            &&& forall|other: WeightKey| #![trigger e1(Kind::Weight(other))]
                other != key(Part::KProj) ==> e1(Kind::Weight(other)) == e2(Kind::Weight(other))
            &&& e1(Kind::Weight(key(Part::KProj))).elem == e2(
                Kind::Weight(key(Part::KProj)),
            ).elem
        }),
    ensures
        ({
            let y = decoder_layer_term(cfg, h, pooled, mm, i, b, t, ne);
            row3(value(ar, e1, y), r, q) == row3(value(ar, e2, y), r, q)
        }),
{
    law_values_of_zeros_gather_zeros(ar, e1, cfg, sizes, h, pooled, mm, i, b, t, ne);
    law_values_of_zeros_gather_zeros(ar, e2, cfg, sizes, h, pooled, mm, i, b, t, ne);
}

} // verus!
