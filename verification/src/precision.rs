//! The precision of both models: 16-bit reals from the embeddings to the scores.

use crate::graph::{binary, leaf, quaternary, unary};
use crate::graph::{Dims, Kind, Num, Part, Side, Slot, Term, Ty};
use crate::kalm;
use crate::kalm::{after_attention_term, block_tail_term, decode_term, decoder_layers_term};
use crate::kalm::{encoder_layers_term, encoder_states_term, gelu_term, hide_zeros_term};
use crate::kalm::{norm_term, prj_term};
use crate::kalm::{repeat_kv_term, times_term, turned_term};
use crate::kalm_config::KalmConfig;
use crate::kalm_score::{all_masks_term, all_pools_term, answer_term, even_pool_term};
use crate::kalm_score::{max_chunks, merged_mask_term, pool_term, score_term};
use crate::nemotron;
use crate::nemotron::{attention_term, forward_term, layers_term, mlp_term};
use crate::nemotron::{mean_pool_term, padding_mask_term, N_LAYERS};
use crate::types::{lemma_type0, lemma_type1, lemma_type2, lemma_type3, lemma_type4};
use crate::types::{lemma_type_concat, type_of, Elem};
use vstd::prelude::*;

verus! {

broadcast use {lemma_type0, lemma_type1, lemma_type2, lemma_type3, lemma_type4};

/// The element types that a program of the encoder-decoder starts from.
pub open spec fn kalm_elems() -> spec_fn(Kind) -> Elem {
    |kind: Kind|
        match kind {
            Kind::Ids(_) | Kind::Prompt => Elem::Int,
            Kind::Weight(_) => Elem::Bf16,
            _ => Elem::F32,
        }
}

/// The element types that a program of the cross-encoder starts from.
pub open spec fn nemotron_elems() -> spec_fn(Kind) -> Elem {
    |kind: Kind|
        match kind {
            Kind::Ids(_) | Kind::Mask(_) => Elem::Int,
            Kind::Weight(_) => Elem::F16,
            _ => Elem::F32,
        }
}

/// The Gaussian unit, the normalisation and the rotary embedding give back elements
/// of the type that they are given.
pub proof fn law_element_types_are_kept(
    x: Term,
    w: Term,
    c: Term,
    s: Term,
    hd: i32,
    inp: spec_fn(Kind) -> Elem,
)
    ensures
        type_of(gelu_term(x), inp) == type_of(x, inp),
        type_of(kalm::rms_term(x, w), inp) == type_of(x, inp),
        type_of(kalm::rope_term(x, c, s, hd), inp) == type_of(x, inp),
{
}

/// Whether a term is of 16-bit reals of the encoder-decoder's kind.
spec fn is_bf16(x: Term) -> bool {
    type_of(x, kalm_elems()) == Elem::Bf16
}

proof fn lemma_times(x: Term, side: Side, i: usize, part: Part)
    requires
        is_bf16(x),
    ensures
        is_bf16(times_term(x, side, i, part)),
{
}

proof fn lemma_norm(x: Term, side: Side, slot: Slot)
    requires
        is_bf16(x),
    ensures
        is_bf16(norm_term(x, side, slot)),
{
}

proof fn lemma_block_tail(
    cfg: &KalmConfig,
    h: Term,
    o: Term,
    b: i32,
    t: i32,
    side: Side,
    i: usize,
)
    requires
        is_bf16(h),
        is_bf16(o),
    ensures
        is_bf16(block_tail_term(cfg, h, o, b, t, side, i)),
{
    let mid = after_attention_term(cfg, h, o, b, t, side, i);
    assert(is_bf16(mid));
    let x = norm_term(mid, side, Slot::Layer(i, Part::PreFeedforwardNorm));
    lemma_norm(mid, side, Slot::Layer(i, Part::PreFeedforwardNorm));
    lemma_times(x, side, i, Part::GateProj);
    lemma_times(x, side, i, Part::UpProj);
    let gate = gelu_term(times_term(x, side, i, Part::GateProj));
    let up = times_term(x, side, i, Part::UpProj);
    assert(is_bf16(gate) && is_bf16(up));
    let act = binary(Kind::Multiply, gate, up);
    assert(is_bf16(act));
    lemma_times(act, side, i, Part::DownProj);
    let down = times_term(act, side, i, Part::DownProj);
    lemma_norm(down, side, Slot::Layer(i, Part::PostFeedforwardNorm));
}

proof fn lemma_heads(
    cfg: &KalmConfig,
    x: Term,
    side: Side,
    i: usize,
    part: Part,
    norm: Part,
    n: i32,
    b: i32,
    t: i32,
)
    requires
        is_bf16(x),
    ensures
        is_bf16(prj_term(cfg, x, side, i, part, n, b, t)),
        is_bf16(norm_term(prj_term(cfg, x, side, i, part, n, b, t), side, Slot::Layer(i, norm))),
        is_bf16(turned_term(cfg, x, side, i, part, norm, n, b, t)),
{
    lemma_times(x, side, i, part);
    let y = prj_term(cfg, x, side, i, part, n, b, t);
    assert(is_bf16(y));
    lemma_norm(y, side, Slot::Layer(i, norm));
}

proof fn lemma_encoder_layers(cfg: &KalmConfig, h: Term, kp: Term, n: nat, b: i32, t: i32)
    requires
        is_bf16(h),
    ensures
        is_bf16(encoder_layers_term(cfg, h, kp, n, b, t)),
    decreases n,
{
    if n > 0 {
        lemma_encoder_layers(cfg, h, kp, (n - 1) as nat, b, t);
        let i = (n - 1) as usize;
        let side = Side::Encoder;
        let h = encoder_layers_term(cfg, h, kp, (n - 1) as nat, b, t);
        let x = norm_term(h, side, Slot::Layer(i, Part::PreSelfAttnNorm));
        lemma_norm(h, side, Slot::Layer(i, Part::PreSelfAttnNorm));
        lemma_heads(cfg, x, side, i, Part::QProj, Part::QNorm, cfg.nh, b, t);
        lemma_heads(cfg, x, side, i, Part::KProj, Part::KNorm, cfg.nkv, b, t);
        lemma_heads(cfg, x, side, i, Part::VProj, Part::KNorm, cfg.nkv, b, t);
        let o = quaternary(
            Kind::Attention(Num::AttnScale),
            turned_term(cfg, x, side, i, Part::QProj, Part::QNorm, cfg.nh, b, t),
            repeat_kv_term(cfg, turned_term(cfg, x, side, i, Part::KProj, Part::KNorm, cfg.nkv, b, t)),
            repeat_kv_term(cfg, prj_term(cfg, x, side, i, Part::VProj, cfg.nkv, b, t)),
            kp,
        );
        assert(is_bf16(o));
        lemma_block_tail(cfg, h, o, b, t, side, i);
    }
}

proof fn lemma_decoder_layers(
    cfg: &KalmConfig,
    h: Term,
    pooled: Term,
    mm: Term,
    n: nat,
    b: i32,
    td: i32,
    ne: i32,
)
    requires
        is_bf16(h),
        is_bf16(pooled),
    ensures
        is_bf16(decoder_layers_term(cfg, h, pooled, mm, n, b, td, ne)),
    decreases n,
{
    if n > 0 {
        lemma_decoder_layers(cfg, h, pooled, mm, (n - 1) as nat, b, td, ne);
        let i = (n - 1) as usize;
        let side = Side::Decoder;
        let h = decoder_layers_term(cfg, h, pooled, mm, (n - 1) as nat, b, td, ne);
        let x = norm_term(h, side, Slot::Layer(i, Part::PreSelfAttnNorm));
        lemma_norm(h, side, Slot::Layer(i, Part::PreSelfAttnNorm));
        lemma_heads(cfg, x, side, i, Part::QProj, Part::QNorm, cfg.nh, b, td);
        lemma_heads(cfg, x, side, i, Part::KProj, Part::KNorm, cfg.nkv, b, td);
        lemma_heads(cfg, x, side, i, Part::VProj, Part::KNorm, cfg.nkv, b, td);
        lemma_heads(cfg, pooled, side, i, Part::KProj, Part::KNorm, cfg.nkv, b, ne);
        lemma_heads(cfg, pooled, side, i, Part::VProj, Part::KNorm, cfg.nkv, b, ne);
        let key = binary(
            Kind::Concat { axis: 2 },
            turned_term(cfg, x, side, i, Part::KProj, Part::KNorm, cfg.nkv, b, td),
            norm_term(
                prj_term(cfg, pooled, side, i, Part::KProj, cfg.nkv, b, ne),
                side,
                Slot::Layer(i, Part::KNorm),
            ),
        );
        let val = binary(
            Kind::Concat { axis: 2 },
            prj_term(cfg, x, side, i, Part::VProj, cfg.nkv, b, td),
            prj_term(cfg, pooled, side, i, Part::VProj, cfg.nkv, b, ne),
        );
        assert(is_bf16(key) && is_bf16(val));
        let o = quaternary(
            Kind::Attention(Num::AttnScale),
            turned_term(cfg, x, side, i, Part::QProj, Part::QNorm, cfg.nh, b, td),
            repeat_kv_term(cfg, key),
            repeat_kv_term(cfg, val),
            mm,
        );
        assert(is_bf16(o));
        lemma_block_tail(cfg, h, o, b, td, side, i);
    }
}

/// The encoder computes in bf16: the states of batch `k` and what is pooled of them.
pub proof fn law_encoder_is_bf16(cfg: &KalmConfig, k: usize, b: i32, w: i32)
    ensures
        type_of(
            encoder_states_term(cfg, leaf(Kind::Ids(k)), leaf(Kind::Mask(k)), b, w),
            kalm_elems(),
        ) == Elem::Bf16,
        type_of(pool_term(cfg, k, b, w), kalm_elems()) == Elem::Bf16,
{
    let ids = leaf(Kind::Ids(k));
    let am = leaf(Kind::Mask(k));
    let kp = unary(
        Kind::Cast(Ty::Bf16),
        hide_zeros_term(unary(Kind::Reshape(Dims::D4(b, 1, 1, w)), am)),
    );
    let h = kalm::embedded_term(cfg, ids, b, w);
    assert(is_bf16(h));
    lemma_encoder_layers(cfg, h, kp, cfg.enl as nat, b, w);
    lemma_norm(
        encoder_layers_term(cfg, h, kp, cfg.enl as nat, b, w),
        Side::Encoder,
        Slot::FinalNorm,
    );
}

proof fn lemma_even_pool(cfg: &KalmConfig, dims: Seq<(i32, i32)>, k: int)
    ensures
        is_bf16(even_pool_term(cfg, dims, k)),
{
    let (b, w) = dims[k];
    law_encoder_is_bf16(cfg, k as usize, b, w);
}

proof fn lemma_answer(cfg: &KalmConfig, h: Term, n: i32, td: i32, yes: i32, no: i32)
    requires
        is_bf16(h),
    ensures
        is_bf16(answer_term(cfg, h, n, td, yes, no)),
{
}

/// The encoder-decoder computes in bf16 throughout: what the decoder reads of the
/// passages, its states, and the scores.
pub proof fn law_bf16_throughout(
    cfg: &KalmConfig,
    dims: Seq<(i32, i32)>,
    n: i32,
    td: i32,
    yes: i32,
    no: i32,
)
    requires
        dims.len() > 0,
    ensures
        type_of(all_pools_term(cfg, dims), kalm_elems()) == Elem::Bf16,
        type_of(
            decode_term(
                cfg,
                unary(Kind::Repeat { count: n, axis: 0 }, leaf(Kind::Prompt)),
                all_pools_term(cfg, dims),
                merged_mask_term(all_masks_term(dims), n, td, max_chunks(dims) as i32),
                n,
                td,
                max_chunks(dims) as i32,
            ),
            kalm_elems(),
        ) == Elem::Bf16,
        type_of(score_term(cfg, dims, n, td, yes, no), kalm_elems()) == Elem::Bf16,
{
    let inp = kalm_elems();
    let pools = Seq::new(dims.len(), |k: int| even_pool_term(cfg, dims, k));
    assert forall|k: int| 0 <= k < pools.len() implies type_of(#[trigger] pools[k], inp)
        == Elem::Bf16 by {
        lemma_even_pool(cfg, dims, k);
    }
    lemma_type_concat(0, pools, inp, Elem::Bf16);
    let pooled = all_pools_term(cfg, dims);
    let ne = max_chunks(dims) as i32;
    let dids = unary(Kind::Repeat { count: n, axis: 0 }, leaf(Kind::Prompt));
    let mm = merged_mask_term(all_masks_term(dims), n, td, ne);
    let h = kalm::embedded_term(cfg, dids, n, td);
    assert(is_bf16(h));
    lemma_decoder_layers(cfg, h, pooled, mm, cfg.dnl as nat, n, td, ne);
    lemma_norm(
        decoder_layers_term(cfg, h, pooled, mm, cfg.dnl as nat, n, td, ne),
        Side::Decoder,
        Slot::FinalNorm,
    );
    lemma_answer(cfg, decode_term(cfg, dids, pooled, mm, n, td, ne), n, td, yes, no);
}

/// Whether a term is of 16-bit reals of the cross-encoder's kind.
spec fn is_f16(x: Term) -> bool {
    type_of(x, nemotron_elems()) == Elem::F16
}

proof fn lemma_layers(h: Term, mask: Term, n: nat, b: i32, s: i32)
    requires
        is_f16(h),
    ensures
        is_f16(layers_term(h, mask, n, b, s)),
    decreases n,
{
    if n > 0 {
        lemma_layers(h, mask, (n - 1) as nat, b, s);
        let i = (n - 1) as usize;
        let h = layers_term(h, mask, (n - 1) as nat, b, s);
        let x = nemotron::rms_norm_term(h, Slot::Layer(i, Part::InputNorm));
        assert(is_f16(x));
        let q = nemotron::linear_term(x, Slot::Layer(i, Part::QProj));
        let k = nemotron::linear_term(x, Slot::Layer(i, Part::KProj));
        let v = nemotron::linear_term(x, Slot::Layer(i, Part::VProj));
        assert(is_f16(q) && is_f16(k) && is_f16(v));
        assert(is_f16(nemotron::attend_term(q, k, v, mask, b, s)));
        assert(is_f16(attention_term(h, mask, i, b, s)));
        let mid = binary(Kind::Add, h, attention_term(h, mask, i, b, s));
        assert(is_f16(mid));
        assert(is_f16(mlp_term(mid, i)));
    }
}

/// The cross-encoder computes in f16 throughout: the mask, the states behind any
/// number of layers, and the scores.
pub proof fn law_f16_throughout(b: i32, s: i32, n: nat)
    ensures
        type_of(padding_mask_term(b, s), nemotron_elems()) == Elem::F16,
        type_of(
            layers_term(nemotron::embedded_term(b, s), padding_mask_term(b, s), n, b, s),
            nemotron_elems(),
        ) == Elem::F16,
        type_of(forward_term(b, s), nemotron_elems()) == Elem::F16,
{
    let h = nemotron::embedded_term(b, s);
    let mask = padding_mask_term(b, s);
    assert(is_f16(h));
    lemma_layers(h, mask, n, b, s);
    lemma_layers(h, mask, N_LAYERS as nat, b, s);
    let normed = nemotron::rms_norm_term(
        layers_term(h, mask, N_LAYERS as nat, b, s),
        Slot::FinalNorm,
    );
    assert(is_f16(normed));
    assert(is_f16(mean_pool_term(normed, b, s)));
}

} // verus!
