//! The extents of the arrays in the encoder-decoder's program.

use crate::batch::MAX_LEN;
use crate::graph::{binary, leaf, literal, quaternary, ternary, unary};
use crate::graph::{Dims, Kind, LayerType, Num, Part, Side, Slot, Stack, Term, Ty, REST};
use crate::kalm::{after_attention_term, angles_term, block_tail_term, chunk_count};
use crate::kalm::{chunk_mask_term, chunk_pad, cos_term, decode_term, decoder_layer_term};
use crate::kalm::{decoder_layers_term, embedded_term, embedding, encoder_layer_term};
use crate::kalm::{encoder_layers_term, encoder_states_term, feedforward_term, filled_term};
use crate::kalm::{gelu_term, half_of, hide_zeros_term, invfreq_term, norm_term};
use crate::kalm::{pooled_mask_term, pooled_term, prj_term, repeat_kv_term};
use crate::kalm::{rope_term, sin_term, times_term, turned_term, weight, CHUNK};
use crate::kalm_config::KalmConfig;
use crate::kalm_score::{all_masks_term, all_pools_term, answer_term, causal_term, cross_term};
use crate::kalm_score::{even_mask_term, even_pool_term, last_position, lemma_max_chunks};
use crate::kalm_score::{max_chunks, merged_mask_term, pool_mask_term, pool_term, score_term};
use crate::kalm_score::widths_are_read;
use crate::shapes::{extents, joined, known_extents, shape_of, stretched};
use crate::shapes::{lemma_binary, lemma_leaf, lemma_quaternary, lemma_ternary, lemma_unary};
use crate::shapes::{lemma_concat, lemma_concat_all, lemma_permute, lemma_product};
use crate::shapes::{lemma_reshaped, lemma_reshaped_rest};
use crate::shapes::{lemma_stretched_into, lemma_stretched_same, lemma_stretched_scalar};
use vstd::prelude::*;

verus! {

broadcast use {lemma_leaf, lemma_unary, lemma_binary, lemma_ternary, lemma_quaternary};

/// Whether the dimensions of a configuration fit together: heads of an even
/// width, and one key head that all query heads share.
pub open spec fn fits_together(cfg: &KalmConfig) -> bool {
    &&& cfg.wf()
    &&& cfg.h > 0
    &&& cfg.nh > 0
    &&& cfg.nkv == 1
    &&& cfg.hd > 0
    &&& cfg.hd as int % 2 == 0
}

/// The sizes that a checkpoint has beside those of its configuration.
pub struct Sizes {
    /// The number of tokens that have an embedding.
    pub vocab: int,
    /// The width of the encoder's feed-forward layers.
    pub encoder_inner: int,
    /// The width of the decoder's feed-forward layers.
    pub decoder_inner: int,
}

impl Sizes {
    /// The width of one stack's feed-forward layers.
    pub open spec fn inner(self, side: Side) -> int {
        match side {
            Side::Encoder => self.encoder_inner,
            Side::Decoder => self.decoder_inner,
        }
    }
}

/// The extents of the weight in a slot of one stack.
pub open spec fn weight_extents(cfg: &KalmConfig, sizes: Sizes, side: Side, slot: Slot) -> Option<
    Seq<int>,
> {
    match slot {
        Slot::Embedding => if side == Side::Encoder {
            Some(seq![sizes.vocab, cfg.h as int])
        } else {
            None
        },
        Slot::FinalNorm => Some(seq![cfg.h as int]),
        Slot::ScoreHead => None,
        Slot::Layer(_, part) => match part {
            Part::PreSelfAttnNorm
            | Part::PostSelfAttnNorm
            | Part::PreFeedforwardNorm
            | Part::PostFeedforwardNorm => Some(seq![cfg.h as int]),
            Part::QNorm | Part::KNorm => Some(seq![cfg.hd as int]),
            Part::QProj => Some(seq![cfg.nh * cfg.hd, cfg.h as int]),
            Part::KProj | Part::VProj => Some(seq![cfg.nkv * cfg.hd, cfg.h as int]),
            Part::OProj => Some(seq![cfg.h as int, cfg.nh * cfg.hd]),
            Part::GateProj | Part::UpProj => Some(seq![sizes.inner(side), cfg.h as int]),
            Part::DownProj => Some(seq![cfg.h as int, sizes.inner(side)]),
            _ => None,
        },
    }
}

/// The extents of the arrays that a program over batches of `(rows, width)` and a
/// prompt of `td` tokens starts from.
pub open spec fn inputs(
    cfg: &KalmConfig,
    sizes: Sizes,
    dims: Seq<(i32, i32)>,
    td: i32,
) -> spec_fn(Kind) -> Option<Seq<int>> {
    |kind: Kind|
        match kind {
            Kind::Ids(k) | Kind::Mask(k) => if k < dims.len() {
                Some(seq![dims[k as int].0 as int, dims[k as int].1 as int])
            } else {
                None
            },
            Kind::Prompt => Some(seq![1int, td as int]),
            Kind::InvFreq(_, _) => Some(seq![cfg.hd as int / 2]),
            Kind::Weight(key) => match key.stack {
                Stack::Kalm(side) => weight_extents(cfg, sizes, side, key.slot),
                _ => None,
            },
            _ => None,
        }
}

/// Whether the arrays that a program starts from have the checkpoint's extents,
/// but for the batches and the prompt.
spec fn holds_weights(
    inp: spec_fn(Kind) -> Option<Seq<int>>,
    cfg: &KalmConfig,
    sizes: Sizes,
) -> bool {
    &&& forall|side: Side, lt: LayerType| #[trigger]
        inp(Kind::InvFreq(side, lt)) == Some(seq![cfg.hd as int / 2])
    &&& forall|side: Side, slot: Slot| #[trigger]
        shape_of(weight(side, slot), inp) == weight_extents(cfg, sizes, side, slot)
}

proof fn lemma_inputs(cfg: &KalmConfig, sizes: Sizes, dims: Seq<(i32, i32)>, td: i32)
    ensures
        holds_weights(inputs(cfg, sizes, dims, td), cfg, sizes),
{
}

proof fn lemma_norm(
    x: Term,
    side: Side,
    slot: Slot,
    inp: spec_fn(Kind) -> Option<Seq<int>>,
    lead: Seq<int>,
    wide: int,
)
    requires
        shape_of(x, inp) == Some(lead.push(wide)),
        shape_of(weight(side, slot), inp) == Some(seq![wide]),
    ensures
        shape_of(norm_term(x, side, slot), inp) == Some(lead.push(wide)),
{
    let all = lead.push(wide);
    let w = weight(side, slot);
    let xf = unary(Kind::Cast(Ty::F32), x);
    lemma_stretched_same(all);
    let sq = binary(Kind::Multiply, xf, xf);
    assert(shape_of(sq, inp) == Some(all));
    let ms = unary(Kind::Mean { axis: -1i32, keep: true }, sq);
    let one = lead.push(1);
    assert(all.update(all.len() - 1, 1) =~= one);
    assert(shape_of(ms, inp) == Some(one));
    lemma_stretched_scalar(one);
    let inv = unary(Kind::Rsqrt, binary(Kind::Add, ms, leaf(Kind::Const(Num::Eps))));
    assert(shape_of(inv, inp) == Some(one));
    lemma_stretched_into(all, one);
    let o = binary(Kind::Multiply, xf, inv);
    assert(shape_of(o, inp) == Some(all));
    lemma_stretched_scalar(seq![wide]);
    let scale = binary(Kind::Add, literal(1, 0), unary(Kind::Cast(Ty::F32), w));
    assert(shape_of(scale, inp) == Some(seq![wide]));
    lemma_stretched_into(all, seq![wide]);
    assert(shape_of(binary(Kind::Multiply, o, scale), inp) == Some(all));
}

proof fn lemma_gelu(x: Term, inp: spec_fn(Kind) -> Option<Seq<int>>, s: Seq<int>)
    requires
        shape_of(x, inp) == Some(s),
    ensures
        shape_of(gelu_term(x), inp) == Some(s),
{
    lemma_stretched_same(s);
    lemma_stretched_scalar(s);
    let x3 = binary(Kind::Multiply, binary(Kind::Multiply, x, x), x);
    assert(shape_of(x3, inp) == Some(s));
    let inner = binary(Kind::Add, x, binary(Kind::Multiply, x3, literal(44715, -6)));
    assert(shape_of(inner, inp) == Some(s));
    let t = unary(Kind::Tanh, binary(Kind::Multiply, inner, literal(7978845608028654, -16)));
    assert(shape_of(t, inp) == Some(s));
    assert(shape_of(binary(Kind::Add, t, literal(1, 0)), inp) == Some(s));
    let halved = binary(Kind::Multiply, x, literal(5, -1));
    assert(shape_of(halved, inp) == Some(s));
    let gate = binary(Kind::Add, t, literal(1, 0));
    assert(shape_of(binary(Kind::Multiply, halved, gate), inp) == Some(s));
}

proof fn lemma_times(
    x: Term,
    side: Side,
    i: usize,
    part: Part,
    inp: spec_fn(Kind) -> Option<Seq<int>>,
    lead: Seq<int>,
    from: int,
    to: int,
)
    requires
        lead.len() >= 1,
        shape_of(x, inp) == Some(lead.push(from)),
        shape_of(weight(side, Slot::Layer(i, part)), inp) == Some(seq![to, from]),
    ensures
        shape_of(times_term(x, side, i, part), inp) == Some(lead.push(to)),
{
    let w = unary(Kind::Transpose, weight(side, Slot::Layer(i, part)));
    assert(seq![to, from].reverse() =~= seq![from, to]);
    assert(shape_of(w, inp) == Some(seq![from, to]));
    assert(lead.push(from).drop_last() =~= lead);
}

/// The extents of the cosine and sine tables.
spec fn table(t: i32, hd: i32) -> Seq<int> {
    seq![1int, 1int, t as int, hd as int]
}

proof fn lemma_angles(
    side: Side,
    lt: LayerType,
    t: i32,
    inp: spec_fn(Kind) -> Option<Seq<int>>,
    hd: i32,
)
    requires
        t > 0,
        hd > 0,
        hd as int % 2 == 0,
        inp(Kind::InvFreq(side, lt)) == Some(seq![hd as int / 2]),
    ensures
        shape_of(angles_term(side, lt, t), inp) == Some(table(t, hd)),
        shape_of(cos_term(side, lt, t), inp) == Some(table(t, hd)),
        shape_of(sin_term(side, lt, t), inp) == Some(table(t, hd)),
{
    let half = hd as int / 2;
    let steps = leaf(Kind::Arange { stop: t, step: 1 });
    assert(seq![(t + 1 - 1) / 1int] =~= seq![t as int]);
    assert(shape_of(steps, inp) == Some(seq![t as int]));
    lemma_product(t as int, 1, 1, 1);
    assert(extents(Dims::D2(t, 1)) =~= seq![t as int, 1int]);
    lemma_reshaped(seq![t as int], seq![t as int, 1int]);
    let pos = unary(Kind::Reshape(Dims::D2(t, 1)), steps);
    assert(shape_of(pos, inp) == Some(seq![t as int, 1int]));

    let open = seq![1int, -1int];
    assert(extents(Dims::D2(1, REST)) =~= open);
    assert(known_extents(open) =~= seq![1int, 1int]);
    lemma_product(1, 1, 1, 1);
    lemma_product(half, 1, 1, 1);
    lemma_reshaped_rest(seq![half], open, 1, half);
    assert(open.update(1, half) =~= seq![1int, half]);
    let inv = unary(Kind::Reshape(Dims::D2(1, REST)), leaf(Kind::InvFreq(side, lt)));
    assert(shape_of(inv, inp) == Some(seq![1int, half]));

    let fr = binary(Kind::Multiply, pos, inv);
    assert(stretched(seq![t as int, 1int], seq![1int, half]) == Some(seq![t as int, half])) by {
        reveal(stretched);
        assert(stretched(seq![t as int, 1int], seq![1int, half])->0 =~= seq![t as int, half]);
    }
    assert(shape_of(fr, inp) == Some(seq![t as int, half]));
    let wide = seq![t as int, hd as int];
    lemma_concat(-1i32, fr, fr, inp, wide);
    let both = binary(Kind::Concat { axis: -1i32 }, fr, fr);
    assert(shape_of(both, inp) == Some(wide));

    let open = seq![1int, 1int, t as int, -1int];
    assert(extents(Dims::D4(1, 1, t, REST)) =~= open);
    assert(known_extents(open) =~= seq![1int, 1int, t as int, 1int]);
    lemma_product(1, 1, t as int, 1);
    lemma_product(t as int, hd as int, 1, 1);
    assert(1 * 1 * t * 1 == t);
    lemma_reshaped_rest(wide, open, 3, hd as int);
    assert(open.update(3, hd as int) =~= table(t, hd));
}

/// The extents of `n` heads of `b` rows of `t` positions.
spec fn heads(b: i32, n: i32, t: i32, hd: i32) -> Seq<int> {
    seq![b as int, n as int, t as int, hd as int]
}

proof fn lemma_rope(
    x: Term,
    c: Term,
    s: Term,
    inp: spec_fn(Kind) -> Option<Seq<int>>,
    b: i32,
    n: i32,
    t: i32,
    hd: i32,
)
    requires
        hd > 0,
        hd as int % 2 == 0,
        shape_of(x, inp) == Some(heads(b, n, t, hd)),
        shape_of(c, inp) == Some(table(t, hd)),
        shape_of(s, inp) == Some(table(t, hd)),
    ensures
        shape_of(rope_term(x, c, s, hd), inp) == Some(heads(b, n, t, hd)),
{
    let all = heads(b, n, t, hd);
    let half = half_of(hd);
    assert(half * 2 == hd);
    let part = heads(b, n, t, half);
    let x1 = unary(Kind::SliceLast { from: 0, to: half }, x);
    let x2 = unary(Kind::SliceLast { from: half, to: hd }, x);
    assert(all.drop_last().push(half - 0) =~= part);
    assert(all.drop_last().push(hd - half) =~= part);
    assert(shape_of(x1, inp) == Some(part));
    assert(shape_of(x2, inp) == Some(part));
    lemma_stretched_scalar(part);
    let neg = binary(Kind::Multiply, x2, literal(-1, 0));
    assert(shape_of(neg, inp) == Some(part));
    lemma_concat(-1i32, neg, x1, inp, all);
    let rot = binary(Kind::Concat { axis: -1i32 }, neg, x1);
    lemma_stretched_into(all, table(t, hd));
    assert(shape_of(binary(Kind::Multiply, x, c), inp) == Some(all));
    assert(shape_of(binary(Kind::Multiply, rot, s), inp) == Some(all));
    lemma_stretched_same(all);
    let sum = binary(Kind::Add, binary(Kind::Multiply, x, c), binary(Kind::Multiply, rot, s));
    assert(shape_of(sum, inp) == Some(all));
}

proof fn lemma_prj(
    cfg: &KalmConfig,
    x: Term,
    side: Side,
    i: usize,
    part: Part,
    n: i32,
    b: i32,
    t: i32,
    inp: spec_fn(Kind) -> Option<Seq<int>>,
)
    requires
        b > 0,
        t > 0,
        n > 0,
        cfg.hd > 0,
        shape_of(x, inp) == Some(seq![b as int, t as int, cfg.h as int]),
        shape_of(weight(side, Slot::Layer(i, part)), inp) == Some(seq![n * cfg.hd, cfg.h as int]),
    ensures
        shape_of(prj_term(cfg, x, side, i, part, n, b, t), inp) == Some(heads(b, n, t, cfg.hd)),
{
    let lead = seq![b as int, t as int];
    assert(lead.push(cfg.h as int) =~= seq![b as int, t as int, cfg.h as int]);
    lemma_times(x, side, i, part, inp, lead, cfg.h as int, n * cfg.hd);
    let flat = seq![b as int, t as int, n * cfg.hd];
    assert(lead.push(n * cfg.hd) =~= flat);
    let y = times_term(x, side, i, part);
    assert(shape_of(y, inp) == Some(flat));
    let split = seq![b as int, t as int, n as int, cfg.hd as int];
    assert(extents(Dims::D4(b, t, n, cfg.hd)) =~= split);
    lemma_product(b as int, t as int, n * cfg.hd, 1);
    lemma_product(b as int, t as int, n as int, cfg.hd as int);
    let (bb, tt, nn, dd) = (b as int, t as int, n as int, cfg.hd as int);
    assert(bb * tt * nn * dd == bb * tt * (nn * dd)) by (nonlinear_arith);
    lemma_reshaped(flat, split);
    let y4 = unary(Kind::Reshape(Dims::D4(b, t, n, cfg.hd)), y);
    assert(shape_of(y4, inp) == Some(split));
    lemma_permute(y4, inp, split);
}

proof fn lemma_turned(
    cfg: &KalmConfig,
    sizes: Sizes,
    x: Term,
    side: Side,
    i: usize,
    part: Part,
    norm: Part,
    n: i32,
    b: i32,
    t: i32,
    inp: spec_fn(Kind) -> Option<Seq<int>>,
)
    requires
        fits_together(cfg),
        holds_weights(inp, cfg, sizes),
        b > 0,
        t > 0,
        n > 0,
        shape_of(x, inp) == Some(seq![b as int, t as int, cfg.h as int]),
        shape_of(weight(side, Slot::Layer(i, part)), inp) == Some(seq![n * cfg.hd, cfg.h as int]),
        shape_of(weight(side, Slot::Layer(i, norm)), inp) == Some(seq![cfg.hd as int]),
    ensures
        shape_of(turned_term(cfg, x, side, i, part, norm, n, b, t), inp) == Some(
            heads(b, n, t, cfg.hd),
        ),
{
    let lt = cfg.layer_type(side, i as int);
    lemma_prj(cfg, x, side, i, part, n, b, t, inp);
    let y = prj_term(cfg, x, side, i, part, n, b, t);
    let lead = seq![b as int, n as int, t as int];
    assert(lead.push(cfg.hd as int) =~= heads(b, n, t, cfg.hd));
    lemma_norm(y, side, Slot::Layer(i, norm), inp, lead, cfg.hd as int);
    assert(inp(Kind::InvFreq(side, lt)) == Some(seq![cfg.hd as int / 2]));
    lemma_angles(side, lt, t, inp, cfg.hd);
    lemma_rope(
        norm_term(y, side, Slot::Layer(i, norm)),
        cos_term(side, lt, t),
        sin_term(side, lt, t),
        inp,
        b,
        n,
        t,
        cfg.hd,
    );
}

/// The extents of hidden states of `b` rows of `t` positions.
spec fn states(cfg: &KalmConfig, b: i32, t: i32) -> Seq<int> {
    seq![b as int, t as int, cfg.h as int]
}

proof fn lemma_repeat_kv(
    cfg: &KalmConfig,
    x: Term,
    b: i32,
    t: int,
    inp: spec_fn(Kind) -> Option<Seq<int>>,
)
    requires
        fits_together(cfg),
        shape_of(x, inp) == Some(seq![b as int, 1int, t, cfg.hd as int]),
    ensures
        shape_of(repeat_kv_term(cfg, x), inp) == Some(
            seq![b as int, cfg.nh as int, t, cfg.hd as int],
        ),
{
    let one = seq![b as int, 1int, t, cfg.hd as int];
    assert(one.update(1, 1 * cfg.nh) =~= seq![b as int, cfg.nh as int, t, cfg.hd as int]);
}

proof fn lemma_block_tail(
    cfg: &KalmConfig,
    sizes: Sizes,
    h: Term,
    attn_out: Term,
    b: i32,
    t: i32,
    side: Side,
    i: usize,
    inp: spec_fn(Kind) -> Option<Seq<int>>,
)
    requires
        fits_together(cfg),
        holds_weights(inp, cfg, sizes),
        b > 0,
        t > 0,
        shape_of(h, inp) == Some(states(cfg, b, t)),
        shape_of(attn_out, inp) == Some(heads(b, cfg.nh, t, cfg.hd)),
    ensures
        shape_of(block_tail_term(cfg, h, attn_out, b, t, side, i), inp) == Some(states(cfg, b, t)),
{
    let wide = (cfg.nh * cfg.hd) as i32;
    let lead = seq![b as int, t as int];
    let hh = cfg.h as int;
    assert(lead.push(hh) =~= states(cfg, b, t));
    let side_by_side = seq![b as int, t as int, cfg.nh as int, cfg.hd as int];
    lemma_permute(attn_out, inp, heads(b, cfg.nh, t, cfg.hd));
    let turned = unary(Kind::Permute(Dims::D4(0, 2, 1, 3)), attn_out);
    assert(shape_of(turned, inp) == Some(side_by_side));
    let flat = seq![b as int, t as int, wide as int];
    assert(extents(Dims::D3(b, t, wide)) =~= flat);
    lemma_product(b as int, t as int, cfg.nh as int, cfg.hd as int);
    lemma_product(b as int, t as int, wide as int, 1);
    let (bb, tt, nn, dd) = (b as int, t as int, cfg.nh as int, cfg.hd as int);
    assert(bb * tt * nn * dd == bb * tt * (nn * dd)) by (nonlinear_arith);
    assert(nn * dd > 0) by (nonlinear_arith)
        requires
            nn > 0,
            dd > 0,
    ;
    lemma_reshaped(side_by_side, flat);
    let merged = unary(Kind::Reshape(Dims::D3(b, t, wide)), turned);
    assert(lead.push(wide as int) =~= flat);
    assert(shape_of(merged, inp) == Some(flat));
    lemma_times(merged, side, i, Part::OProj, inp, lead, wide as int, hh);
    let o = times_term(merged, side, i, Part::OProj);
    lemma_norm(o, side, Slot::Layer(i, Part::PostSelfAttnNorm), inp, lead, hh);
    lemma_stretched_same(states(cfg, b, t));
    let mid = after_attention_term(cfg, h, attn_out, b, t, side, i);
    assert(shape_of(mid, inp) == Some(states(cfg, b, t)));
    lemma_feedforward(cfg, sizes, mid, b, t, side, i, inp);
}

proof fn lemma_feedforward(
    cfg: &KalmConfig,
    sizes: Sizes,
    h: Term,
    b: i32,
    t: i32,
    side: Side,
    i: usize,
    inp: spec_fn(Kind) -> Option<Seq<int>>,
)
    requires
        holds_weights(inp, cfg, sizes),
        shape_of(h, inp) == Some(states(cfg, b, t)),
    ensures
        shape_of(feedforward_term(h, side, i), inp) == Some(states(cfg, b, t)),
{
    let lead = seq![b as int, t as int];
    let hh = cfg.h as int;
    let inner = sizes.inner(side);
    assert(lead.push(hh) =~= states(cfg, b, t));
    lemma_norm(h, side, Slot::Layer(i, Part::PreFeedforwardNorm), inp, lead, hh);
    let x = norm_term(h, side, Slot::Layer(i, Part::PreFeedforwardNorm));
    lemma_times(x, side, i, Part::GateProj, inp, lead, hh, inner);
    lemma_times(x, side, i, Part::UpProj, inp, lead, hh, inner);
    let g = times_term(x, side, i, Part::GateProj);
    lemma_gelu(g, inp, lead.push(inner));
    let up = times_term(x, side, i, Part::UpProj);
    lemma_stretched_same(lead.push(inner));
    let act = binary(Kind::Multiply, gelu_term(g), up);
    assert(shape_of(act, inp) == Some(lead.push(inner)));
    lemma_times(act, side, i, Part::DownProj, inp, lead, inner, hh);
    let down = times_term(act, side, i, Part::DownProj);
    lemma_norm(down, side, Slot::Layer(i, Part::PostFeedforwardNorm), inp, lead, hh);
    lemma_stretched_same(states(cfg, b, t));
}

proof fn lemma_embedded(
    cfg: &KalmConfig,
    sizes: Sizes,
    ids: Term,
    b: i32,
    t: i32,
    inp: spec_fn(Kind) -> Option<Seq<int>>,
)
    requires
        fits_together(cfg),
        holds_weights(inp, cfg, sizes),
        b > 0,
        t > 0,
        shape_of(ids, inp) == Some(seq![b as int, t as int]),
    ensures
        shape_of(embedded_term(cfg, ids, b, t), inp) == Some(states(cfg, b, t)),
{
    let rows = seq![b as int, t as int];
    let open = seq![-1int];
    assert(extents(Dims::D1(REST)) =~= open);
    assert(known_extents(open) =~= seq![1int]);
    lemma_product(1, 1, 1, 1);
    lemma_product(b as int, t as int, cfg.h as int, 1);
    lemma_reshaped_rest(rows, open, 0, b * t);
    assert(open.update(0, b * t) =~= seq![b * t]);
    let flat = unary(Kind::Reshape(Dims::D1(REST)), ids);
    assert(shape_of(flat, inp) == Some(seq![b * t]));
    let w = seq![sizes.vocab, cfg.h as int];
    assert(shape_of(embedding(), inp) == Some(w));
    assert(w.take(0) + seq![b * t] + w.skip(1) =~= seq![b * t, cfg.h as int]);
    let taken = binary(Kind::Take { axis: 0 }, embedding(), flat);
    assert(shape_of(taken, inp) == Some(seq![b * t, cfg.h as int]));
    assert(extents(Dims::D3(b, t, cfg.h)) =~= states(cfg, b, t));
    lemma_product(b * t, cfg.h as int, 1, 1);
    lemma_reshaped(seq![b * t, cfg.h as int], states(cfg, b, t));
    lemma_stretched_scalar(states(cfg, b, t));
    let h0 = unary(Kind::Reshape(Dims::D3(b, t, cfg.h)), taken);
    assert(shape_of(h0, inp) == Some(states(cfg, b, t)));
    let scale = unary(Kind::Cast(Ty::Bf16), leaf(Kind::Const(Num::EmbScale)));
    assert(shape_of(scale, inp) == Some(Seq::<int>::empty()));
}

proof fn lemma_hide_zeros(flags: Term, inp: spec_fn(Kind) -> Option<Seq<int>>, s: Seq<int>)
    requires
        shape_of(flags, inp) == Some(s),
    ensures
        shape_of(hide_zeros_term(flags), inp) == Some(s),
{
    lemma_stretched_scalar(s);
    lemma_stretched_scalar(seq![]);
    assert(shape_of(binary(Kind::Equal, flags, literal(0, 0)), inp) == Some(s));
}

proof fn lemma_encoder_layer(
    cfg: &KalmConfig,
    sizes: Sizes,
    h: Term,
    kp: Term,
    i: usize,
    b: i32,
    t: i32,
    inp: spec_fn(Kind) -> Option<Seq<int>>,
)
    requires
        fits_together(cfg),
        holds_weights(inp, cfg, sizes),
        b > 0,
        t > 0,
        shape_of(h, inp) == Some(states(cfg, b, t)),
        shape_of(kp, inp) == Some(seq![b as int, 1int, 1int, t as int]),
    ensures
        shape_of(encoder_layer_term(cfg, h, kp, i, b, t), inp) == Some(states(cfg, b, t)),
{
    let side = Side::Encoder;
    let lead = seq![b as int, t as int];
    assert(lead.push(cfg.h as int) =~= states(cfg, b, t));
    lemma_norm(h, side, Slot::Layer(i, Part::PreSelfAttnNorm), inp, lead, cfg.h as int);
    let x = norm_term(h, side, Slot::Layer(i, Part::PreSelfAttnNorm));
    lemma_turned(cfg, sizes, x, side, i, Part::QProj, Part::QNorm, cfg.nh, b, t, inp);
    lemma_turned(cfg, sizes, x, side, i, Part::KProj, Part::KNorm, cfg.nkv, b, t, inp);
    lemma_prj(cfg, x, side, i, Part::VProj, cfg.nkv, b, t, inp);
    let q = turned_term(cfg, x, side, i, Part::QProj, Part::QNorm, cfg.nh, b, t);
    let k = turned_term(cfg, x, side, i, Part::KProj, Part::KNorm, cfg.nkv, b, t);
    let v = prj_term(cfg, x, side, i, Part::VProj, cfg.nkv, b, t);
    lemma_repeat_kv(cfg, k, b, t as int, inp);
    lemma_repeat_kv(cfg, v, b, t as int, inp);
    let o = quaternary(
        Kind::Attention(Num::AttnScale),
        q,
        repeat_kv_term(cfg, k),
        repeat_kv_term(cfg, v),
        kp,
    );
    lemma_attended(q, repeat_kv_term(cfg, k), repeat_kv_term(cfg, v), kp, inp, b, cfg, t, t as int);
    lemma_block_tail(cfg, sizes, h, o, b, t, side, i, inp);
}

/// Attention of as many query heads as key heads.
proof fn lemma_attended(
    q: Term,
    k: Term,
    v: Term,
    m: Term,
    inp: spec_fn(Kind) -> Option<Seq<int>>,
    b: i32,
    cfg: &KalmConfig,
    t: i32,
    u: int,
)
    requires
        cfg.nh > 0,
        shape_of(q, inp) == Some(heads(b, cfg.nh, t, cfg.hd)),
        shape_of(k, inp) == Some(seq![b as int, cfg.nh as int, u, cfg.hd as int]),
        shape_of(v, inp) == Some(seq![b as int, cfg.nh as int, u, cfg.hd as int]),
        shape_of(m, inp) == Some(seq![b as int, 1int, 1int, u]) || shape_of(m, inp) == Some(
            seq![b as int, 1int, t as int, u],
        ),
    ensures
        shape_of(quaternary(Kind::Attention(Num::AttnScale), q, k, v, m), inp) == Some(
            heads(b, cfg.nh, t, cfg.hd),
        ),
{
    let all = seq![b as int, cfg.nh as int, t as int, u];
    lemma_stretched_into(all, shape_of(m, inp)->0);
    assert(cfg.nh as int % cfg.nh as int == 0) by (nonlinear_arith)
        requires
            cfg.nh > 0,
    ;
}

proof fn lemma_encoder_layers(
    cfg: &KalmConfig,
    sizes: Sizes,
    h: Term,
    kp: Term,
    n: nat,
    b: i32,
    t: i32,
    inp: spec_fn(Kind) -> Option<Seq<int>>,
)
    requires
        fits_together(cfg),
        holds_weights(inp, cfg, sizes),
        b > 0,
        t > 0,
        shape_of(h, inp) == Some(states(cfg, b, t)),
        shape_of(kp, inp) == Some(seq![b as int, 1int, 1int, t as int]),
    ensures
        shape_of(encoder_layers_term(cfg, h, kp, n, b, t), inp) == Some(states(cfg, b, t)),
    decreases n,
{
    if n > 0 {
        lemma_encoder_layers(cfg, sizes, h, kp, (n - 1) as nat, b, t, inp);
        lemma_encoder_layer(
            cfg,
            sizes,
            encoder_layers_term(cfg, h, kp, (n - 1) as nat, b, t),
            kp,
            (n - 1) as usize,
            b,
            t,
            inp,
        );
    }
}

proof fn lemma_encoder_states(
    cfg: &KalmConfig,
    sizes: Sizes,
    ids: Term,
    am: Term,
    b: i32,
    t: i32,
    inp: spec_fn(Kind) -> Option<Seq<int>>,
)
    requires
        fits_together(cfg),
        holds_weights(inp, cfg, sizes),
        b > 0,
        t > 0,
        shape_of(ids, inp) == Some(seq![b as int, t as int]),
        shape_of(am, inp) == Some(seq![b as int, t as int]),
    ensures
        shape_of(encoder_states_term(cfg, ids, am, b, t), inp) == Some(states(cfg, b, t)),
{
    let four = seq![b as int, 1int, 1int, t as int];
    assert(extents(Dims::D4(b, 1, 1, t)) =~= four);
    lemma_product(b as int, t as int, 1, 1);
    lemma_product(b as int, 1, 1, t as int);
    assert(b * 1 * 1 * t == b * t) by (nonlinear_arith);
    lemma_reshaped(seq![b as int, t as int], four);
    let am4 = unary(Kind::Reshape(Dims::D4(b, 1, 1, t)), am);
    assert(shape_of(am4, inp) == Some(four));
    lemma_hide_zeros(am4, inp, four);
    let kp = unary(Kind::Cast(Ty::Bf16), hide_zeros_term(am4));
    assert(shape_of(kp, inp) == Some(four));
    lemma_embedded(cfg, sizes, ids, b, t, inp);
    let h0 = embedded_term(cfg, ids, b, t);
    lemma_encoder_layers(cfg, sizes, h0, kp, cfg.enl as nat, b, t, inp);
    let h = encoder_layers_term(cfg, h0, kp, cfg.enl as nat, b, t);
    let lead = seq![b as int, t as int];
    assert(lead.push(cfg.h as int) =~= states(cfg, b, t));
    lemma_norm(h, Side::Encoder, Slot::FinalNorm, inp, lead, cfg.h as int);
}

proof fn lemma_filled(
    x: Term,
    missing: int,
    zeros: Dims,
    inp: spec_fn(Kind) -> Option<Seq<int>>,
    s: Seq<int>,
)
    requires
        missing >= 0,
        s.len() >= 2,
        shape_of(x, inp) == Some(s),
        extents(zeros) == s.update(1, missing),
        forall|i: int| 0 <= i < s.len() ==> 0 <= #[trigger] s[i],
    ensures
        shape_of(filled_term(x, missing, zeros), inp) == Some(s.update(1, s[1] + missing)),
{
    if missing > 0 {
        let z = unary(Kind::ZerosLike(zeros), x);
        let e = extents(zeros);
        assert forall|i: int| 0 <= i < e.len() implies 0 <= #[trigger] e[i] by {
            assert(0 <= s[i]);
        }
        assert(shape_of(z, inp) == Some(e));
        lemma_concat(1, x, z, inp, s.update(1, s[1] + missing));
    } else {
        assert(s.update(1, s[1] + missing) =~= s);
    }
}

/// The last chunk is filled with fewer positions than a chunk has, and together
/// the chunks hold the tokens and those positions.
pub proof fn law_chunks_cover_the_tokens(t: int)
    requires
        t >= 0,
    ensures
        0 <= chunk_pad(t) < CHUNK,
        chunk_count(t) * CHUNK == t + chunk_pad(t),
        t <= i32::MAX ==> chunk_count(t) <= i32::MAX,
        t > 0 ==> chunk_count(t) > 0,
{
}

proof fn lemma_chunk_mask(
    am: Term,
    b: i32,
    t: i32,
    inp: spec_fn(Kind) -> Option<Seq<int>>,
)
    requires
        b > 0,
        t > 0,
        shape_of(am, inp) == Some(seq![b as int, t as int]),
    ensures
        shape_of(chunk_mask_term(am, b, t), inp) == Some(
            seq![b as int, chunk_count(t as int), CHUNK as int, 1int],
        ),
{
    law_chunks_cover_the_tokens(t as int);
    let n = chunk_count(t as int) as i32;
    let pad = chunk_pad(t as int) as i32;
    let rows = seq![b as int, t as int];
    assert(extents(Dims::D2(b, pad)) =~= rows.update(1, pad as int));
    lemma_filled(am, pad as int, Dims::D2(b, pad), inp, rows);
    let full = seq![b as int, t + pad];
    assert(rows.update(1, t + pad) =~= full);
    let filled = filled_term(am, chunk_pad(t as int), Dims::D2(b, pad));
    assert(shape_of(filled, inp) == Some(full));
    let four = seq![b as int, n as int, CHUNK as int, 1int];
    assert(extents(Dims::D4(b, n, CHUNK, 1)) =~= four);
    lemma_product(b as int, t + pad, 1, 1);
    lemma_product(b as int, n as int, CHUNK as int, 1);
    let (bb, nn) = (b as int, n as int);
    assert(bb * nn * 4 * 1 == bb * (nn * 4)) by (nonlinear_arith);
    lemma_reshaped(full, four);
}

proof fn lemma_pooled(
    cfg: &KalmConfig,
    h: Term,
    am: Term,
    b: i32,
    t: i32,
    inp: spec_fn(Kind) -> Option<Seq<int>>,
)
    requires
        fits_together(cfg),
        b > 0,
        t > 0,
        shape_of(h, inp) == Some(states(cfg, b, t)),
        shape_of(am, inp) == Some(seq![b as int, t as int]),
    ensures
        shape_of(pooled_term(cfg, h, am, b, t), inp) == Some(
            seq![b as int, chunk_count(t as int), cfg.h as int],
        ),
{
    law_chunks_cover_the_tokens(t as int);
    let n = chunk_count(t as int) as i32;
    let pad = chunk_pad(t as int) as i32;
    let hh = cfg.h as int;
    lemma_chunk_mask(am, b, t, inp);
    let m = chunk_mask_term(am, b, t);
    let zeros = Dims::D3(b, pad, cfg.h);
    assert(extents(zeros) =~= states(cfg, b, t).update(1, pad as int));
    lemma_filled(h, pad as int, zeros, inp, states(cfg, b, t));
    let full = seq![b as int, t + pad, hh];
    assert(states(cfg, b, t).update(1, t + pad) =~= full);
    let filled = filled_term(h, chunk_pad(t as int), zeros);
    let four = seq![b as int, n as int, CHUNK as int, hh];
    assert(extents(Dims::D4(b, n, CHUNK, cfg.h)) =~= four);
    lemma_product(b as int, t + pad, hh, 1);
    lemma_product(b as int, n as int, CHUNK as int, hh);
    let (bb, nn) = (b as int, n as int);
    assert(bb * nn * 4 * hh == bb * (nn * 4) * hh) by (nonlinear_arith);
    lemma_reshaped(full, four);
    let grouped = unary(Kind::Reshape(Dims::D4(b, n, CHUNK, cfg.h)), filled);
    assert(shape_of(grouped, inp) == Some(four));
    let ones = seq![b as int, n as int, CHUNK as int, 1int];
    lemma_stretched_into(four, ones);
    let kept = binary(Kind::Multiply, unary(Kind::Cast(Ty::F32), grouped), m);
    assert(shape_of(kept, inp) == Some(four));
    let out = seq![b as int, n as int, hh];
    assert(four.remove(2) =~= out);
    let num = unary(Kind::Sum { axis: 2, keep: false }, kept);
    assert(shape_of(num, inp) == Some(out));
    let column = seq![b as int, n as int, 1int];
    assert(ones.remove(2) =~= column);
    lemma_stretched_scalar(column);
    let den = binary(
        Kind::Maximum,
        unary(Kind::Sum { axis: 2, keep: false }, m),
        literal(1, 0),
    );
    assert(shape_of(den, inp) == Some(column));
    lemma_stretched_into(out, column);
}

proof fn lemma_pooled_mask(
    am: Term,
    b: i32,
    t: i32,
    inp: spec_fn(Kind) -> Option<Seq<int>>,
)
    requires
        b > 0,
        t > 0,
        shape_of(am, inp) == Some(seq![b as int, t as int]),
    ensures
        shape_of(pooled_mask_term(am, b, t), inp) == Some(seq![b as int, chunk_count(t as int)]),
{
    law_chunks_cover_the_tokens(t as int);
    let n = chunk_count(t as int) as i32;
    lemma_chunk_mask(am, b, t, inp);
    let m = chunk_mask_term(am, b, t);
    let three = seq![b as int, n as int, CHUNK as int];
    assert(extents(Dims::D3(b, n, CHUNK)) =~= three);
    lemma_product(b as int, n as int, CHUNK as int, 1);
    lemma_reshaped(seq![b as int, n as int, CHUNK as int, 1int], three);
    let flat = unary(Kind::Reshape(Dims::D3(b, n, CHUNK)), m);
    assert(shape_of(flat, inp) == Some(three));
    let two = seq![b as int, n as int];
    assert(three.remove(2) =~= two);
    let count = unary(Kind::Sum { axis: 2, keep: false }, flat);
    assert(shape_of(count, inp) == Some(two));
    lemma_stretched_scalar(two);
    assert(shape_of(binary(Kind::Greater, count, literal(0, 0)), inp) == Some(two));
}

/// The encoder turns batch `k` of `b` rows of `t` tokens into one vector for every
/// chunk of every row, and one mask value for each vector; every operation on the
/// way accepts the arrays that it is applied to.
pub proof fn law_encoder_pools_every_chunk(
    cfg: &KalmConfig,
    sizes: Sizes,
    dims: Seq<(i32, i32)>,
    td: i32,
    k: usize,
)
    requires
        fits_together(cfg),
        k < dims.len(),
        dims[k as int].0 > 0,
        dims[k as int].1 > 0,
    ensures
        ({
            let (b, t) = dims[k as int];
            let inp = inputs(cfg, sizes, dims, td);
            &&& shape_of(pool_term(cfg, k, b, t), inp) == Some(
                seq![b as int, chunk_count(t as int), cfg.h as int],
            )
            &&& shape_of(pool_mask_term(k, b, t), inp) == Some(
                seq![b as int, chunk_count(t as int)],
            )
        }),
{
    let (b, t) = dims[k as int];
    let inp = inputs(cfg, sizes, dims, td);
    lemma_inputs(cfg, sizes, dims, td);
    let ids = leaf(Kind::Ids(k));
    let am = leaf(Kind::Mask(k));
    assert(shape_of(ids, inp) == Some(seq![b as int, t as int]));
    assert(shape_of(am, inp) == Some(seq![b as int, t as int]));
    lemma_encoder_states(cfg, sizes, ids, am, b, t, inp);
    lemma_pooled(cfg, encoder_states_term(cfg, ids, am, b, t), am, b, t, inp);
    lemma_pooled_mask(am, b, t, inp);
}

proof fn lemma_decoder_layer(
    cfg: &KalmConfig,
    sizes: Sizes,
    h: Term,
    pooled: Term,
    mm: Term,
    i: usize,
    b: i32,
    td: i32,
    ne: i32,
    inp: spec_fn(Kind) -> Option<Seq<int>>,
)
    requires
        fits_together(cfg),
        holds_weights(inp, cfg, sizes),
        b > 0,
        td > 0,
        ne > 0,
        shape_of(h, inp) == Some(states(cfg, b, td)),
        shape_of(pooled, inp) == Some(states(cfg, b, ne)),
        shape_of(mm, inp) == Some(seq![b as int, 1int, td as int, td + ne]),
    ensures
        shape_of(decoder_layer_term(cfg, h, pooled, mm, i, b, td, ne), inp) == Some(
            states(cfg, b, td),
        ),
{
    let side = Side::Decoder;
    let lead = seq![b as int, td as int];
    assert(lead.push(cfg.h as int) =~= states(cfg, b, td));
    lemma_norm(h, side, Slot::Layer(i, Part::PreSelfAttnNorm), inp, lead, cfg.h as int);
    let x = norm_term(h, side, Slot::Layer(i, Part::PreSelfAttnNorm));
    lemma_turned(cfg, sizes, x, side, i, Part::QProj, Part::QNorm, cfg.nh, b, td, inp);
    lemma_turned(cfg, sizes, x, side, i, Part::KProj, Part::KNorm, cfg.nkv, b, td, inp);
    lemma_prj(cfg, x, side, i, Part::VProj, cfg.nkv, b, td, inp);
    lemma_prj(cfg, pooled, side, i, Part::KProj, cfg.nkv, b, ne, inp);
    lemma_prj(cfg, pooled, side, i, Part::VProj, cfg.nkv, b, ne, inp);
    let q = turned_term(cfg, x, side, i, Part::QProj, Part::QNorm, cfg.nh, b, td);
    let sk = turned_term(cfg, x, side, i, Part::KProj, Part::KNorm, cfg.nkv, b, td);
    let sv = prj_term(cfg, x, side, i, Part::VProj, cfg.nkv, b, td);
    let ck0 = prj_term(cfg, pooled, side, i, Part::KProj, cfg.nkv, b, ne);
    let cv = prj_term(cfg, pooled, side, i, Part::VProj, cfg.nkv, b, ne);
    let cross = seq![b as int, cfg.nkv as int, ne as int];
    assert(cross.push(cfg.hd as int) =~= heads(b, cfg.nkv, ne, cfg.hd));
    lemma_norm(ck0, side, Slot::Layer(i, Part::KNorm), inp, cross, cfg.hd as int);
    let ck = norm_term(ck0, side, Slot::Layer(i, Part::KNorm));
    let both = seq![b as int, 1int, td + ne, cfg.hd as int];
    lemma_concat(2, sk, ck, inp, both);
    lemma_concat(2, sv, cv, inp, both);
    let key = binary(Kind::Concat { axis: 2 }, sk, ck);
    let val = binary(Kind::Concat { axis: 2 }, sv, cv);
    lemma_repeat_kv(cfg, key, b, td + ne, inp);
    lemma_repeat_kv(cfg, val, b, td + ne, inp);
    let kr = repeat_kv_term(cfg, key);
    let vr = repeat_kv_term(cfg, val);
    lemma_attended(q, kr, vr, mm, inp, b, cfg, td, td + ne);
    let o = quaternary(Kind::Attention(Num::AttnScale), q, kr, vr, mm);
    lemma_block_tail(cfg, sizes, h, o, b, td, side, i, inp);
}

proof fn lemma_decoder_layers(
    cfg: &KalmConfig,
    sizes: Sizes,
    h: Term,
    pooled: Term,
    mm: Term,
    n: nat,
    b: i32,
    td: i32,
    ne: i32,
    inp: spec_fn(Kind) -> Option<Seq<int>>,
)
    requires
        fits_together(cfg),
        holds_weights(inp, cfg, sizes),
        b > 0,
        td > 0,
        ne > 0,
        shape_of(h, inp) == Some(states(cfg, b, td)),
        shape_of(pooled, inp) == Some(states(cfg, b, ne)),
        shape_of(mm, inp) == Some(seq![b as int, 1int, td as int, td + ne]),
    ensures
        shape_of(decoder_layers_term(cfg, h, pooled, mm, n, b, td, ne), inp) == Some(
            states(cfg, b, td),
        ),
    decreases n,
{
    if n > 0 {
        lemma_decoder_layers(cfg, sizes, h, pooled, mm, (n - 1) as nat, b, td, ne, inp);
        lemma_decoder_layer(
            cfg,
            sizes,
            decoder_layers_term(cfg, h, pooled, mm, (n - 1) as nat, b, td, ne),
            pooled,
            mm,
            (n - 1) as usize,
            b,
            td,
            ne,
            inp,
        );
    }
}

/// The extents of the decoder's states of `b` prompts.
proof fn lemma_decode(
    cfg: &KalmConfig,
    sizes: Sizes,
    dids: Term,
    pooled: Term,
    mm: Term,
    b: i32,
    td: i32,
    ne: i32,
    inp: spec_fn(Kind) -> Option<Seq<int>>,
)
    requires
        fits_together(cfg),
        holds_weights(inp, cfg, sizes),
        b > 0,
        td > 0,
        ne > 0,
        shape_of(dids, inp) == Some(seq![b as int, td as int]),
        shape_of(pooled, inp) == Some(states(cfg, b, ne)),
        shape_of(mm, inp) == Some(seq![b as int, 1int, td as int, td + ne]),
    ensures
        shape_of(decode_term(cfg, dids, pooled, mm, b, td, ne), inp) == Some(states(cfg, b, td)),
{
    lemma_embedded(cfg, sizes, dids, b, td, inp);
    let h0 = embedded_term(cfg, dids, b, td);
    lemma_decoder_layers(cfg, sizes, h0, pooled, mm, cfg.dnl as nat, b, td, ne, inp);
    let h = decoder_layers_term(cfg, h0, pooled, mm, cfg.dnl as nat, b, td, ne);
    let lead = seq![b as int, td as int];
    assert(lead.push(cfg.h as int) =~= states(cfg, b, td));
    lemma_norm(h, Side::Decoder, Slot::FinalNorm, inp, lead, cfg.h as int);
}

/// The rows of all batches.
pub open spec fn total_rows(dims: Seq<(i32, i32)>) -> int
    decreases dims.len(),
{
    if dims.len() == 0 {
        0
    } else {
        total_rows(dims.drop_last()) + dims.last().0
    }
}

/// Whether every batch has rows.
pub open spec fn have_rows(dims: Seq<(i32, i32)>) -> bool {
    forall|k: int| 0 <= k < dims.len() ==> 0 < (#[trigger] dims[k]).0
}

/// The extents of every batch's rows, each of the same extents.
spec fn row_parts(dims: Seq<(i32, i32)>, row: Seq<int>) -> Seq<Seq<int>> {
    Seq::new(dims.len(), |k: int| seq![dims[k].0 as int] + row)
}

proof fn lemma_joined_rows(dims: Seq<(i32, i32)>, row: Seq<int>)
    requires
        dims.len() > 0,
    ensures
        joined(row_parts(dims, row), 0) == Some(seq![total_rows(dims)] + row),
    decreases dims.len(),
{
    reveal(joined);
    let parts = row_parts(dims, row);
    let rest = dims.drop_last();
    assert(parts.last() == seq![dims.last().0 as int] + row);
    if dims.len() == 1 {
        assert(total_rows(rest) == 0);
        assert(parts[0] =~= seq![total_rows(dims)] + row);
    } else {
        lemma_joined_rows(rest, row);
        assert(parts.drop_last() =~= row_parts(rest, row));
        let before = seq![total_rows(rest)] + row;
        let last = parts.last();
        assert(before.update(0, 0) =~= last.update(0, 0));
        assert(before.update(0, before[0] + last[0]) =~= seq![total_rows(dims)] + row);
    }
}

/// The pooled states of one batch, filled up to the chunks of the longest.
proof fn lemma_even_batch(
    cfg: &KalmConfig,
    sizes: Sizes,
    dims: Seq<(i32, i32)>,
    td: i32,
    k: int,
)
    requires
        fits_together(cfg),
        dims.len() <= usize::MAX,
        have_rows(dims),
        widths_are_read(dims),
        0 <= k < dims.len(),
    ensures
        ({
            let inp = inputs(cfg, sizes, dims, td);
            let ne = max_chunks(dims);
            &&& shape_of(even_pool_term(cfg, dims, k), inp) == Some(
                seq![dims[k].0 as int] + seq![ne, cfg.h as int],
            )
            &&& shape_of(even_mask_term(dims, k), inp) == Some(seq![dims[k].0 as int] + seq![ne])
        }),
{
    let inp = inputs(cfg, sizes, dims, td);
    let ne = max_chunks(dims);
    lemma_max_chunks(dims);
    let (b, w) = dims[k];
    assert(0 < dims[k].0 && 1 <= dims[k].1 <= MAX_LEN);
    law_encoder_pools_every_chunk(cfg, sizes, dims, td, k as usize);
    let c = chunk_count(w as int);
    let d = ne - c;
    let s = seq![b as int, c, cfg.h as int];
    assert(extents(Dims::D3(b, d as i32, cfg.h)) =~= s.update(1, d));
    lemma_filled(pool_term(cfg, k as usize, b, w), d, Dims::D3(b, d as i32, cfg.h), inp, s);
    assert(s.update(1, c + d) =~= seq![b as int] + seq![ne, cfg.h as int]);
    let m = seq![b as int, c];
    assert(extents(Dims::D2(b, d as i32)) =~= m.update(1, d));
    lemma_filled(pool_mask_term(k as usize, b, w), d, Dims::D2(b, d as i32), inp, m);
    assert(m.update(1, c + d) =~= seq![b as int] + seq![ne]);
}

proof fn lemma_all_pools(
    cfg: &KalmConfig,
    sizes: Sizes,
    dims: Seq<(i32, i32)>,
    td: i32,
)
    requires
        fits_together(cfg),
        dims.len() > 0,
        dims.len() <= usize::MAX,
        have_rows(dims),
        widths_are_read(dims),
    ensures
        max_chunks(dims) > 0,
        shape_of(all_pools_term(cfg, dims), inputs(cfg, sizes, dims, td)) == Some(
            seq![total_rows(dims), max_chunks(dims), cfg.h as int],
        ),
        shape_of(all_masks_term(dims), inputs(cfg, sizes, dims, td)) == Some(
            seq![total_rows(dims), max_chunks(dims)],
        ),
{
    let inp = inputs(cfg, sizes, dims, td);
    let ne = max_chunks(dims);
    lemma_max_chunks(dims);
    assert(1 <= dims[0].1);
    assert(chunk_count(dims[0].1 as int) > 0);
    let row = seq![ne, cfg.h as int];
    let flags = seq![ne];
    let pools = Seq::new(dims.len(), |k: int| even_pool_term(cfg, dims, k));
    let masks = Seq::new(dims.len(), |k: int| even_mask_term(dims, k));
    assert forall|k: int| 0 <= k < dims.len() implies shape_of(#[trigger] pools[k], inp) == Some(
        row_parts(dims, row)[k],
    ) && shape_of(masks[k], inp) == Some(row_parts(dims, flags)[k]) by {
        lemma_even_batch(cfg, sizes, dims, td, k);
    }
    assert forall|k: int| 0 <= k < dims.len() implies shape_of(#[trigger] masks[k], inp) == Some(
        row_parts(dims, flags)[k],
    ) by {
        assert(shape_of(pools[k], inp) == Some(row_parts(dims, row)[k]));
    }
    lemma_concat_all(0, pools, inp, row_parts(dims, row));
    lemma_concat_all(0, masks, inp, row_parts(dims, flags));
    lemma_joined_rows(dims, row);
    lemma_joined_rows(dims, flags);
    assert(seq![total_rows(dims)] + row =~= seq![total_rows(dims), ne, cfg.h as int]);
    assert(seq![total_rows(dims)] + flags =~= seq![total_rows(dims), ne]);
}

proof fn lemma_merged_mask(
    pmask: Term,
    n: i32,
    td: i32,
    ne: i32,
    inp: spec_fn(Kind) -> Option<Seq<int>>,
)
    requires
        n > 0,
        td > 0,
        ne > 0,
        shape_of(pmask, inp) == Some(seq![n as int, ne as int]),
    ensures
        shape_of(merged_mask_term(pmask, n, td, ne), inp) == Some(
            seq![n as int, 1int, td as int, td + ne],
        ),
{
    let square = seq![td as int, td as int];
    let ones = leaf(Kind::Ones(Dims::D2(td, td)));
    assert(extents(Dims::D2(td, td)) =~= square);
    assert(shape_of(ones, inp) == Some(square));
    lemma_stretched_scalar(square);
    lemma_stretched_scalar(seq![]);
    let later = binary(Kind::Greater, unary(Kind::Triu(1), ones), literal(0, 0));
    assert(shape_of(later, inp) == Some(square));
    let hidden = ternary(Kind::Which, later, literal(-1, 30), literal(0, 0));
    assert(shape_of(hidden, inp) == Some(square));
    let four = seq![1int, 1int, td as int, td as int];
    assert(extents(Dims::D4(1, 1, td, td)) =~= four);
    lemma_product(td as int, td as int, 1, 1);
    lemma_product(1, 1, td as int, td as int);
    assert(1 * 1 * td * td == td * td) by (nonlinear_arith);
    lemma_reshaped(square, four);
    let shaped = unary(Kind::Reshape(Dims::D4(1, 1, td, td)), hidden);
    assert(shape_of(shaped, inp) == Some(four));
    let own = seq![n as int, 1int, td as int, td as int];
    assert(extents(Dims::D4(n, 1, td, td)) =~= own);
    lemma_stretched_into(own, four);
    assert(shape_of(causal_term(n, td), inp) == Some(own));

    let flags = seq![n as int, 1int, 1int, ne as int];
    assert(extents(Dims::D4(n, 1, 1, ne)) =~= flags);
    lemma_product(n as int, ne as int, 1, 1);
    lemma_product(n as int, 1, 1, ne as int);
    assert(n * 1 * 1 * ne == n * ne) by (nonlinear_arith);
    lemma_reshaped(seq![n as int, ne as int], flags);
    let pm4 = unary(Kind::Reshape(Dims::D4(n, 1, 1, ne)), pmask);
    assert(shape_of(pm4, inp) == Some(flags));
    lemma_hide_zeros(pm4, inp, flags);
    let passage = seq![n as int, 1int, td as int, ne as int];
    assert(extents(Dims::D4(n, 1, td, ne)) =~= passage);
    lemma_stretched_into(passage, flags);
    assert(shape_of(cross_term(pmask, n, td, ne), inp) == Some(passage));
    lemma_concat(
        -1i32,
        causal_term(n, td),
        cross_term(pmask, n, td, ne),
        inp,
        seq![n as int, 1int, td as int, td + ne],
    );
}

proof fn lemma_answer(
    cfg: &KalmConfig,
    sizes: Sizes,
    h: Term,
    n: i32,
    td: i32,
    yes: i32,
    no: i32,
    inp: spec_fn(Kind) -> Option<Seq<int>>,
)
    requires
        fits_together(cfg),
        holds_weights(inp, cfg, sizes),
        n > 0,
        td > 0,
        shape_of(h, inp) == Some(states(cfg, n, td)),
    ensures
        shape_of(answer_term(cfg, h, n, td, yes, no), inp) == Some(seq![n as int]),
{
    let hh = cfg.h as int;
    let all = states(cfg, n, td);
    let row = seq![n as int, hh];
    let at = leaf(Kind::Int(last_position(td)));
    let none = Seq::<int>::empty();
    assert(shape_of(at, inp) == Some(none));
    assert(all.take(1) + none + all.skip(2) =~= row);
    let taken = binary(Kind::Take { axis: 1 }, h, at);
    assert(shape_of(taken, inp) == Some(row));
    assert(extents(Dims::D2(n, cfg.h)) =~= row);
    lemma_reshaped(row, row);
    let last = unary(Kind::Reshape(Dims::D2(n, cfg.h)), taken);
    assert(shape_of(last, inp) == Some(row));
    let e = seq![sizes.vocab, hh];
    assert(shape_of(embedding(), inp) == Some(e));
    assert(e.reverse() =~= seq![hh, sizes.vocab]);
    let et = unary(Kind::Transpose, embedding());
    assert(shape_of(et, inp) == Some(seq![hh, sizes.vocab]));
    let logits = binary(Kind::Matmul, last, et);
    let lv = seq![n as int, sizes.vocab];
    assert(row.drop_last().push(sizes.vocab) =~= lv);
    assert(shape_of(logits, inp) == Some(lv));
    let ids = leaf(Kind::IntPair(yes, no));
    let two = seq![n as int, 2int];
    assert(lv.take(1) + seq![2int] + lv.skip(2) =~= two);
    let pair = binary(Kind::Take { axis: 1 }, logits, ids);
    assert(shape_of(pair, inp) == Some(two));
    let both = unary(Kind::Softmax { axis: 1 }, pair);
    assert(shape_of(both, inp) == Some(two));
    let first = leaf(Kind::Int(0));
    assert(shape_of(first, inp) == Some(none));
    assert(two.take(1) + none + two.skip(2) =~= seq![n as int]);
    let picked = binary(Kind::Take { axis: 1 }, both, first);
    assert(shape_of(picked, inp) == Some(seq![n as int]));
    assert(extents(Dims::D1(n)) =~= seq![n as int]);
    lemma_reshaped(seq![n as int], seq![n as int]);
}

/// The program over encoder batches with `n` rows in all gives `n` scores, and
/// every operation in it accepts the arrays that it is applied to.
pub proof fn law_program_scores_every_document(
    cfg: &KalmConfig,
    sizes: Sizes,
    dims: Seq<(i32, i32)>,
    n: i32,
    td: i32,
    yes: i32,
    no: i32,
)
    requires
        fits_together(cfg),
        0 < dims.len() <= usize::MAX,
        have_rows(dims),
        widths_are_read(dims),
        n == total_rows(dims),
        n > 0,
        td > 0,
    ensures
        shape_of(score_term(cfg, dims, n, td, yes, no), inputs(cfg, sizes, dims, td)) == Some(
            seq![n as int],
        ),
{
    let inp = inputs(cfg, sizes, dims, td);
    let ne = max_chunks(dims) as i32;
    lemma_inputs(cfg, sizes, dims, td);
    lemma_max_chunks(dims);
    lemma_all_pools(cfg, sizes, dims, td);
    let pooled = all_pools_term(cfg, dims);
    assert(seq![total_rows(dims), max_chunks(dims), cfg.h as int] =~= states(cfg, n, ne));
    let pmask = all_masks_term(dims);
    lemma_merged_mask(pmask, n, td, ne, inp);
    let mm = merged_mask_term(pmask, n, td, ne);
    let prompt = leaf(Kind::Prompt);
    let one = seq![1int, td as int];
    assert(shape_of(prompt, inp) == Some(one));
    assert(one.update(0, 1 * n) =~= seq![n as int, td as int]);
    let dids = unary(Kind::Repeat { count: n, axis: 0 }, prompt);
    assert(shape_of(dids, inp) == Some(seq![n as int, td as int]));
    lemma_decode(cfg, sizes, dids, pooled, mm, n, td, ne, inp);
    lemma_answer(
        cfg,
        sizes,
        decode_term(cfg, dids, pooled, mm, n, td, ne),
        n,
        td,
        yes,
        no,
        inp,
    );
}

/// The inverse rotary frequencies of a layer are one for each pair of a head's numbers.
pub proof fn law_inverse_frequencies_fit_a_head(
    side: Side,
    lt: LayerType,
    hd: i32,
    inp: spec_fn(Kind) -> Option<Seq<int>>,
)
    requires
        hd > 0,
        hd as int % 2 == 0,
    ensures
        shape_of(invfreq_term(side, lt, hd), inp) == Some(seq![hd as int / 2]),
{
    let row = seq![hd as int / 2];
    lemma_stretched_scalar(row);
    let steps = leaf(Kind::Arange { stop: hd, step: 2 });
    assert((hd + 2 - 1) / 2int == hd as int / 2);
    assert(shape_of(steps, inp) == Some(row));
    let exponent = binary(Kind::Divide, steps, literal(hd as int, 0));
    assert(shape_of(exponent, inp) == Some(row));
    let base = binary(Kind::Power, leaf(Kind::Const(Num::Theta(side, lt))), exponent);
    assert(shape_of(base, inp) == Some(row));
}

} // verus!
