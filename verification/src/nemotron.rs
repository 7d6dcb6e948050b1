//! The bidirectional Llama cross-encoder: its forward pass as a tensor program.

use crate::graph::{binary, dec, extends, leaf, literal, quaternary, ternary, turn, unary};
use crate::graph::{Dims, Graph, Kind, Num, Part, Slot, Stack, Term, Turn, Ty, WeightKey, REST};
use vstd::prelude::*;

verus! {

/// The width of a hidden state.
pub const HIDDEN: i32 = 2048;

/// The number of transformer layers.
pub const N_LAYERS: usize = 16;

/// The number of attention heads.
pub const N_HEADS: i32 = 32;

/// The number of key and value heads.
pub const N_KV_HEADS: i32 = 8;

/// The width of one head.
pub const HEAD_DIM: i32 = 64;

/// Half of that width: the number of rotary frequencies.
pub const HALF_DIM: i32 = 32;

/// A weight of this model.
pub open spec fn weight(slot: Slot) -> Term {
    leaf(Kind::Weight(WeightKey { stack: Stack::Nemotron, slot }))
}

/// `x @ w.T`.
pub open spec fn linear_term(x: Term, slot: Slot) -> Term {
    binary(Kind::Matmul, x, unary(Kind::Transpose, weight(slot)))
}

/// The small number that keeps a normalisation away from a division by zero.
pub open spec fn rms_eps() -> Num {
    dec(1, -5)
}

/// `x` normalised and scaled by a weight.
pub open spec fn rms_norm_term(x: Term, slot: Slot) -> Term {
    binary(Kind::FastRmsNorm(rms_eps()), x, weight(slot))
}

/// Rotary embedding of `[b, heads, s, HEAD_DIM]`, its leading axes flattened for the call.
pub open spec fn rope_term(x: Term, b: i32, heads: i32, s: i32) -> Term {
    unary(
        Kind::Reshape(Dims::D4(b, heads, s, HEAD_DIM)),
        binary(
            turn(HEAD_DIM),
            unary(Kind::Reshape(Dims::D3(REST, s, HEAD_DIM)), x),
            leaf(Kind::Freqs),
        ),
    )
}

/// `[b, s, heads * HEAD_DIM]` as `[b, heads, s, HEAD_DIM]`.
pub open spec fn split_heads_term(x: Term, b: i32, s: i32, heads: i32) -> Term {
    unary(
        Kind::Permute(Dims::D4(0, 2, 1, 3)),
        unary(Kind::Reshape(Dims::D4(b, s, heads, HEAD_DIM)), x),
    )
}

/// Attention of projected queries, keys and values under an additive mask, its
/// heads side by side again: `[b, s, N_HEADS * HEAD_DIM]`.
pub open spec fn attend_term(q: Term, k: Term, v: Term, mask: Term, b: i32, s: i32) -> Term {
    let attn = quaternary(
        Kind::Attention(dec(125, -3)),
        rope_term(split_heads_term(q, b, s, N_HEADS), b, N_HEADS, s),
        rope_term(split_heads_term(k, b, s, N_KV_HEADS), b, N_KV_HEADS, s),
        split_heads_term(v, b, s, N_KV_HEADS),
        mask,
    );
    unary(
        Kind::Reshape(Dims::D3(b, s, REST)),
        unary(Kind::Permute(Dims::D4(0, 2, 1, 3)), attn),
    )
}

/// The attention half of layer `i`, before the residual addition.
pub open spec fn attention_term(h: Term, mask: Term, i: usize, b: i32, s: i32) -> Term {
    let x = rms_norm_term(h, Slot::Layer(i, Part::InputNorm));
    let attn = attend_term(
        linear_term(x, Slot::Layer(i, Part::QProj)),
        linear_term(x, Slot::Layer(i, Part::KProj)),
        linear_term(x, Slot::Layer(i, Part::VProj)),
        mask,
        b,
        s,
    );
    linear_term(attn, Slot::Layer(i, Part::OProj))
}

/// The gated feed-forward half of layer `i`, before the residual addition.
pub open spec fn mlp_term(h: Term, i: usize) -> Term {
    let x = rms_norm_term(h, Slot::Layer(i, Part::PostAttentionNorm));
    let gate = linear_term(x, Slot::Layer(i, Part::GateProj));
    let up = linear_term(x, Slot::Layer(i, Part::UpProj));
    let act = binary(Kind::Multiply, unary(Kind::Silu, gate), up);
    linear_term(act, Slot::Layer(i, Part::DownProj))
}

/// Layer `i` on the hidden states `h` under the additive mask.
pub open spec fn layer_term(h: Term, mask: Term, i: usize, b: i32, s: i32) -> Term {
    let mid = binary(Kind::Add, h, attention_term(h, mask, i, b, s));
    binary(Kind::Add, mid, mlp_term(mid, i))
}

/// The first `n` layers.
pub open spec fn layers_term(h: Term, mask: Term, n: nat, b: i32, s: i32) -> Term
    decreases n,
{
    if n == 0 {
        h
    } else {
        layer_term(
            layers_term(h, mask, (n - 1) as nat, b, s),
            mask,
            (n - 1) as usize,
            b,
            s,
        )
    }
}

/// The embeddings of the token ids, `[b, s, HIDDEN]`.
pub open spec fn embedded_term(b: i32, s: i32) -> Term {
    unary(
        Kind::Reshape(Dims::D3(b, s, HIDDEN)),
        binary(
            Kind::Take { axis: 0 },
            weight(Slot::Embedding),
            unary(Kind::Reshape(Dims::D1(REST)), leaf(Kind::Ids(0))),
        ),
    )
}

/// The attention mask as 16-bit reals, `[b, s]`.
pub open spec fn keep_term() -> Term {
    unary(Kind::Cast(Ty::F16), leaf(Kind::Mask(0)))
}

/// The additive mask `[b, 1, 1, s]`: zero where a token is kept, a large
/// negative number where it is padding. Nothing in it depends on the position
/// of a query, so every token sees every kept token.
pub open spec fn padding_mask_term(b: i32, s: i32) -> Term {
    let zero = unary(Kind::Cast(Ty::F16), literal(0, 0));
    let neg = unary(Kind::Cast(Ty::F16), literal(-6, 4));
    let is_pad = binary(
        Kind::Equal,
        unary(Kind::Reshape(Dims::D4(b, 1, 1, s)), keep_term()),
        zero,
    );
    unary(Kind::Cast(Ty::F16), ternary(Kind::Which, is_pad, neg, zero))
}

/// The mean of `h` over the kept tokens, `[b, HIDDEN]`.
pub open spec fn mean_pool_term(h: Term, b: i32, s: i32) -> Term {
    let keep = unary(Kind::Reshape(Dims::D3(b, s, 1)), keep_term());
    binary(
        Kind::Divide,
        unary(Kind::Sum { axis: 1, keep: false }, binary(Kind::Multiply, h, keep)),
        unary(Kind::Sum { axis: 1, keep: false }, keep),
    )
}

/// The relevance scores `[b]` of a padded batch `[b, s]`.
pub open spec fn forward_term(b: i32, s: i32) -> Term {
    let h = layers_term(embedded_term(b, s), padding_mask_term(b, s), N_LAYERS as nat, b, s);
    let pooled = mean_pool_term(rms_norm_term(h, Slot::FinalNorm), b, s);
    unary(Kind::Reshape(Dims::D1(b)), linear_term(pooled, Slot::ScoreHead))
}

/// The unscaled rotary wavelengths: the base to the powers `2 i / HEAD_DIM`.
pub open spec fn base_freqs_term() -> Term {
    binary(
        Kind::Power,
        literal(500000, 0),
        binary(
            Kind::Multiply,
            leaf(Kind::Arange { stop: HALF_DIM, step: 1 }),
            literal(3125, -5),
        ),
    )
}

/// The rotary frequencies with the three-band scaling: long wavelengths are
/// stretched by the factor, short ones are kept, those between are interpolated.
pub open spec fn llama3_freqs_term() -> Term {
    let base = base_freqs_term();
    let wavelens = binary(Kind::Multiply, base, leaf(Kind::Const(Num::TwoPi)));
    let is_low = binary(Kind::Greater, wavelens, literal(8192, 0));
    let stretched = ternary(
        Kind::Which,
        is_low,
        binary(Kind::Multiply, base, literal(32, 0)),
        base,
    );
    let is_medium = binary(
        Kind::And,
        binary(Kind::Greater, wavelens, literal(2048, 0)),
        binary(Kind::Less, wavelens, literal(8192, 0)),
    );
    let smooth = binary(
        Kind::Divide,
        binary(
            Kind::Subtract,
            binary(Kind::Multiply, unary(Kind::Reciprocal, wavelens), literal(8192, 0)),
            literal(1, 0),
        ),
        literal(3, 0),
    );
    let denom = binary(
        Kind::Add,
        binary(Kind::Divide, binary(Kind::Subtract, literal(1, 0), smooth), literal(32, 0)),
        smooth,
    );
    ternary(Kind::Which, is_medium, binary(Kind::Divide, stretched, denom), stretched)
}

/// Builds the program of the scaled rotary frequencies; the second part of the
/// result is the position of its value.
pub fn llama3_freqs() -> (r: (Graph, usize))
    ensures
        r.0.wf(),
        r.1 < r.0@.len(),
        r.0@[r.1 as int] == llama3_freqs_term(),
{
    let mut g = Graph::new();
    let theta = g.number(500000, 0);
    let indices = g.op0(Kind::Arange { stop: HALF_DIM, step: 1 });
    let per_dim = g.number(3125, -5);
    let exponents = g.op2(Kind::Multiply, indices, per_dim);
    let freqs = g.op2(Kind::Power, theta, exponents);
    let two_pi = g.op0(Kind::Const(Num::TwoPi));
    let wavelens = g.op2(Kind::Multiply, freqs, two_pi);
    assert(g@[wavelens as int] == binary(
        Kind::Multiply,
        base_freqs_term(),
        leaf(Kind::Const(Num::TwoPi)),
    ));
    let low_wavelen = g.number(8192, 0);
    let is_low = g.op2(Kind::Greater, wavelens, low_wavelen);
    let factor = g.number(32, 0);
    let scaled = g.op2(Kind::Multiply, freqs, factor);
    let stretched = g.op3(Kind::Which, is_low, scaled, freqs);
    let high_wavelen = g.number(2048, 0);
    let above_high = g.op2(Kind::Greater, wavelens, high_wavelen);
    let below_low = g.op2(Kind::Less, wavelens, low_wavelen);
    let is_medium = g.op2(Kind::And, above_high, below_low);
    let inverse = g.op1(Kind::Reciprocal, wavelens);
    let periods = g.op2(Kind::Multiply, inverse, low_wavelen);
    let one = g.number(1, 0);
    let above_one = g.op2(Kind::Subtract, periods, one);
    let band = g.number(3, 0);
    let smooth = g.op2(Kind::Divide, above_one, band);
    let one_minus = g.op2(Kind::Subtract, one, smooth);
    let shrunk = g.op2(Kind::Divide, one_minus, factor);
    let denom = g.op2(Kind::Add, shrunk, smooth);
    let smooth_freqs = g.op2(Kind::Divide, stretched, denom);
    let out = g.op3(Kind::Which, is_medium, smooth_freqs, stretched);
    (g, out)
}

/// The text that the model reads for a query and a passage.
pub open spec fn prompt_text(q: Seq<char>, p: Seq<char>) -> Seq<char> {
    "question:"@ + q + " \n \n passage:"@ + p
}

/// Writes the text that the model reads for a query and a passage.
pub fn prompt(q: &str, p: &str) -> (r: String)
    ensures
        r@ == prompt_text(q@, p@),
{
    let mut out = "question:".to_owned();
    out.append(q);
    out.append(" \n \n passage:");
    out.append(p);
    out
}

/// The model's forward pass, step by step.
pub struct Model;

impl Model {
    /// Adds `x @ w.T` for the weight `w` of a slot.
    pub fn linear(g: &mut Graph, x: usize, slot: Slot) -> (r: usize)
        requires
            old(g).wf(),
            x < old(g)@.len(),
        ensures
            final(g).wf(),
            extends(final(g)@, old(g)@),
            r < final(g)@.len(),
            final(g)@[r as int] == linear_term(old(g)@[x as int], slot),
    {
        let w = g.op0(Kind::Weight(WeightKey { stack: Stack::Nemotron, slot }));
        let wt = g.op1(Kind::Transpose, w);
        g.op2(Kind::Matmul, x, wt)
    }

    /// Adds `x` normalised and scaled by the weight of a slot.
    pub fn rms_norm(g: &mut Graph, x: usize, slot: Slot) -> (r: usize)
        requires
            old(g).wf(),
            x < old(g)@.len(),
        ensures
            final(g).wf(),
            extends(final(g)@, old(g)@),
            r < final(g)@.len(),
            final(g)@[r as int] == rms_norm_term(old(g)@[x as int], slot),
    {
        let w = g.op0(Kind::Weight(WeightKey { stack: Stack::Nemotron, slot }));
        g.op2(Kind::FastRmsNorm(Num::Dec { digits: 1, exp: -5 }), x, w)
    }

    /// Adds the rotary embedding of `x`, an array `[b, heads, s, HEAD_DIM]`.
    pub fn rope(g: &mut Graph, x: usize, b: i32, heads: i32, s: i32) -> (r: usize)
        requires
            old(g).wf(),
            x < old(g)@.len(),
        ensures
            final(g).wf(),
            extends(final(g)@, old(g)@),
            r < final(g)@.len(),
            final(g)@[r as int] == rope_term(old(g)@[x as int], b, heads, s),
    {
        let x3 = g.op1(Kind::Reshape(Dims::D3(REST, s, HEAD_DIM)), x);
        let freqs = g.op0(Kind::Freqs);
        let kind = Kind::FastRope(
            Turn {
                dims: HEAD_DIM,
                neighbours: false,
                by_base: false,
                scale: Num::Dec { digits: 1, exp: 0 },
                offset: 0,
            },
        );
        let turned = g.op2(kind, x3, freqs);
        g.op1(Kind::Reshape(Dims::D4(b, heads, s, HEAD_DIM)), turned)
    }

    fn split_heads(g: &mut Graph, x: usize, b: i32, s: i32, heads: i32) -> (r: usize)
        requires
            old(g).wf(),
            x < old(g)@.len(),
        ensures
            final(g).wf(),
            extends(final(g)@, old(g)@),
            r < final(g)@.len(),
            final(g)@[r as int] == split_heads_term(old(g)@[x as int], b, s, heads),
    {
        let x4 = g.op1(Kind::Reshape(Dims::D4(b, s, heads, HEAD_DIM)), x);
        g.op1(Kind::Permute(Dims::D4(0, 2, 1, 3)), x4)
    }

    /// Adds attention of one kind of heads, from projected queries, keys and values.
    fn attend(
        g: &mut Graph,
        q: usize,
        k: usize,
        v: usize,
        mask: usize,
        b: i32,
        s: i32,
    ) -> (r: usize)
        requires
            old(g).wf(),
            q < old(g)@.len(),
            k < old(g)@.len(),
            v < old(g)@.len(),
            mask < old(g)@.len(),
        ensures
            final(g).wf(),
            extends(final(g)@, old(g)@),
            r < final(g)@.len(),
            final(g)@[r as int] == attend_term(
                old(g)@[q as int],
                old(g)@[k as int],
                old(g)@[v as int],
                old(g)@[mask as int],
                b,
                s,
            ),
    {
        let q = Self::split_heads(g, q, b, s, N_HEADS);
        let k = Self::split_heads(g, k, b, s, N_KV_HEADS);
        let v = Self::split_heads(g, v, b, s, N_KV_HEADS);
        let q = Self::rope(g, q, b, N_HEADS, s);
        let k = Self::rope(g, k, b, N_KV_HEADS, s);
        let attn = g.op4(Kind::Attention(Num::Dec { digits: 125, exp: -3 }), q, k, v, mask);
        let attn = g.op1(Kind::Permute(Dims::D4(0, 2, 1, 3)), attn);
        g.op1(Kind::Reshape(Dims::D3(b, s, REST)), attn)
    }

    /// Adds the attention half of layer `i`.
    fn attention(g: &mut Graph, h: usize, mask: usize, i: usize, b: i32, s: i32) -> (r: usize)
        requires
            old(g).wf(),
            h < old(g)@.len(),
            mask < old(g)@.len(),
        ensures
            final(g).wf(),
            extends(final(g)@, old(g)@),
            r < final(g)@.len(),
            final(g)@[r as int] == attention_term(
                old(g)@[h as int],
                old(g)@[mask as int],
                i,
                b,
                s,
            ),
    {
        let x = Self::rms_norm(g, h, Slot::Layer(i, Part::InputNorm));
        let q = Self::linear(g, x, Slot::Layer(i, Part::QProj));
        let k = Self::linear(g, x, Slot::Layer(i, Part::KProj));
        let v = Self::linear(g, x, Slot::Layer(i, Part::VProj));
        let attn = Self::attend(g, q, k, v, mask, b, s);
        Self::linear(g, attn, Slot::Layer(i, Part::OProj))
    }

    /// Adds the gated feed-forward half of layer `i`.
    fn mlp(g: &mut Graph, h: usize, i: usize) -> (r: usize)
        requires
            old(g).wf(),
            h < old(g)@.len(),
        ensures
            final(g).wf(),
            extends(final(g)@, old(g)@),
            r < final(g)@.len(),
            final(g)@[r as int] == mlp_term(old(g)@[h as int], i),
    {
        let x = Self::rms_norm(g, h, Slot::Layer(i, Part::PostAttentionNorm));
        let gate = Self::linear(g, x, Slot::Layer(i, Part::GateProj));
        let up = Self::linear(g, x, Slot::Layer(i, Part::UpProj));
        let gate = g.op1(Kind::Silu, gate);
        let act = g.op2(Kind::Multiply, gate, up);
        Self::linear(g, act, Slot::Layer(i, Part::DownProj))
    }

    /// Adds layer `i` on the hidden states `h` under the additive `mask`.
    pub fn layer(g: &mut Graph, h: usize, mask: usize, i: usize, b: i32, s: i32) -> (r: usize)
        requires
            old(g).wf(),
            h < old(g)@.len(),
            mask < old(g)@.len(),
        ensures
            final(g).wf(),
            extends(final(g)@, old(g)@),
            r < final(g)@.len(),
            final(g)@[r as int] == layer_term(
                old(g)@[h as int],
                old(g)@[mask as int],
                i,
                b,
                s,
            ),
    {
        let attn = Self::attention(g, h, mask, i, b, s);
        let mid = g.op2(Kind::Add, h, attn);
        let down = Self::mlp(g, mid, i);
        g.op2(Kind::Add, mid, down)
    }

    /// Builds the program that scores a padded batch of `b` rows of `s` tokens;
    /// the second part of the result is the position of the scores.
    pub fn forward(b: i32, s: i32) -> (r: (Graph, usize))
        ensures
            r.0.wf(),
            r.1 < r.0@.len(),
            r.0@[r.1 as int] == forward_term(b, s),
    {
        let mut g = Graph::new();
        let ids = g.op0(Kind::Ids(0));
        let flat = g.op1(Kind::Reshape(Dims::D1(REST)), ids);
        let table = g.op0(
            Kind::Weight(WeightKey { stack: Stack::Nemotron, slot: Slot::Embedding }),
        );
        let rows = g.op2(Kind::Take { axis: 0 }, table, flat);
        let mut h = g.op1(Kind::Reshape(Dims::D3(b, s, HIDDEN)), rows);
        assert(g@[h as int] == embedded_term(b, s));

        let tokens = g.op0(Kind::Mask(0));
        let keep = g.op1(Kind::Cast(Ty::F16), tokens);
        let keep4 = g.op1(Kind::Reshape(Dims::D4(b, 1, 1, s)), keep);
        let neg = g.number(-6, 4);
        let neg = g.op1(Kind::Cast(Ty::F16), neg);
        let zero = g.number(0, 0);
        let zero = g.op1(Kind::Cast(Ty::F16), zero);
        let is_pad = g.op2(Kind::Equal, keep4, zero);
        let mask = g.op3(Kind::Which, is_pad, neg, zero);
        let mask = g.op1(Kind::Cast(Ty::F16), mask);
        assert(g@[mask as int] == padding_mask_term(b, s));

        let mut i: usize = 0;
        while i < N_LAYERS
            invariant
                g.wf(),
                i <= N_LAYERS,
                h < g@.len(),
                mask < g@.len(),
                keep < g@.len(),
                g@[keep as int] == keep_term(),
                g@[mask as int] == padding_mask_term(b, s),
                g@[h as int] == layers_term(
                    embedded_term(b, s),
                    padding_mask_term(b, s),
                    i as nat,
                    b,
                    s,
                ),
            decreases N_LAYERS - i,
        {
            h = Self::layer(&mut g, h, mask, i, b, s);
            i += 1;
        }
        let h = Self::rms_norm(&mut g, h, Slot::FinalNorm);

        let keep3 = g.op1(Kind::Reshape(Dims::D3(b, s, 1)), keep);
        let masked = g.op2(Kind::Multiply, h, keep3);
        let summed = g.op1(Kind::Sum { axis: 1, keep: false }, masked);
        let count = g.op1(Kind::Sum { axis: 1, keep: false }, keep3);
        let pooled = g.op2(Kind::Divide, summed, count);
        let score = Self::linear(&mut g, pooled, Slot::ScoreHead);
        let out = g.op1(Kind::Reshape(Dims::D1(b)), score);
        (g, out)
    }
}

} // verus!
