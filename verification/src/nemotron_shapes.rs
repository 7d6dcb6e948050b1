//! The extents of the arrays in the cross-encoder's forward pass.

use crate::graph::{binary, dec, leaf, literal, quaternary, ternary, turn, unary};
use crate::graph::{Dims, Kind, Part, Slot, Stack, Term, Ty, REST};
use crate::nemotron::{attend_term, attention_term, embedded_term, forward_term, keep_term};
use crate::nemotron::{layer_term, layers_term, linear_term, llama3_freqs_term, mean_pool_term};
use crate::nemotron::{base_freqs_term, mlp_term, padding_mask_term, rms_norm_term};
use crate::nemotron::{rope_term, split_heads_term, weight};
use crate::nemotron::{HALF_DIM, HEAD_DIM, HIDDEN, N_HEADS, N_KV_HEADS, N_LAYERS};
use crate::shapes::{extents, known_extents, shape_of};
use crate::shapes::{lemma_binary, lemma_leaf, lemma_quaternary, lemma_ternary, lemma_unary};
use crate::shapes::{lemma_permute, lemma_product, lemma_reshaped, lemma_reshaped_rest};
use crate::shapes::{lemma_stretched_into, lemma_stretched_same, lemma_stretched_scalar};
use vstd::prelude::*;

verus! {

broadcast use {lemma_leaf, lemma_unary, lemma_binary, lemma_ternary, lemma_quaternary};

/// The extents of the weight in a slot, for `vocab` tokens and feed-forward
/// layers of width `inner`.
pub open spec fn weight_extents(slot: Slot, vocab: int, inner: int) -> Option<Seq<int>> {
    match slot {
        Slot::Embedding => Some(seq![vocab, HIDDEN as int]),
        Slot::FinalNorm => Some(seq![HIDDEN as int]),
        Slot::ScoreHead => Some(seq![1int, HIDDEN as int]),
        Slot::Layer(_, part) => match part {
            Part::InputNorm | Part::PostAttentionNorm => Some(seq![HIDDEN as int]),
            Part::QProj | Part::OProj => Some(seq![HIDDEN as int, HIDDEN as int]),
            Part::KProj | Part::VProj => Some(seq![N_KV_HEADS * HEAD_DIM, HIDDEN as int]),
            Part::GateProj | Part::UpProj => Some(seq![inner, HIDDEN as int]),
            Part::DownProj => Some(seq![HIDDEN as int, inner]),
            _ => None,
        },
    }
}

/// The extents of the arrays that a forward pass of `b` rows of `s` tokens starts from.
pub open spec fn inputs(vocab: int, inner: int, b: int, s: int) -> spec_fn(Kind) -> Option<
    Seq<int>,
> {
    |kind: Kind|
        match kind {
            Kind::Ids(_) | Kind::Mask(_) => Some(seq![b, s]),
            Kind::Freqs => Some(seq![HALF_DIM as int]),
            Kind::Weight(key) => if key.stack == Stack::Nemotron {
                weight_extents(key.slot, vocab, inner)
            } else {
                None
            },
            _ => None,
        }
}

proof fn lemma_linear(
    x: Term,
    slot: Slot,
    inp: spec_fn(Kind) -> Option<Seq<int>>,
    lead: Seq<int>,
    from: int,
    to: int,
)
    requires
        lead.len() >= 1,
        shape_of(x, inp) == Some(lead.push(from)),
        shape_of(weight(slot), inp) == Some(seq![to, from]),
    ensures
        shape_of(linear_term(x, slot), inp) == Some(lead.push(to)),
{
    let w = unary(Kind::Transpose, weight(slot));
    assert(seq![to, from].reverse() =~= seq![from, to]);
    assert(shape_of(w, inp) == Some(seq![from, to]));
    assert(lead.push(from).drop_last() =~= lead);
}

proof fn lemma_rope(
    x: Term,
    inp: spec_fn(Kind) -> Option<Seq<int>>,
    b: i32,
    heads: i32,
    s: i32,
)
    requires
        0 < b,
        0 < heads,
        0 < s,
        shape_of(x, inp) == Some(seq![b as int, heads as int, s as int, HEAD_DIM as int]),
        inp(Kind::Freqs) == Some(seq![HALF_DIM as int]),
    ensures
        shape_of(rope_term(x, b, heads, s), inp) == Some(
            seq![b as int, heads as int, s as int, HEAD_DIM as int],
        ),
{
    let full = seq![b as int, heads as int, s as int, HEAD_DIM as int];
    let open = seq![-1int, s as int, HEAD_DIM as int];
    let flat = seq![b * heads, s as int, HEAD_DIM as int];
    assert(extents(Dims::D3(REST, s, HEAD_DIM)) =~= open);
    lemma_product(b as int, heads as int, s as int, HEAD_DIM as int);
    lemma_product(1, s as int, HEAD_DIM as int, 1);
    lemma_product(b * heads, s as int, HEAD_DIM as int, 1);
    assert(known_extents(open) =~= seq![1int, s as int, HEAD_DIM as int]);
    assert(b * heads * s * 64 == (1 * s * 64) * (b * heads)) by (nonlinear_arith);
    assert(1 * s * 64 > 0) by (nonlinear_arith)
        requires
            0 < s,
    ;
    lemma_reshaped_rest(full, open, 0, b * heads);
    assert(open.update(0, b * heads) =~= flat);
    let x3 = unary(Kind::Reshape(Dims::D3(REST, s, HEAD_DIM)), x);
    assert(shape_of(x3, inp) == Some(flat));
    let turned = binary(turn(HEAD_DIM), x3, leaf(Kind::Freqs));
    assert(seq![HALF_DIM as int] =~= seq![HEAD_DIM as int / 2]);
    assert(shape_of(turned, inp) == Some(flat));
    assert(extents(Dims::D4(b, heads, s, HEAD_DIM)) =~= full);
    lemma_reshaped(flat, full);
}

proof fn lemma_split_heads(
    x: Term,
    inp: spec_fn(Kind) -> Option<Seq<int>>,
    b: i32,
    s: i32,
    heads: i32,
)
    requires
        0 < b,
        0 < heads,
        0 < s,
        shape_of(x, inp) == Some(seq![b as int, s as int, heads * HEAD_DIM]),
    ensures
        shape_of(split_heads_term(x, b, s, heads), inp) == Some(
            seq![b as int, heads as int, s as int, HEAD_DIM as int],
        ),
{
    let split = seq![b as int, s as int, heads as int, HEAD_DIM as int];
    assert(extents(Dims::D4(b, s, heads, HEAD_DIM)) =~= split);
    lemma_product(b as int, s as int, heads as int, HEAD_DIM as int);
    lemma_product(b as int, s as int, heads * HEAD_DIM, 1);
    assert(b * s * heads * 64 == b * s * (heads * 64)) by (nonlinear_arith);
    lemma_reshaped(seq![b as int, s as int, heads * HEAD_DIM], split);
    let x4 = unary(Kind::Reshape(Dims::D4(b, s, heads, HEAD_DIM)), x);
    assert(shape_of(x4, inp) == Some(split));
    lemma_permute(x4, inp, split);
}

/// Hidden states of `b` rows of `s` tokens.
spec fn states(b: i32, s: i32) -> Seq<int> {
    seq![b as int, s as int, HIDDEN as int]
}

/// One number for each key of each row.
spec fn row_mask(b: i32, s: i32) -> Seq<int> {
    seq![b as int, 1int, 1int, s as int]
}

proof fn lemma_attend(
    q: Term,
    k: Term,
    v: Term,
    mask: Term,
    inp: spec_fn(Kind) -> Option<Seq<int>>,
    b: i32,
    s: i32,
)
    requires
        0 < b,
        0 < s,
        shape_of(q, inp) == Some(seq![b as int, s as int, N_HEADS * HEAD_DIM]),
        shape_of(k, inp) == Some(seq![b as int, s as int, N_KV_HEADS * HEAD_DIM]),
        shape_of(v, inp) == Some(seq![b as int, s as int, N_KV_HEADS * HEAD_DIM]),
        shape_of(mask, inp) == Some(row_mask(b, s)),
        inp(Kind::Freqs) == Some(seq![HALF_DIM as int]),
    ensures
        shape_of(attend_term(q, k, v, mask, b, s), inp) == Some(states(b, s)),
{
    lemma_split_heads(q, inp, b, s, N_HEADS);
    lemma_split_heads(k, inp, b, s, N_KV_HEADS);
    lemma_split_heads(v, inp, b, s, N_KV_HEADS);
    let q4 = split_heads_term(q, b, s, N_HEADS);
    let k4 = split_heads_term(k, b, s, N_KV_HEADS);
    let v4 = split_heads_term(v, b, s, N_KV_HEADS);
    lemma_rope(q4, inp, b, N_HEADS, s);
    lemma_rope(k4, inp, b, N_KV_HEADS, s);
    let attn = quaternary(
        Kind::Attention(dec(125, -3)),
        rope_term(q4, b, N_HEADS, s),
        rope_term(k4, b, N_KV_HEADS, s),
        v4,
        mask,
    );
    let full = seq![b as int, N_HEADS as int, s as int, s as int];
    lemma_stretched_into(full, row_mask(b, s));
    let heads = seq![b as int, N_HEADS as int, s as int, HEAD_DIM as int];
    assert(shape_of(attn, inp) == Some(heads));
    lemma_permute(attn, inp, heads);
    let side = seq![b as int, s as int, N_HEADS as int, HEAD_DIM as int];
    let open = seq![b as int, s as int, -1int];
    assert(extents(Dims::D3(b, s, REST)) =~= open);
    assert(known_extents(open) =~= seq![b as int, s as int, 1int]);
    lemma_product(b as int, s as int, N_HEADS as int, HEAD_DIM as int);
    lemma_product(b as int, s as int, 1, 1);
    assert(b * s * 32 * 64 == b * s * 1 * 2048) by (nonlinear_arith);
    assert(b * s * 1 > 0) by (nonlinear_arith)
        requires
            0 < b,
            0 < s,
    ;
    lemma_reshaped_rest(side, open, 2, 2048);
    assert(open.update(2, 2048) =~= states(b, s));
}

proof fn lemma_layer(
    h: Term,
    mask: Term,
    i: usize,
    vocab: int,
    inner: int,
    b: i32,
    s: i32,
)
    requires
        0 < b,
        0 < s,
        shape_of(h, inputs(vocab, inner, b as int, s as int)) == Some(states(b, s)),
        shape_of(mask, inputs(vocab, inner, b as int, s as int)) == Some(row_mask(b, s)),
    ensures
        shape_of(layer_term(h, mask, i, b, s), inputs(vocab, inner, b as int, s as int)) == Some(
            states(b, s),
        ),
{
    let inp = inputs(vocab, inner, b as int, s as int);
    let lead = seq![b as int, s as int];
    let wide = HIDDEN as int;
    assert(lead.push(wide) =~= states(b, s));
    let x = rms_norm_term(h, Slot::Layer(i, Part::InputNorm));
    assert(shape_of(x, inp) == Some(states(b, s)));
    lemma_linear(x, Slot::Layer(i, Part::QProj), inp, lead, wide, wide);
    lemma_linear(x, Slot::Layer(i, Part::KProj), inp, lead, wide, N_KV_HEADS * HEAD_DIM);
    lemma_linear(x, Slot::Layer(i, Part::VProj), inp, lead, wide, N_KV_HEADS * HEAD_DIM);
    let q = linear_term(x, Slot::Layer(i, Part::QProj));
    let k = linear_term(x, Slot::Layer(i, Part::KProj));
    let v = linear_term(x, Slot::Layer(i, Part::VProj));
    assert(lead.push(N_KV_HEADS * HEAD_DIM) =~= seq![b as int, s as int, N_KV_HEADS * HEAD_DIM]);
    assert(lead.push(wide) =~= seq![b as int, s as int, N_HEADS * HEAD_DIM]);
    lemma_attend(q, k, v, mask, inp, b, s);
    let attn = attend_term(q, k, v, mask, b, s);
    lemma_linear(attn, Slot::Layer(i, Part::OProj), inp, lead, wide, wide);
    assert(shape_of(attention_term(h, mask, i, b, s), inp) == Some(states(b, s)));
    lemma_stretched_same(states(b, s));
    let mid = binary(Kind::Add, h, attention_term(h, mask, i, b, s));
    assert(shape_of(mid, inp) == Some(states(b, s)));
    lemma_mlp(mid, i, vocab, inner, b, s);
}

proof fn lemma_mlp(h: Term, i: usize, vocab: int, inner: int, b: i32, s: i32)
    requires
        shape_of(h, inputs(vocab, inner, b as int, s as int)) == Some(states(b, s)),
    ensures
        shape_of(mlp_term(h, i), inputs(vocab, inner, b as int, s as int)) == Some(states(b, s)),
{
    let inp = inputs(vocab, inner, b as int, s as int);
    let lead = seq![b as int, s as int];
    let wide = HIDDEN as int;
    assert(lead.push(wide) =~= states(b, s));
    let x = rms_norm_term(h, Slot::Layer(i, Part::PostAttentionNorm));
    assert(shape_of(x, inp) == Some(states(b, s)));
    lemma_linear(x, Slot::Layer(i, Part::GateProj), inp, lead, wide, inner);
    lemma_linear(x, Slot::Layer(i, Part::UpProj), inp, lead, wide, inner);
    let gate = linear_term(x, Slot::Layer(i, Part::GateProj));
    let up = linear_term(x, Slot::Layer(i, Part::UpProj));
    lemma_stretched_same(lead.push(inner));
    let act = binary(Kind::Multiply, unary(Kind::Silu, gate), up);
    assert(shape_of(act, inp) == Some(lead.push(inner)));
    lemma_linear(act, Slot::Layer(i, Part::DownProj), inp, lead, inner, wide);
}

proof fn lemma_layers(
    h: Term,
    mask: Term,
    n: nat,
    vocab: int,
    inner: int,
    b: i32,
    s: i32,
)
    requires
        0 < b,
        0 < s,
        shape_of(h, inputs(vocab, inner, b as int, s as int)) == Some(states(b, s)),
        shape_of(mask, inputs(vocab, inner, b as int, s as int)) == Some(row_mask(b, s)),
    ensures
        shape_of(layers_term(h, mask, n, b, s), inputs(vocab, inner, b as int, s as int)) == Some(
            states(b, s),
        ),
    decreases n,
{
    if n > 0 {
        lemma_layers(h, mask, (n - 1) as nat, vocab, inner, b, s);
        lemma_layer(
            layers_term(h, mask, (n - 1) as nat, b, s),
            mask,
            (n - 1) as usize,
            vocab,
            inner,
            b,
            s,
        );
    }
}

proof fn lemma_embedded(vocab: int, inner: int, b: i32, s: i32)
    requires
        0 < b,
        0 < s,
    ensures
        shape_of(embedded_term(b, s), inputs(vocab, inner, b as int, s as int)) == Some(
            states(b, s),
        ),
{
    let inp = inputs(vocab, inner, b as int, s as int);
    let ids = leaf(Kind::Ids(0));
    let rows = seq![b as int, s as int];
    assert(shape_of(ids, inp) == Some(rows));
    let open = seq![-1int];
    assert(extents(Dims::D1(REST)) =~= open);
    assert(known_extents(open) =~= seq![1int]);
    lemma_product(1, 1, 1, 1);
    lemma_product(b as int, s as int, HIDDEN as int, 1);
    lemma_reshaped_rest(rows, open, 0, b * s);
    assert(open.update(0, b * s) =~= seq![b * s]);
    let flat = unary(Kind::Reshape(Dims::D1(REST)), ids);
    assert(shape_of(flat, inp) == Some(seq![b * s]));
    let taken = binary(Kind::Take { axis: 0 }, weight(Slot::Embedding), flat);
    let w = seq![vocab, HIDDEN as int];
    assert(w.take(0) + seq![b * s] + w.skip(1) =~= seq![b * s, HIDDEN as int]);
    assert(shape_of(taken, inp) == Some(seq![b * s, HIDDEN as int]));
    assert(extents(Dims::D3(b, s, HIDDEN)) =~= states(b, s));
    lemma_product(b * s, HIDDEN as int, 1, 1);
    lemma_reshaped(seq![b * s, HIDDEN as int], states(b, s));
}

proof fn lemma_padding_mask(vocab: int, inner: int, b: i32, s: i32)
    requires
        0 < b,
        0 < s,
    ensures
        shape_of(padding_mask_term(b, s), inputs(vocab, inner, b as int, s as int)) == Some(
            row_mask(b, s),
        ),
{
    let inp = inputs(vocab, inner, b as int, s as int);
    let rows = seq![b as int, s as int];
    assert(shape_of(keep_term(), inp) == Some(rows));
    assert(extents(Dims::D4(b, 1, 1, s)) =~= row_mask(b, s));
    lemma_product(b as int, s as int, 1, 1);
    lemma_product(b as int, 1, 1, s as int);
    assert(b * 1 * 1 * s == b * s) by (nonlinear_arith);
    lemma_reshaped(rows, row_mask(b, s));
    let zero = unary(Kind::Cast(Ty::F16), literal(0, 0));
    let neg = unary(Kind::Cast(Ty::F16), literal(-6, 4));
    let am4 = unary(Kind::Reshape(Dims::D4(b, 1, 1, s)), keep_term());
    lemma_stretched_scalar(row_mask(b, s));
    lemma_stretched_scalar(seq![]);
    let is_pad = binary(Kind::Equal, am4, zero);
    assert(shape_of(is_pad, inp) == Some(row_mask(b, s)));
    assert(shape_of(ternary(Kind::Which, is_pad, neg, zero), inp) == Some(row_mask(b, s)));
}

proof fn lemma_mean_pool(h: Term, vocab: int, inner: int, b: i32, s: i32)
    requires
        0 < b,
        0 < s,
        shape_of(h, inputs(vocab, inner, b as int, s as int)) == Some(states(b, s)),
    ensures
        shape_of(mean_pool_term(h, b, s), inputs(vocab, inner, b as int, s as int)) == Some(
            seq![b as int, HIDDEN as int],
        ),
{
    let inp = inputs(vocab, inner, b as int, s as int);
    let rows = seq![b as int, s as int];
    let column = seq![b as int, s as int, 1int];
    assert(shape_of(keep_term(), inp) == Some(rows));
    assert(extents(Dims::D3(b, s, 1)) =~= column);
    lemma_product(b as int, s as int, 1, 1);
    lemma_reshaped(rows, column);
    let keep = unary(Kind::Reshape(Dims::D3(b, s, 1)), keep_term());
    assert(shape_of(keep, inp) == Some(column));
    lemma_stretched_into(states(b, s), column);
    let kept = binary(Kind::Multiply, h, keep);
    assert(shape_of(kept, inp) == Some(states(b, s)));
    assert(states(b, s).remove(1) =~= seq![b as int, HIDDEN as int]);
    assert(column.remove(1) =~= seq![b as int, 1int]);
    lemma_stretched_into(seq![b as int, HIDDEN as int], seq![b as int, 1int]);
}

/// The forward pass of `b` rows of `s` tokens gives `b` scores, and every operation
/// in it accepts the arrays that it is applied to.
pub proof fn law_forward_scores_every_row(vocab: int, inner: int, b: i32, s: i32)
    requires
        0 < b,
        0 < s,
    ensures
        shape_of(forward_term(b, s), inputs(vocab, inner, b as int, s as int)) == Some(
            seq![b as int],
        ),
{
    let inp = inputs(vocab, inner, b as int, s as int);
    let mask = padding_mask_term(b, s);
    lemma_embedded(vocab, inner, b, s);
    lemma_padding_mask(vocab, inner, b, s);
    lemma_layers(embedded_term(b, s), mask, N_LAYERS as nat, vocab, inner, b, s);
    let h = layers_term(embedded_term(b, s), mask, N_LAYERS as nat, b, s);
    let normed = rms_norm_term(h, Slot::FinalNorm);
    assert(shape_of(normed, inp) == Some(states(b, s)));
    lemma_mean_pool(normed, vocab, inner, b, s);
    let pooled = mean_pool_term(normed, b, s);
    assert(seq![b as int].push(HIDDEN as int) =~= seq![b as int, HIDDEN as int]);
    lemma_linear(pooled, Slot::ScoreHead, inp, seq![b as int], HIDDEN as int, 1);
    assert(seq![b as int].push(1) =~= seq![b as int, 1int]);
    assert(extents(Dims::D1(b)) =~= seq![b as int]);
    lemma_product(b as int, 1, 1, 1);
    lemma_reshaped(seq![b as int, 1int], seq![b as int]);
}

/// The padding mask holds one number for each key of each row: it is the same for
/// every head and every query, so that every token attends to every kept token.
pub proof fn law_mask_is_the_same_for_every_query(vocab: int, inner: int, b: i32, s: i32)
    requires
        0 < b,
        0 < s,
    ensures
        shape_of(padding_mask_term(b, s), inputs(vocab, inner, b as int, s as int)) == Some(
            seq![b as int, 1int, 1int, s as int],
        ),
{
    lemma_padding_mask(vocab, inner, b, s);
}

/// The model keeps one rotary frequency for each pair of a head's numbers.
pub proof fn law_frequencies_fit_a_head(inp: spec_fn(Kind) -> Option<Seq<int>>)
    ensures
        shape_of(llama3_freqs_term(), inp) == Some(seq![HALF_DIM as int]),
{
    let row = seq![HALF_DIM as int];
    lemma_stretched_same(row);
    lemma_stretched_scalar(row);
    let base = base_freqs_term();
    assert(shape_of(base, inp) == Some(row)) by {
        let i = leaf(Kind::Arange { stop: HALF_DIM, step: 1 });
        assert(seq![(HALF_DIM + 1 - 1) / 1int] =~= row);
        assert(shape_of(i, inp) == Some(row));
        assert(shape_of(binary(Kind::Multiply, i, literal(3125, -5)), inp) == Some(row));
    }
}

} // verus!
