//! The encoder-decoder reranker: its two stacks as tensor programs.
//!
//! The encoder reads each passage once, in both directions, and pools its states
//! four tokens at a time. The decoder reads the yes/no prompt and attends to its
//! own states and to the pooled passage in one merged attention.

use crate::graph::{binary, extends, leaf, literal, quaternary, ternary, unary};
use crate::graph::{
    Dims, Graph, Kind, LayerType, Num, Part, Side, Slot, Stack, Term, Ty, WeightKey, REST,
};
use crate::kalm_config::KalmConfig;
use vstd::prelude::*;

verus! {

/// The number of tokens that one pooled vector stands for.
pub const CHUNK: i32 = 4;

/// A weight of one stack.
pub open spec fn weight(side: Side, slot: Slot) -> Term {
    leaf(Kind::Weight(WeightKey { stack: Stack::Kalm(side), slot }))
}

/// The token embeddings, which both stacks share.
pub open spec fn embedding() -> Term {
    weight(Side::Encoder, Slot::Embedding)
}

/// Root-mean-square normalisation in 32-bit reals, scaled by one plus the
/// weight, in the element type of `x`.
pub open spec fn rms_term(x: Term, w: Term) -> Term {
    let xf = unary(Kind::Cast(Ty::F32), x);
    let ms = unary(Kind::Mean { axis: -1i32, keep: true }, binary(Kind::Multiply, xf, xf));
    let inv = unary(Kind::Rsqrt, binary(Kind::Add, ms, leaf(Kind::Const(Num::Eps))));
    let scale = binary(Kind::Add, literal(1, 0), unary(Kind::Cast(Ty::F32), w));
    binary(
        Kind::CastLike,
        binary(Kind::Multiply, binary(Kind::Multiply, xf, inv), scale),
        x,
    )
}

/// `x` normalised with a weight of one stack.
pub open spec fn norm_term(x: Term, side: Side, slot: Slot) -> Term {
    rms_term(x, weight(side, slot))
}

/// The tanh form of the Gaussian error linear unit, in the element type of `x`.
pub open spec fn gelu_term(x: Term) -> Term {
    let x3 = binary(Kind::Multiply, binary(Kind::Multiply, x, x), x);
    let inner = binary(Kind::Add, x, binary(Kind::Multiply, x3, literal(44715, -6)));
    let t = unary(Kind::Tanh, binary(Kind::Multiply, inner, literal(7978845608028654, -16)));
    let out = binary(
        Kind::Multiply,
        binary(Kind::Multiply, x, literal(5, -1)),
        binary(Kind::Add, t, literal(1, 0)),
    );
    binary(Kind::CastLike, out, x)
}

/// The rotary angles of `t` positions, twice side by side: `[1, 1, t, head_dim]`.
pub open spec fn angles_term(side: Side, lt: LayerType, t: i32) -> Term {
    let pos = unary(
        Kind::Reshape(Dims::D2(t, 1)),
        leaf(Kind::Arange { stop: t, step: 1 }),
    );
    let inv = unary(Kind::Reshape(Dims::D2(1, REST)), leaf(Kind::InvFreq(side, lt)));
    let fr = binary(Kind::Multiply, pos, inv);
    unary(
        Kind::Reshape(Dims::D4(1, 1, t, REST)),
        binary(Kind::Concat { axis: -1i32 }, fr, fr),
    )
}

/// The cosines of the rotary angles.
pub open spec fn cos_term(side: Side, lt: LayerType, t: i32) -> Term {
    unary(Kind::Cast(Ty::Bf16), unary(Kind::Cos, angles_term(side, lt, t)))
}

/// The sines of the rotary angles.
pub open spec fn sin_term(side: Side, lt: LayerType, t: i32) -> Term {
    unary(Kind::Cast(Ty::Bf16), unary(Kind::Sin, angles_term(side, lt, t)))
}

/// Half of a head's width, rounded towards zero.
pub open spec fn half_of(hd: i32) -> i32 {
    (if hd >= 0 {
        hd as int / 2
    } else {
        -((-hd) / 2)
    }) as i32
}

/// Rotary embedding: `x * cos + [-second half of x, first half of x] * sin`, in the
/// element type of `x`.
pub open spec fn rope_term(x: Term, c: Term, s: Term, hd: i32) -> Term {
    let x1 = unary(Kind::SliceLast { from: 0, to: half_of(hd) }, x);
    let x2 = unary(Kind::SliceLast { from: half_of(hd), to: hd }, x);
    let rot = binary(
        Kind::Concat { axis: -1i32 },
        binary(Kind::Multiply, x2, literal(-1, 0)),
        x1,
    );
    let sum = binary(Kind::Add, binary(Kind::Multiply, x, c), binary(Kind::Multiply, rot, s));
    binary(Kind::CastLike, sum, x)
}

/// `x @ w.T` for a weight of layer `i`.
pub open spec fn times_term(x: Term, side: Side, i: usize, part: Part) -> Term {
    binary(Kind::Matmul, x, unary(Kind::Transpose, weight(side, Slot::Layer(i, part))))
}

/// `x`, `[b, t, h]`, projected to `n` heads: `[b, n, t, head_dim]`.
pub open spec fn prj_term(
    cfg: &KalmConfig,
    x: Term,
    side: Side,
    i: usize,
    part: Part,
    n: i32,
    b: i32,
    t: i32,
) -> Term {
    unary(
        Kind::Permute(Dims::D4(0, 2, 1, 3)),
        unary(Kind::Reshape(Dims::D4(b, t, n, cfg.hd)), times_term(x, side, i, part)),
    )
}

/// Every key or value head as often in a row as there are query heads: one for each
/// of them, where all share one key head.
pub open spec fn repeat_kv_term(cfg: &KalmConfig, x: Term) -> Term {
    unary(Kind::Repeat { count: cfg.nh, axis: 1 }, x)
}

/// The attention output of layer `i` projected, normalised and added to its input.
pub open spec fn after_attention_term(
    cfg: &KalmConfig,
    h: Term,
    attn_out: Term,
    b: i32,
    t: i32,
    side: Side,
    i: usize,
) -> Term {
    let merged = unary(
        Kind::Reshape(Dims::D3(b, t, (cfg.nh * cfg.hd) as i32)),
        unary(Kind::Permute(Dims::D4(0, 2, 1, 3)), attn_out),
    );
    let o = norm_term(
        times_term(merged, side, i, Part::OProj),
        side,
        Slot::Layer(i, Part::PostSelfAttnNorm),
    );
    binary(Kind::Add, h, o)
}

/// The gated feed-forward half of layer `i` between its two normalisations,
/// added to its input.
pub open spec fn feedforward_term(h: Term, side: Side, i: usize) -> Term {
    let x = norm_term(h, side, Slot::Layer(i, Part::PreFeedforwardNorm));
    let gate = gelu_term(times_term(x, side, i, Part::GateProj));
    let up = times_term(x, side, i, Part::UpProj);
    let down = times_term(binary(Kind::Multiply, gate, up), side, i, Part::DownProj);
    binary(Kind::Add, h, norm_term(down, side, Slot::Layer(i, Part::PostFeedforwardNorm)))
}

/// What follows the attention of layer `i`: both residual additions.
pub open spec fn block_tail_term(
    cfg: &KalmConfig,
    h: Term,
    attn_out: Term,
    b: i32,
    t: i32,
    side: Side,
    i: usize,
) -> Term {
    feedforward_term(after_attention_term(cfg, h, attn_out, b, t, side, i), side, i)
}

/// The scaled embeddings of token ids, `[b, t, h]`.
pub open spec fn embedded_term(cfg: &KalmConfig, ids: Term, b: i32, t: i32) -> Term {
    binary(
        Kind::Multiply,
        unary(
            Kind::Reshape(Dims::D3(b, t, cfg.h)),
            binary(
                Kind::Take { axis: 0 },
                embedding(),
                unary(Kind::Reshape(Dims::D1(REST)), ids),
            ),
        ),
        unary(Kind::Cast(Ty::Bf16), leaf(Kind::Const(Num::EmbScale))),
    )
}

/// A large negative number where `flags` is zero, zero elsewhere.
pub open spec fn hide_zeros_term(flags: Term) -> Term {
    ternary(
        Kind::Which,
        binary(Kind::Equal, flags, literal(0, 0)),
        literal(-1, 30),
        literal(0, 0),
    )
}

/// Queries or keys of layer `i`: projected, normalised, turned by their positions.
pub open spec fn turned_term(
    cfg: &KalmConfig,
    x: Term,
    side: Side,
    i: usize,
    part: Part,
    norm: Part,
    n: i32,
    b: i32,
    t: i32,
) -> Term {
    let lt = cfg.layer_type(side, i as int);
    rope_term(
        norm_term(prj_term(cfg, x, side, i, part, n, b, t), side, Slot::Layer(i, norm)),
        cos_term(side, lt, t),
        sin_term(side, lt, t),
        cfg.hd,
    )
}

/// Encoder layer `i` on the hidden states `h` under the padding mask.
pub open spec fn encoder_layer_term(
    cfg: &KalmConfig,
    h: Term,
    kp: Term,
    i: usize,
    b: i32,
    t: i32,
) -> Term {
    let side = Side::Encoder;
    let x = norm_term(h, side, Slot::Layer(i, Part::PreSelfAttnNorm));
    let q = turned_term(cfg, x, side, i, Part::QProj, Part::QNorm, cfg.nh, b, t);
    let k = turned_term(cfg, x, side, i, Part::KProj, Part::KNorm, cfg.nkv, b, t);
    let v = prj_term(cfg, x, side, i, Part::VProj, cfg.nkv, b, t);
    let o = quaternary(
        Kind::Attention(Num::AttnScale),
        q,
        repeat_kv_term(cfg, k),
        repeat_kv_term(cfg, v),
        kp,
    );
    block_tail_term(cfg, h, o, b, t, side, i)
}

/// The first `n` encoder layers.
pub open spec fn encoder_layers_term(
    cfg: &KalmConfig,
    h: Term,
    kp: Term,
    n: nat,
    b: i32,
    t: i32,
) -> Term
    decreases n,
{
    if n == 0 {
        h
    } else {
        encoder_layer_term(
            cfg,
            encoder_layers_term(cfg, h, kp, (n - 1) as nat, b, t),
            kp,
            (n - 1) as usize,
            b,
            t,
        )
    }
}

/// The encoder's states of a padded batch, normalised: `[b, t, h]`.
pub open spec fn encoder_states_term(
    cfg: &KalmConfig,
    ids: Term,
    am: Term,
    b: i32,
    t: i32,
) -> Term {
    let kp = unary(
        Kind::Cast(Ty::Bf16),
        hide_zeros_term(unary(Kind::Reshape(Dims::D4(b, 1, 1, t)), am)),
    );
    let h = encoder_layers_term(cfg, embedded_term(cfg, ids, b, t), kp, cfg.enl as nat, b, t);
    norm_term(h, Side::Encoder, Slot::FinalNorm)
}

/// The number of pooled vectors of `t` tokens: `t / CHUNK`, rounded up.
pub open spec fn chunk_count(t: int) -> int {
    (t + CHUNK - 1) / CHUNK as int
}

/// The number of positions that fill the last chunk of `t` tokens.
pub open spec fn chunk_pad(t: int) -> int {
    chunk_count(t) * CHUNK - t
}

/// `x`, `[b, t, ..]`, filled up with zeros of the given extents, if any are missing.
pub open spec fn filled_term(x: Term, missing: int, zeros: Dims) -> Term {
    if missing > 0 {
        binary(Kind::Concat { axis: 1 }, x, unary(Kind::ZerosLike(zeros), x))
    } else {
        x
    }
}

/// The mask grouped by chunks, `[b, n, CHUNK, 1]`.
pub open spec fn chunk_mask_term(am: Term, b: i32, t: i32) -> Term {
    let n = chunk_count(t as int) as i32;
    let pad = chunk_pad(t as int) as i32;
    unary(
        Kind::Cast(Ty::F32),
        unary(
            Kind::Reshape(Dims::D4(b, n, CHUNK, 1)),
            filled_term(am, chunk_pad(t as int), Dims::D2(b, pad)),
        ),
    )
}

/// The mean of the kept states of every chunk, `[b, n, h]`; a chunk without any
/// is zero.
pub open spec fn pooled_term(cfg: &KalmConfig, states: Term, am: Term, b: i32, t: i32) -> Term {
    let n = chunk_count(t as int) as i32;
    let pad = chunk_pad(t as int) as i32;
    let m = chunk_mask_term(am, b, t);
    let grouped = unary(
        Kind::Reshape(Dims::D4(b, n, CHUNK, cfg.h)),
        filled_term(states, chunk_pad(t as int), Dims::D3(b, pad, cfg.h)),
    );
    let num = unary(
        Kind::Sum { axis: 2, keep: false },
        binary(Kind::Multiply, unary(Kind::Cast(Ty::F32), grouped), m),
    );
    let den = binary(
        Kind::Maximum,
        unary(Kind::Sum { axis: 2, keep: false }, m),
        literal(1, 0),
    );
    unary(Kind::Cast(Ty::Bf16), binary(Kind::Divide, num, den))
}

/// One for every chunk that holds a kept token, else zero: `[b, n]`.
pub open spec fn pooled_mask_term(am: Term, b: i32, t: i32) -> Term {
    let n = chunk_count(t as int) as i32;
    let count = unary(
        Kind::Sum { axis: 2, keep: false },
        unary(Kind::Reshape(Dims::D3(b, n, CHUNK)), chunk_mask_term(am, b, t)),
    );
    unary(Kind::Cast(Ty::F32), binary(Kind::Greater, count, literal(0, 0)))
}

/// Decoder layer `i`: queries from the decoder's states; keys and values from
/// those states, turned by their positions, and behind them from the pooled
/// passage, not turned.
pub open spec fn decoder_layer_term(
    cfg: &KalmConfig,
    h: Term,
    pooled: Term,
    mm: Term,
    i: usize,
    b: i32,
    td: i32,
    ne: i32,
) -> Term {
    let side = Side::Decoder;
    let x = norm_term(h, side, Slot::Layer(i, Part::PreSelfAttnNorm));
    let q = turned_term(cfg, x, side, i, Part::QProj, Part::QNorm, cfg.nh, b, td);
    let sk = turned_term(cfg, x, side, i, Part::KProj, Part::KNorm, cfg.nkv, b, td);
    let sv = prj_term(cfg, x, side, i, Part::VProj, cfg.nkv, b, td);
    let ck = norm_term(
        prj_term(cfg, pooled, side, i, Part::KProj, cfg.nkv, b, ne),
        side,
        Slot::Layer(i, Part::KNorm),
    );
    let cv = prj_term(cfg, pooled, side, i, Part::VProj, cfg.nkv, b, ne);
    let o = quaternary(
        Kind::Attention(Num::AttnScale),
        q,
        repeat_kv_term(cfg, binary(Kind::Concat { axis: 2 }, sk, ck)),
        repeat_kv_term(cfg, binary(Kind::Concat { axis: 2 }, sv, cv)),
        mm,
    );
    block_tail_term(cfg, h, o, b, td, side, i)
}

/// The first `n` decoder layers.
pub open spec fn decoder_layers_term(
    cfg: &KalmConfig,
    h: Term,
    pooled: Term,
    mm: Term,
    n: nat,
    b: i32,
    td: i32,
    ne: i32,
) -> Term
    decreases n,
{
    if n == 0 {
        h
    } else {
        decoder_layer_term(
            cfg,
            decoder_layers_term(cfg, h, pooled, mm, (n - 1) as nat, b, td, ne),
            pooled,
            mm,
            (n - 1) as usize,
            b,
            td,
            ne,
        )
    }
}

/// The decoder's states of `b` prompts of `td` tokens, each over its own pooled
/// passage of `ne` vectors, normalised: `[b, td, h]`.
pub open spec fn decode_term(
    cfg: &KalmConfig,
    dids: Term,
    pooled: Term,
    mm: Term,
    b: i32,
    td: i32,
    ne: i32,
) -> Term {
    let h = decoder_layers_term(
        cfg,
        embedded_term(cfg, dids, b, td),
        pooled,
        mm,
        cfg.dnl as nat,
        b,
        td,
        ne,
    );
    norm_term(h, Side::Decoder, Slot::FinalNorm)
}

/// Inverse rotary frequencies of one stack's layers of one type:
/// `1 / theta^(2 i / head_dim) / factor`.
pub open spec fn invfreq_term(side: Side, lt: LayerType, hd: i32) -> Term {
    let exponent = binary(
        Kind::Divide,
        leaf(Kind::Arange { stop: hd, step: 2 }),
        literal(hd as int, 0),
    );
    let base = binary(Kind::Power, leaf(Kind::Const(Num::Theta(side, lt))), exponent);
    binary(
        Kind::Divide,
        unary(Kind::Reciprocal, base),
        leaf(Kind::Const(Num::Factor(side, lt))),
    )
}

/// Builds the program of the inverse rotary frequencies of one stack's layers
/// of one type; the second part of the result is the position of its value.
pub fn invfreq(side: Side, lt: LayerType, hd: i32) -> (r: (Graph, usize))
    ensures
        r.0.wf(),
        r.1 < r.0@.len(),
        r.0@[r.1 as int] == invfreq_term(side, lt, hd),
{
    let mut g = Graph::new();
    let j = g.op0(Kind::Arange { stop: hd, step: 2 });
    let width = g.number(hd as i64, 0);
    let exponent = g.op2(Kind::Divide, j, width);
    let theta = g.op0(Kind::Const(Num::Theta(side, lt)));
    let base = g.op2(Kind::Power, theta, exponent);
    let inv = g.op1(Kind::Reciprocal, base);
    let factor = g.op0(Kind::Const(Num::Factor(side, lt)));
    let out = g.op2(Kind::Divide, inv, factor);
    (g, out)
}

/// A loaded model: its configuration and the token ids of the two answers.
#[derive(Debug)]
pub struct KalmModel {
    pub cfg: KalmConfig,
    pub yes_id: u32,
    pub no_id: u32,
}

impl KalmModel {
    /// Adds `x` normalised with the weight `w`.
    pub fn rms(g: &mut Graph, x: usize, w: usize) -> (r: usize)
        requires
            old(g).wf(),
            x < old(g)@.len(),
            w < old(g)@.len(),
        ensures
            final(g).wf(),
            extends(final(g)@, old(g)@),
            r < final(g)@.len(),
            final(g)@[r as int] == rms_term(old(g)@[x as int], old(g)@[w as int]),
    {
        let xf = g.op1(Kind::Cast(Ty::F32), x);
        let square = g.op2(Kind::Multiply, xf, xf);
        let ms = g.op1(Kind::Mean { axis: -1, keep: true }, square);
        let eps = g.op0(Kind::Const(Num::Eps));
        let shifted = g.op2(Kind::Add, ms, eps);
        let inv = g.op1(Kind::Rsqrt, shifted);
        let o = g.op2(Kind::Multiply, xf, inv);
        let wf = g.op1(Kind::Cast(Ty::F32), w);
        let one = g.number(1, 0);
        let scale = g.op2(Kind::Add, one, wf);
        let scaled = g.op2(Kind::Multiply, o, scale);
        g.op2(Kind::CastLike, scaled, x)
    }

    /// Adds `x` normalised with the weight of a slot.
    pub fn rms_k(g: &mut Graph, x: usize, side: Side, slot: Slot) -> (r: usize)
        requires
            old(g).wf(),
            x < old(g)@.len(),
        ensures
            final(g).wf(),
            extends(final(g)@, old(g)@),
            r < final(g)@.len(),
            final(g)@[r as int] == norm_term(old(g)@[x as int], side, slot),
    {
        let w = g.op0(Kind::Weight(WeightKey { stack: Stack::Kalm(side), slot }));
        Self::rms(g, x, w)
    }

    /// Adds the tanh form of the Gaussian error linear unit of `x`.
    pub fn gelu(g: &mut Graph, x: usize) -> (r: usize)
        requires
            old(g).wf(),
            x < old(g)@.len(),
        ensures
            final(g).wf(),
            extends(final(g)@, old(g)@),
            r < final(g)@.len(),
            final(g)@[r as int] == gelu_term(old(g)@[x as int]),
    {
        let x2 = g.op2(Kind::Multiply, x, x);
        let x3 = g.op2(Kind::Multiply, x2, x);
        let cubic = g.number(44715, -6);
        let x3 = g.op2(Kind::Multiply, x3, cubic);
        let inner = g.op2(Kind::Add, x, x3);
        let slope = g.number(7978845608028654, -16);
        let inner = g.op2(Kind::Multiply, inner, slope);
        let t = g.op1(Kind::Tanh, inner);
        let one = g.number(1, 0);
        let gate = g.op2(Kind::Add, t, one);
        let half = g.number(5, -1);
        let halved = g.op2(Kind::Multiply, x, half);
        let out = g.op2(Kind::Multiply, halved, gate);
        g.op2(Kind::CastLike, out, x)
    }

    /// Adds the cosines and sines of the rotary angles of `t` positions.
    pub fn cs(g: &mut Graph, side: Side, lt: LayerType, t: i32) -> (r: (usize, usize))
        requires
            old(g).wf(),
        ensures
            final(g).wf(),
            extends(final(g)@, old(g)@),
            r.0 < final(g)@.len(),
            r.1 < final(g)@.len(),
            final(g)@[r.0 as int] == cos_term(side, lt, t),
            final(g)@[r.1 as int] == sin_term(side, lt, t),
    {
        let pos = g.op0(Kind::Arange { stop: t, step: 1 });
        let pos = g.op1(Kind::Reshape(Dims::D2(t, 1)), pos);
        let inv = g.op0(Kind::InvFreq(side, lt));
        let inv = g.op1(Kind::Reshape(Dims::D2(1, REST)), inv);
        let fr = g.op2(Kind::Multiply, pos, inv);
        let both = g.op2(Kind::Concat { axis: -1 }, fr, fr);
        let angles = g.op1(Kind::Reshape(Dims::D4(1, 1, t, REST)), both);
        let cos = g.op1(Kind::Cos, angles);
        let cos = g.op1(Kind::Cast(Ty::Bf16), cos);
        let sin = g.op1(Kind::Sin, angles);
        let sin = g.op1(Kind::Cast(Ty::Bf16), sin);
        (cos, sin)
    }

    /// Adds the rotary embedding of `x` with cosines `c` and sines `s`.
    pub fn rope(&self, g: &mut Graph, x: usize, c: usize, s: usize) -> (r: usize)
        requires
            old(g).wf(),
            x < old(g)@.len(),
            c < old(g)@.len(),
            s < old(g)@.len(),
        ensures
            final(g).wf(),
            extends(final(g)@, old(g)@),
            r < final(g)@.len(),
            final(g)@[r as int] == rope_term(old(g)@[x as int], old(g)@[c as int], old(g)@[s as int], self.cfg.hd),
    {
        let hd = self.cfg.hd;
        let half: i32 = hd / 2;
        let x1 = g.op1(Kind::SliceLast { from: 0, to: half }, x);
        let x2 = g.op1(Kind::SliceLast { from: half, to: hd }, x);
        let minus = g.number(-1, 0);
        let neg_x2 = g.op2(Kind::Multiply, x2, minus);
        let rot = g.op2(Kind::Concat { axis: -1 }, neg_x2, x1);
        let xc = g.op2(Kind::Multiply, x, c);
        let rs = g.op2(Kind::Multiply, rot, s);
        let sum = g.op2(Kind::Add, xc, rs);
        g.op2(Kind::CastLike, sum, x)
    }

    /// Adds `x @ w.T` for a weight of layer `i`.
    fn times(g: &mut Graph, x: usize, side: Side, i: usize, part: Part) -> (r: usize)
        requires
            old(g).wf(),
            x < old(g)@.len(),
        ensures
            final(g).wf(),
            extends(final(g)@, old(g)@),
            r < final(g)@.len(),
            final(g)@[r as int] == times_term(old(g)@[x as int], side, i, part),
    {
        let w = g.op0(
            Kind::Weight(WeightKey { stack: Stack::Kalm(side), slot: Slot::Layer(i, part) }),
        );
        let wt = g.op1(Kind::Transpose, w);
        g.op2(Kind::Matmul, x, wt)
    }

    /// Adds `x`, an array `[b, t, h]`, projected to `n` heads.
    pub fn prj(
        &self,
        g: &mut Graph,
        x: usize,
        side: Side,
        i: usize,
        part: Part,
        n: i32,
        b: i32,
        t: i32,
    ) -> (r: usize)
        requires
            old(g).wf(),
            x < old(g)@.len(),
        ensures
            final(g).wf(),
            extends(final(g)@, old(g)@),
            r < final(g)@.len(),
            final(g)@[r as int] == prj_term(&self.cfg, old(g)@[x as int], side, i, part, n, b, t),
    {
        let y = Self::times(g, x, side, i, part);
        let y = g.op1(Kind::Reshape(Dims::D4(b, t, n, self.cfg.hd)), y);
        g.op1(Kind::Permute(Dims::D4(0, 2, 1, 3)), y)
    }

    /// Adds every key or value head as often in a row as there are query heads.
    pub fn repeat_kv(&self, g: &mut Graph, x: usize) -> (r: usize)
        requires
            old(g).wf(),
            x < old(g)@.len(),
        ensures
            final(g).wf(),
            extends(final(g)@, old(g)@),
            r < final(g)@.len(),
            final(g)@[r as int] == repeat_kv_term(&self.cfg, old(g)@[x as int]),
    {
        g.op1(Kind::Repeat { count: self.cfg.nh, axis: 1 }, x)
    }

    fn after_attention(
        &self,
        g: &mut Graph,
        h: usize,
        attn_out: usize,
        b: i32,
        t: i32,
        side: Side,
        i: usize,
    ) -> (r: usize)
        requires
            old(g).wf(),
            self.cfg.wf(),
            h < old(g)@.len(),
            attn_out < old(g)@.len(),
        ensures
            final(g).wf(),
            extends(final(g)@, old(g)@),
            r < final(g)@.len(),
            final(g)@[r as int] == after_attention_term(&self.cfg, old(g)@[h as int], old(g)@[attn_out as int], b, t, side, i),
    {
        let merged = g.op1(Kind::Permute(Dims::D4(0, 2, 1, 3)), attn_out);
        let merged = g.op1(Kind::Reshape(Dims::D3(b, t, self.cfg.nh * self.cfg.hd)), merged);
        let o = Self::times(g, merged, side, i, Part::OProj);
        let o = Self::rms_k(g, o, side, Slot::Layer(i, Part::PostSelfAttnNorm));
        g.op2(Kind::Add, h, o)
    }

    fn feedforward(g: &mut Graph, h: usize, side: Side, i: usize) -> (r: usize)
        requires
            old(g).wf(),
            h < old(g)@.len(),
        ensures
            final(g).wf(),
            extends(final(g)@, old(g)@),
            r < final(g)@.len(),
            final(g)@[r as int] == feedforward_term(old(g)@[h as int], side, i),
    {
        let x = Self::rms_k(g, h, side, Slot::Layer(i, Part::PreFeedforwardNorm));
        let gate = Self::times(g, x, side, i, Part::GateProj);
        let gate = Self::gelu(g, gate);
        let up = Self::times(g, x, side, i, Part::UpProj);
        let act = g.op2(Kind::Multiply, gate, up);
        let down = Self::times(g, act, side, i, Part::DownProj);
        let down = Self::rms_k(g, down, side, Slot::Layer(i, Part::PostFeedforwardNorm));
        g.op2(Kind::Add, h, down)
    }

    /// Adds what follows the attention of layer `i`: the projection of its output
    /// and the gated feed-forward, each normalised and added to what it started from.
    pub fn block_tail(
        &self,
        g: &mut Graph,
        h: usize,
        attn_out: usize,
        b: i32,
        t: i32,
        side: Side,
        i: usize,
    ) -> (r: usize)
        requires
            old(g).wf(),
            self.cfg.wf(),
            h < old(g)@.len(),
            attn_out < old(g)@.len(),
        ensures
            final(g).wf(),
            extends(final(g)@, old(g)@),
            r < final(g)@.len(),
            final(g)@[r as int] == block_tail_term(&self.cfg, old(g)@[h as int], old(g)@[attn_out as int], b, t, side, i),
    {
        let mid = self.after_attention(g, h, attn_out, b, t, side, i);
        Self::feedforward(g, mid, side, i)
    }

    /// Adds the scaled embeddings of token ids.
    fn embed(&self, g: &mut Graph, ids: usize, b: i32, t: i32) -> (r: usize)
        requires
            old(g).wf(),
            ids < old(g)@.len(),
        ensures
            final(g).wf(),
            extends(final(g)@, old(g)@),
            r < final(g)@.len(),
            final(g)@[r as int] == embedded_term(&self.cfg, old(g)@[ids as int], b, t),
    {
        let flat = g.op1(Kind::Reshape(Dims::D1(REST)), ids);
        let table = g.op0(
            Kind::Weight(
                WeightKey { stack: Stack::Kalm(Side::Encoder), slot: Slot::Embedding },
            ),
        );
        let rows = g.op2(Kind::Take { axis: 0 }, table, flat);
        let rows = g.op1(Kind::Reshape(Dims::D3(b, t, self.cfg.h)), rows);
        let scale = g.op0(Kind::Const(Num::EmbScale));
        let scale = g.op1(Kind::Cast(Ty::Bf16), scale);
        g.op2(Kind::Multiply, rows, scale)
    }

    /// Adds a large negative number where `flags` is zero, zero elsewhere.
    pub fn hide_zeros(g: &mut Graph, flags: usize) -> (r: usize)
        requires
            old(g).wf(),
            flags < old(g)@.len(),
        ensures
            final(g).wf(),
            extends(final(g)@, old(g)@),
            r < final(g)@.len(),
            final(g)@[r as int] == hide_zeros_term(old(g)@[flags as int]),
    {
        let zero = g.number(0, 0);
        let is_zero = g.op2(Kind::Equal, flags, zero);
        let neg = g.number(-1, 30);
        g.op3(Kind::Which, is_zero, neg, zero)
    }

    /// Adds queries or keys of layer `i`, with cosines `c` and sines `s`.
    fn turned(
        &self,
        g: &mut Graph,
        x: usize,
        c: usize,
        s: usize,
        side: Side,
        i: usize,
        part: Part,
        norm: Part,
        n: i32,
        b: i32,
        t: i32,
    ) -> (r: usize)
        requires
            old(g).wf(),
            x < old(g)@.len(),
            c < old(g)@.len(),
            s < old(g)@.len(),
            old(g)@[c as int] == cos_term(side, self.cfg.layer_type(side, i as int), t),
            old(g)@[s as int] == sin_term(side, self.cfg.layer_type(side, i as int), t),
        ensures
            final(g).wf(),
            extends(final(g)@, old(g)@),
            r < final(g)@.len(),
            final(g)@[r as int] == turned_term(&self.cfg, old(g)@[x as int], side, i, part, norm, n, b, t),
    {
        let y = self.prj(g, x, side, i, part, n, b, t);
        let y = Self::rms_k(g, y, side, Slot::Layer(i, norm));
        self.rope(g, y, c, s)
    }

    /// Adds encoder layer `i`, with cosines `c` and sines `s` of its type.
    fn encoder_layer(
        &self,
        g: &mut Graph,
        h: usize,
        kp: usize,
        c: usize,
        s: usize,
        i: usize,
        b: i32,
        t: i32,
    ) -> (r: usize)
        requires
            old(g).wf(),
            self.cfg.wf(),
            h < old(g)@.len(),
            kp < old(g)@.len(),
            c < old(g)@.len(),
            s < old(g)@.len(),
            old(g)@[c as int] == cos_term(
                Side::Encoder,
                self.cfg.layer_type(Side::Encoder, i as int),
                t,
            ),
            old(g)@[s as int] == sin_term(
                Side::Encoder,
                self.cfg.layer_type(Side::Encoder, i as int),
                t,
            ),
        ensures
            final(g).wf(),
            extends(final(g)@, old(g)@),
            r < final(g)@.len(),
            final(g)@[r as int] == encoder_layer_term(
                &self.cfg,
                old(g)@[h as int],
                old(g)@[kp as int],
                i,
                b,
                t,
            ),
    {
        let side = Side::Encoder;
        let nh = self.cfg.nh;
        let nkv = self.cfg.nkv;
        let x = Self::rms_k(g, h, side, Slot::Layer(i, Part::PreSelfAttnNorm));
        let q = self.turned(g, x, c, s, side, i, Part::QProj, Part::QNorm, nh, b, t);
        let k = self.turned(g, x, c, s, side, i, Part::KProj, Part::KNorm, nkv, b, t);
        let v = self.prj(g, x, side, i, Part::VProj, nkv, b, t);
        let kr = self.repeat_kv(g, k);
        let vr = self.repeat_kv(g, v);
        let o = g.op4(Kind::Attention(Num::AttnScale), q, kr, vr, kp);
        self.block_tail(g, h, o, b, t, side, i)
    }

    /// Adds the encoder's normalised states of the padded batch `ids` with mask `am`.
    fn encoder_states(&self, g: &mut Graph, ids: usize, am: usize, b: i32, t: i32) -> (r: usize)
        requires
            old(g).wf(),
            self.cfg.wf(),
            ids < old(g)@.len(),
            am < old(g)@.len(),
        ensures
            final(g).wf(),
            extends(final(g)@, old(g)@),
            r < final(g)@.len(),
            final(g)@[r as int] == encoder_states_term(
                &self.cfg,
                old(g)@[ids as int],
                old(g)@[am as int],
                b,
                t,
            ),
    {
        let side = Side::Encoder;
        let mut h = self.embed(g, ids, b, t);
        let am4 = g.op1(Kind::Reshape(Dims::D4(b, 1, 1, t)), am);
        let kp = Self::hide_zeros(g, am4);
        let kp = g.op1(Kind::Cast(Ty::Bf16), kp);
        let ghost h0 = g@[h as int];
        let ghost mask = g@[kp as int];
        let full = Self::cs(g, side, LayerType::Full, t);
        let slide = Self::cs(g, side, LayerType::Sliding, t);
        let mut i: usize = 0;
        while i < self.cfg.enl
            invariant
                g.wf(),
                self.cfg.wf(),
                side == Side::Encoder,
                extends(g@, old(g)@),
                i <= self.cfg.enl,
                h < g@.len(),
                kp < g@.len(),
                full.0 < g@.len(),
                full.1 < g@.len(),
                slide.0 < g@.len(),
                slide.1 < g@.len(),
                g@[kp as int] == mask,
                g@[full.0 as int] == cos_term(side, LayerType::Full, t),
                g@[full.1 as int] == sin_term(side, LayerType::Full, t),
                g@[slide.0 as int] == cos_term(side, LayerType::Sliding, t),
                g@[slide.1 as int] == sin_term(side, LayerType::Sliding, t),
                g@[h as int] == encoder_layers_term(&self.cfg, h0, mask, i as nat, b, t),
            decreases self.cfg.enl - i,
        {
            let (c, s) = match self.cfg.type_of_layer(side, i) {
                LayerType::Full => full,
                LayerType::Sliding => slide,
            };
            h = self.encoder_layer(g, h, kp, c, s, i, b, t);
            i += 1;
        }
        Self::rms_k(g, h, side, Slot::FinalNorm)
    }

    /// Adds zeros of the given extents behind `x` along its second axis, if any
    /// positions are missing.
    pub fn filled(g: &mut Graph, x: usize, missing: i32, zeros: Dims) -> (r: usize)
        requires
            old(g).wf(),
            x < old(g)@.len(),
        ensures
            final(g).wf(),
            extends(final(g)@, old(g)@),
            r < final(g)@.len(),
            final(g)@[r as int] == filled_term(old(g)@[x as int], missing as int, zeros),
    {
        if missing > 0 {
            let z = g.op1(Kind::ZerosLike(zeros), x);
            g.op2(Kind::Concat { axis: 1 }, x, z)
        } else {
            x
        }
    }

    /// Adds the encoder on a padded batch `ids` of `b` rows of `t` tokens with
    /// mask `am`, and returns the positions of the pooled states and of their mask.
    pub fn encode(&self, g: &mut Graph, ids: usize, am: usize, b: i32, t: i32) -> (r: (
        usize,
        usize,
    ))
        requires
            old(g).wf(),
            self.cfg.wf(),
            ids < old(g)@.len(),
            am < old(g)@.len(),
            0 <= t <= i32::MAX - CHUNK,
        ensures
            final(g).wf(),
            extends(final(g)@, old(g)@),
            r.0 < final(g)@.len(),
            r.1 < final(g)@.len(),
            final(g)@[r.0 as int] == pooled_term(
                &self.cfg,
                encoder_states_term(&self.cfg, old(g)@[ids as int], old(g)@[am as int], b, t),
                old(g)@[am as int],
                b,
                t,
            ),
            final(g)@[r.1 as int] == pooled_mask_term(old(g)@[am as int], b, t),
    {
        let states = self.encoder_states(g, ids, am, b, t);
        self.pool(g, states, am, b, t)
    }

    /// Adds the mean of the kept states of every chunk of tokens, and one for
    /// every chunk that holds a kept token.
    pub fn pool(&self, g: &mut Graph, states: usize, am: usize, b: i32, t: i32) -> (r: (
        usize,
        usize,
    ))
        requires
            old(g).wf(),
            states < old(g)@.len(),
            am < old(g)@.len(),
            0 <= t <= i32::MAX - CHUNK,
        ensures
            final(g).wf(),
            extends(final(g)@, old(g)@),
            r.0 < final(g)@.len(),
            r.1 < final(g)@.len(),
            final(g)@[r.0 as int] == pooled_term(
                &self.cfg,
                old(g)@[states as int],
                old(g)@[am as int],
                b,
                t,
            ),
            final(g)@[r.1 as int] == pooled_mask_term(old(g)@[am as int], b, t),
    {
        let width = self.cfg.h;
        let n: i32 = (t + CHUNK - 1) / CHUNK;
        let pad: i32 = n * CHUNK - t;
        let m = Self::filled(g, am, pad, Dims::D2(b, pad));
        let m = g.op1(Kind::Reshape(Dims::D4(b, n, CHUNK, 1)), m);
        let m = g.op1(Kind::Cast(Ty::F32), m);
        assert(g@[m as int] == chunk_mask_term(old(g)@[am as int], b, t));
        let grouped = Self::filled(g, states, pad, Dims::D3(b, pad, width));
        let grouped = g.op1(Kind::Reshape(Dims::D4(b, n, CHUNK, width)), grouped);
        let grouped = g.op1(Kind::Cast(Ty::F32), grouped);
        let kept = g.op2(Kind::Multiply, grouped, m);
        let num = g.op1(Kind::Sum { axis: 2, keep: false }, kept);
        let den = g.op1(Kind::Sum { axis: 2, keep: false }, m);
        let one = g.number(1, 0);
        let den = g.op2(Kind::Maximum, den, one);
        let mean = g.op2(Kind::Divide, num, den);
        let pooled = g.op1(Kind::Cast(Ty::Bf16), mean);
        let flags = g.op1(Kind::Reshape(Dims::D3(b, n, CHUNK)), m);
        let count = g.op1(Kind::Sum { axis: 2, keep: false }, flags);
        let zero = g.number(0, 0);
        let some = g.op2(Kind::Greater, count, zero);
        let pmask = g.op1(Kind::Cast(Ty::F32), some);
        (pooled, pmask)
    }

    /// Adds decoder layer `i`, with cosines `c` and sines `s` of its type.
    fn decoder_layer(
        &self,
        g: &mut Graph,
        h: usize,
        pooled: usize,
        mm: usize,
        c: usize,
        s: usize,
        i: usize,
        b: i32,
        td: i32,
        ne: i32,
    ) -> (r: usize)
        requires
            old(g).wf(),
            self.cfg.wf(),
            h < old(g)@.len(),
            pooled < old(g)@.len(),
            mm < old(g)@.len(),
            c < old(g)@.len(),
            s < old(g)@.len(),
            old(g)@[c as int] == cos_term(
                Side::Decoder,
                self.cfg.layer_type(Side::Decoder, i as int),
                td,
            ),
            old(g)@[s as int] == sin_term(
                Side::Decoder,
                self.cfg.layer_type(Side::Decoder, i as int),
                td,
            ),
        ensures
            final(g).wf(),
            extends(final(g)@, old(g)@),
            r < final(g)@.len(),
            final(g)@[r as int] == decoder_layer_term(
                &self.cfg,
                old(g)@[h as int],
                old(g)@[pooled as int],
                old(g)@[mm as int],
                i,
                b,
                td,
                ne,
            ),
    {
        let side = Side::Decoder;
        let nh = self.cfg.nh;
        let nkv = self.cfg.nkv;
        let x = Self::rms_k(g, h, side, Slot::Layer(i, Part::PreSelfAttnNorm));
        let q = self.turned(g, x, c, s, side, i, Part::QProj, Part::QNorm, nh, b, td);
        let sk = self.turned(g, x, c, s, side, i, Part::KProj, Part::KNorm, nkv, b, td);
        let sv = self.prj(g, x, side, i, Part::VProj, nkv, b, td);
        let ck = self.prj(g, pooled, side, i, Part::KProj, nkv, b, ne);
        let cv = self.prj(g, pooled, side, i, Part::VProj, nkv, b, ne);
        let ck = Self::rms_k(g, ck, side, Slot::Layer(i, Part::KNorm));
        let key = g.op2(Kind::Concat { axis: 2 }, sk, ck);
        let val = g.op2(Kind::Concat { axis: 2 }, sv, cv);
        let key = self.repeat_kv(g, key);
        let val = self.repeat_kv(g, val);
        let o = g.op4(Kind::Attention(Num::AttnScale), q, key, val, mm);
        self.block_tail(g, h, o, b, td, side, i)
    }

    /// Adds the decoder on `b` prompts `dids` of `td` tokens, each over its own
    /// pooled passage of `ne` vectors, under the additive mask `mm`.
    pub fn decode(
        &self,
        g: &mut Graph,
        dids: usize,
        pooled: usize,
        mm: usize,
        b: i32,
        td: i32,
        ne: i32,
    ) -> (r: usize)
        requires
            old(g).wf(),
            self.cfg.wf(),
            dids < old(g)@.len(),
            pooled < old(g)@.len(),
            mm < old(g)@.len(),
        ensures
            final(g).wf(),
            extends(final(g)@, old(g)@),
            r < final(g)@.len(),
            final(g)@[r as int] == decode_term(
                &self.cfg,
                old(g)@[dids as int],
                old(g)@[pooled as int],
                old(g)@[mm as int],
                b,
                td,
                ne,
            ),
    {
        let side = Side::Decoder;
        let ghost passage = g@[pooled as int];
        let ghost mask = g@[mm as int];
        let mut h = self.embed(g, dids, b, td);
        let ghost h0 = g@[h as int];
        let full = Self::cs(g, side, LayerType::Full, td);
        let slide = Self::cs(g, side, LayerType::Sliding, td);
        let mut i: usize = 0;
        while i < self.cfg.dnl
            invariant
                g.wf(),
                self.cfg.wf(),
                side == Side::Decoder,
                extends(g@, old(g)@),
                i <= self.cfg.dnl,
                h < g@.len(),
                pooled < g@.len(),
                mm < g@.len(),
                full.0 < g@.len(),
                full.1 < g@.len(),
                slide.0 < g@.len(),
                slide.1 < g@.len(),
                g@[pooled as int] == passage,
                g@[mm as int] == mask,
                g@[full.0 as int] == cos_term(side, LayerType::Full, td),
                g@[full.1 as int] == sin_term(side, LayerType::Full, td),
                g@[slide.0 as int] == cos_term(side, LayerType::Sliding, td),
                g@[slide.1 as int] == sin_term(side, LayerType::Sliding, td),
                g@[h as int] == decoder_layers_term(
                    &self.cfg,
                    h0,
                    passage,
                    mask,
                    i as nat,
                    b,
                    td,
                    ne,
                ),
            decreases self.cfg.dnl - i,
        {
            let (c, s) = match self.cfg.type_of_layer(side, i) {
                LayerType::Full => full,
                LayerType::Sliding => slide,
            };
            h = self.decoder_layer(g, h, pooled, mm, c, s, i, b, td, ne);
            i += 1;
        }
        Self::rms_k(g, h, side, Slot::FinalNorm)
    }
}

} // verus!
