//! Every row of the cross-encoder's padded batch is scored by itself.

use crate::batch::{law_padding_keeps_tokens, lemma_padded_width_bounds};
use crate::batch::{padded_ids, padded_mask, padded_width};
use crate::graph::{binary, dec, leaf, literal, quaternary, ternary, unary};
use crate::graph::{Dims, Kind, Part, Slot, Stack, Term, Ty, WeightKey, REST};
use crate::meaning::{ignores_padding, in_range, project, value, zero, Arithmetic, Val};
use crate::meaning::lemma_value0;
use crate::nemotron::{attend_term, attention_term, embedded_term, forward_term, keep_term};
use crate::nemotron::{layers_term, linear_term, mean_pool_term, mlp_term};
use crate::nemotron::{padding_mask_term, rms_eps, rms_norm_term, rope_term, split_heads_term};
use crate::nemotron::{weight, HALF_DIM, HEAD_DIM, HIDDEN, N_HEADS, N_KV_HEADS, N_LAYERS};
use crate::nemotron_shapes::weight_extents;
use crate::parts::{first, is_part, is_shared, second, Pair};
use crate::parts::{part_attention, part_embedded, part_join_heads, part_linear, part_map};
use crate::parts::{part_rms, part_rope, part_split_heads, part_sum, part_zip, part_zip_number};
use crate::parts::{lemma_cast_at, lemma_zip_at, part_column, part_drop_column, part_keys};
use crate::parts::{part_which, part_zip_same, shared_leaf, shared_map, shared_number};
use crate::shapes::{extents, known_extents, lemma_product, lemma_reshaped_rest, reshaped};
use crate::types::Elem;
use crate::window_sums::{is_behind, is_hidden};
use crate::windows::shifted;
use vstd::prelude::*;

verus! {

/// Numbers in rows of `s` as an array.
pub open spec fn batch_array<E>(ar: Arithmetic<E>, list: Seq<i32>, b: int, s: int) -> Val<E> {
    Val {
        shape: seq![b, s],
        elem: Elem::Int,
        at: |i: Seq<int>| (ar.whole)(list[i[0] * s + i[1]] as int),
    }
}

/// The weights of a model and its rotary frequencies.
#[verifier::reject_recursive_types(E)]
pub struct Weights<E> {
    pub at: spec_fn(WeightKey) -> Val<E>,
    pub freqs: Val<E>,
}

/// Whether weights have the extents of the model's slots.
pub open spec fn weights_fit<E>(w: Weights<E>, vocab: int, inner: int) -> bool {
    &&& vocab >= 0
    &&& inner >= 0
    &&& w.freqs.shape == seq![HALF_DIM as int]
    &&& forall|slot: Slot|
        #![trigger weight_extents(slot, vocab, inner)]
        weight_extents(slot, vocab, inner) is Some ==> (w.at)(
            WeightKey { stack: Stack::Nemotron, slot },
        ).shape == weight_extents(slot, vocab, inner)->0
}

/// The arrays that the forward pass of a padded batch starts from.
pub open spec fn batch_inputs<E>(
    ar: Arithmetic<E>,
    w: Weights<E>,
    rows: Seq<Seq<u32>>,
) -> spec_fn(Kind) -> Val<E> {
    let (b, s) = (rows.len() as int, padded_width(rows));
    |kind: Kind|
        match kind {
            Kind::Mask(_) => batch_array(ar, padded_mask(rows, s, (b * s) as nat), b, s),
            Kind::Weight(key) => (w.at)(key),
            Kind::Freqs => w.freqs,
            _ => batch_array(ar, padded_ids(rows, s, (b * s) as nat), b, s),
        }
}

/// The score of row `r` in a padded batch.
pub open spec fn batch_score<E>(
    ar: Arithmetic<E>,
    w: Weights<E>,
    rows: Seq<Seq<u32>>,
    r: int,
) -> E {
    let t = forward_term(rows.len() as i32, padded_width(rows) as i32);
    (value(ar, batch_inputs(ar, w, rows), t).at)(seq![r])
}

/// The score of a row in a batch of its own.
pub open spec fn own_score<E>(ar: Arithmetic<E>, w: Weights<E>, row: Seq<u32>) -> E {
    batch_score(ar, w, seq![row], 0)
}

/// Whether two programs share the model's weights and rotary frequencies.
pub open spec fn share_model<E>(p: Pair<E>, vocab: int, inner: int) -> bool {
    &&& inner >= 0
    &&& forall|slot: Slot|
        #![trigger weight(slot)]
        weight_extents(slot, vocab, inner) is Some ==> is_shared(
            p,
            weight(slot),
            weight(slot),
            weight_extents(slot, vocab, inner)->0,
        )
    &&& is_shared(p, leaf(Kind::Freqs), leaf(Kind::Freqs), seq![HALF_DIM as int])
}

/// A batch of `b` rows of `s` tokens beside one of its rows, of which `w` tokens are
/// kept; both programs have the same weights.
pub open spec fn is_beside<E>(
    p: Pair<E>,
    b: i32,
    s: i32,
    w: i32,
    r: int,
    vocab: int,
    inner: int,
) -> bool {
    &&& 0 < b
    &&& 0 < w <= s
    &&& 0 <= r < b
    &&& ignores_padding(p.ar)
    &&& share_model(p, vocab, inner)
    &&& is_part(
        p,
        leaf(Kind::Ids(0)),
        leaf(Kind::Ids(0)),
        seq![b as int, s as int],
        seq![1, w as int],
        seq![r, 0],
    )
    &&& is_part(
        p,
        leaf(Kind::Mask(0)),
        leaf(Kind::Mask(0)),
        seq![b as int, s as int],
        seq![1, w as int],
        seq![r, 0],
    )
    &&& forall|c: int|
        w <= c < s ==> (first(p, leaf(Kind::Mask(0))).at)(#[trigger] seq_at(r, c)) == zero(p.ar)
}

/// The index of token `c` of row `r`.
pub open spec fn seq_at(r: int, c: int) -> Seq<int> {
    seq![r, c]
}

/// Hidden states of `b` rows of `s` tokens, with `n` numbers for each.
spec fn states(b: i32, s: i32, n: int) -> Seq<int> {
    seq![b as int, s as int, n]
}

/// Whether two terms are the hidden states of a batch and of one of its rows.
spec fn are_states<E>(
    p: Pair<E>,
    t1: Term,
    t2: Term,
    b: i32,
    s: i32,
    w: i32,
    r: int,
    n: int,
) -> bool {
    is_part(p, t1, t2, states(b, s, n), states(1, w, n), seq![r, 0, 0])
}

proof fn row_linear<E>(
    p: Pair<E>,
    t1: Term,
    t2: Term,
    slot: Slot,
    b: i32,
    s: i32,
    w: i32,
    r: int,
    vocab: int,
    inner: int,
    from: int,
    to: int,
)
    requires
        is_beside(p, b, s, w, r, vocab, inner),
        are_states(p, t1, t2, b, s, w, r, from),
        weight_extents(slot, vocab, inner) == Some(seq![to, from]),
        to >= 0,
    ensures
        are_states(p, linear_term(t1, slot), linear_term(t2, slot), b, s, w, r, to),
{
    let (l1, l2) = (seq![b as int, s as int], seq![1, w as int]);
    assert(l1.push(from) =~= states(b, s, from) && l2.push(from) =~= states(1, w, from));
    assert(l1.push(to) =~= states(b, s, to) && l2.push(to) =~= states(1, w, to));
    let wt = weight(slot);
    part_linear(p, t1, t2, l1, l2, seq![r, 0, 0], wt, from, to);
}

proof fn row_norm<E>(
    p: Pair<E>,
    t1: Term,
    t2: Term,
    slot: Slot,
    b: i32,
    s: i32,
    w: i32,
    r: int,
    vocab: int,
    inner: int,
)
    requires
        is_beside(p, b, s, w, r, vocab, inner),
        are_states(p, t1, t2, b, s, w, r, HIDDEN as int),
        weight_extents(slot, vocab, inner) == Some(seq![HIDDEN as int]),
    ensures
        are_states(
            p,
            rms_norm_term(t1, slot),
            rms_norm_term(t2, slot),
            b,
            s,
            w,
            r,
            HIDDEN as int,
        ),
{
    let h = HIDDEN as int;
    let wt = weight(slot);
    part_rms(
        p,
        Kind::FastRmsNorm(rms_eps()),
        t1,
        t2,
        states(b, s, h),
        states(1, w, h),
        seq![r, 0, 0],
        wt,
    );
}

/// Whether two terms are the additive masks of a batch and of one of its rows, with
/// every key behind the row hidden.
spec fn are_masks<E>(p: Pair<E>, m1: Term, m2: Term, b: i32, s: i32, w: i32, r: int) -> bool {
    &&& is_part(
        p,
        m1,
        m2,
        seq![b as int, 1, 1, s as int],
        seq![1, 1, 1, w as int],
        seq![r, 0, 0, 0],
    )
    &&& is_hidden(p.ar, first(p, m1), second(p, m2), seq![r, 0, 0, 0], 3)
}

/// The heads of a position side by side.
pub proof fn lemma_side_by_side(b: i32, s: i32)
    requires
        0 < b,
        0 < s,
    ensures
        reshaped(
            seq![b as int, s as int, N_HEADS as int, HEAD_DIM as int],
            extents(Dims::D3(b, s, REST)),
        ) == Some(seq![b as int, s as int, N_HEADS * HEAD_DIM]),
{
    let side = seq![b as int, s as int, N_HEADS as int, HEAD_DIM as int];
    let open = seq![b as int, s as int, -1int];
    assert(extents(Dims::D3(b, s, REST)) =~= open);
    assert(known_extents(open) =~= seq![b as int, s as int, 1int]);
    lemma_product(b as int, s as int, N_HEADS as int, HEAD_DIM as int);
    lemma_product(b as int, s as int, 1, 1);
    assert(b * s * 32 * 64 == b * s * 1 * 2048) by (nonlinear_arith);
    assert(b * s * 1 > 0) by (nonlinear_arith)
        requires
            0 < b,
            0 < s,
    ;
    lemma_reshaped_rest(side, open, 2, 2048);
    assert(open.update(2, 2048) =~= seq![b as int, s as int, N_HEADS * HEAD_DIM]);
}

proof fn row_attend<E>(
    p: Pair<E>,
    q1: Term,
    q2: Term,
    k1: Term,
    k2: Term,
    v1: Term,
    v2: Term,
    m1: Term,
    m2: Term,
    b: i32,
    s: i32,
    w: i32,
    r: int,
    vocab: int,
    inner: int,
)
    requires
        is_beside(p, b, s, w, r, vocab, inner),
        are_states(p, q1, q2, b, s, w, r, N_HEADS * HEAD_DIM),
        are_states(p, k1, k2, b, s, w, r, N_KV_HEADS * HEAD_DIM),
        are_states(p, v1, v2, b, s, w, r, N_KV_HEADS * HEAD_DIM),
        are_masks(p, m1, m2, b, s, w, r),
    ensures
        are_states(
            p,
            attend_term(q1, k1, v1, m1, b, s),
            attend_term(q2, k2, v2, m2, 1, w),
            b,
            s,
            w,
            r,
            N_HEADS * HEAD_DIM,
        ),
{
    let freqs = leaf(Kind::Freqs);
    assert(seq![HALF_DIM as int] =~= seq![HEAD_DIM as int / 2]);
    part_split_heads(p, q1, q2, b, s, w, N_HEADS, HEAD_DIM, r);
    part_split_heads(p, k1, k2, b, s, w, N_KV_HEADS, HEAD_DIM, r);
    part_split_heads(p, v1, v2, b, s, w, N_KV_HEADS, HEAD_DIM, r);
    let (sq1, sq2) = (split_heads_term(q1, b, s, N_HEADS), split_heads_term(q2, 1, w, N_HEADS));
    let (sk1, sk2) = (
        split_heads_term(k1, b, s, N_KV_HEADS),
        split_heads_term(k2, 1, w, N_KV_HEADS),
    );
    let (sv1, sv2) = (
        split_heads_term(v1, b, s, N_KV_HEADS),
        split_heads_term(v2, 1, w, N_KV_HEADS),
    );
    part_rope(p, sq1, sq2, freqs, b, N_HEADS, s, w, HEAD_DIM, r);
    part_rope(p, sk1, sk2, freqs, b, N_KV_HEADS, s, w, HEAD_DIM, r);
    let (rq1, rq2) = (rope_term(sq1, b, N_HEADS, s), rope_term(sq2, 1, N_HEADS, w));
    let (rk1, rk2) = (rope_term(sk1, b, N_KV_HEADS, s), rope_term(sk2, 1, N_KV_HEADS, w));
    part_attention(
        p,
        dec(125, -3),
        rq1,
        rq2,
        rk1,
        rk2,
        sv1,
        sv2,
        m1,
        m2,
        seq![b as int, N_HEADS as int, s as int, HEAD_DIM as int],
        seq![1, N_HEADS as int, w as int, HEAD_DIM as int],
        seq![b as int, N_KV_HEADS as int, s as int, HEAD_DIM as int],
        seq![1, N_KV_HEADS as int, w as int, HEAD_DIM as int],
        seq![b as int, 1, 1, s as int],
        seq![1, 1, 1, w as int],
        r,
    );
    lemma_side_by_side(b, s);
    lemma_side_by_side(1, w);
    let kind = Kind::Attention(dec(125, -3));
    part_join_heads(
        p,
        Dims::D3(b, s, REST),
        Dims::D3(1, w, REST),
        quaternary(kind, rq1, rk1, sv1, m1),
        quaternary(kind, rq2, rk2, sv2, m2),
        b,
        s,
        w,
        N_HEADS,
        HEAD_DIM,
        r,
    );
}

proof fn row_attention<E>(
    p: Pair<E>,
    t1: Term,
    t2: Term,
    m1: Term,
    m2: Term,
    i: usize,
    b: i32,
    s: i32,
    w: i32,
    r: int,
    vocab: int,
    inner: int,
)
    requires
        is_beside(p, b, s, w, r, vocab, inner),
        are_states(p, t1, t2, b, s, w, r, HIDDEN as int),
        are_masks(p, m1, m2, b, s, w, r),
    ensures
        are_states(
            p,
            attention_term(t1, m1, i, b, s),
            attention_term(t2, m2, i, 1, w),
            b,
            s,
            w,
            r,
            HIDDEN as int,
        ),
{
    let h = HIDDEN as int;
    let kv = N_KV_HEADS * HEAD_DIM;
    let norm = Slot::Layer(i, Part::InputNorm);
    row_norm(p, t1, t2, norm, b, s, w, r, vocab, inner);
    let (x1, x2) = (rms_norm_term(t1, norm), rms_norm_term(t2, norm));
    let (q, k) = (Slot::Layer(i, Part::QProj), Slot::Layer(i, Part::KProj));
    let (v, o) = (Slot::Layer(i, Part::VProj), Slot::Layer(i, Part::OProj));
    row_linear(p, x1, x2, q, b, s, w, r, vocab, inner, h, h);
    row_linear(p, x1, x2, k, b, s, w, r, vocab, inner, h, kv);
    row_linear(p, x1, x2, v, b, s, w, r, vocab, inner, h, kv);
    row_attend(
        p,
        linear_term(x1, q),
        linear_term(x2, q),
        linear_term(x1, k),
        linear_term(x2, k),
        linear_term(x1, v),
        linear_term(x2, v),
        m1,
        m2,
        b,
        s,
        w,
        r,
        vocab,
        inner,
    );
    let (a1, a2) = (
        attend_term(linear_term(x1, q), linear_term(x1, k), linear_term(x1, v), m1, b, s),
        attend_term(linear_term(x2, q), linear_term(x2, k), linear_term(x2, v), m2, 1, w),
    );
    row_linear(p, a1, a2, o, b, s, w, r, vocab, inner, h, h);
}

proof fn row_mlp<E>(
    p: Pair<E>,
    t1: Term,
    t2: Term,
    i: usize,
    b: i32,
    s: i32,
    w: i32,
    r: int,
    vocab: int,
    inner: int,
)
    requires
        is_beside(p, b, s, w, r, vocab, inner),
        are_states(p, t1, t2, b, s, w, r, HIDDEN as int),
    ensures
        are_states(p, mlp_term(t1, i), mlp_term(t2, i), b, s, w, r, HIDDEN as int),
{
    let h = HIDDEN as int;
    let norm = Slot::Layer(i, Part::PostAttentionNorm);
    row_norm(p, t1, t2, norm, b, s, w, r, vocab, inner);
    let (x1, x2) = (rms_norm_term(t1, norm), rms_norm_term(t2, norm));
    let (gate, up) = (Slot::Layer(i, Part::GateProj), Slot::Layer(i, Part::UpProj));
    row_linear(p, x1, x2, gate, b, s, w, r, vocab, inner, h, inner);
    row_linear(p, x1, x2, up, b, s, w, r, vocab, inner, h, inner);
    let (g1, g2) = (linear_term(x1, gate), linear_term(x2, gate));
    let (u1, u2) = (linear_term(x1, up), linear_term(x2, up));
    let off = seq![r, 0, 0];
    part_map(p, Kind::Silu, g1, g2, states(b, s, inner), states(1, w, inner), off);
    let (a1, a2) = (unary(Kind::Silu, g1), unary(Kind::Silu, g2));
    let (s1, s2) = (states(b, s, inner), states(1, w, inner));
    part_zip_same(p, Kind::Multiply, a1, a2, u1, u2, s1, s2, off);
    row_linear(
        p,
        binary(Kind::Multiply, a1, u1),
        binary(Kind::Multiply, a2, u2),
        Slot::Layer(i, Part::DownProj),
        b,
        s,
        w,
        r,
        vocab,
        inner,
        inner,
        h,
    );
}

proof fn row_layers<E>(
    p: Pair<E>,
    t1: Term,
    t2: Term,
    m1: Term,
    m2: Term,
    n: nat,
    b: i32,
    s: i32,
    w: i32,
    r: int,
    vocab: int,
    inner: int,
)
    requires
        is_beside(p, b, s, w, r, vocab, inner),
        are_states(p, t1, t2, b, s, w, r, HIDDEN as int),
        are_masks(p, m1, m2, b, s, w, r),
    ensures
        are_states(
            p,
            layers_term(t1, m1, n, b, s),
            layers_term(t2, m2, n, 1, w),
            b,
            s,
            w,
            r,
            HIDDEN as int,
        ),
    decreases n,
{
    if n > 0 {
        let j = (n - 1) as nat;
        let i = (n - 1) as usize;
        row_layers(p, t1, t2, m1, m2, j, b, s, w, r, vocab, inner);
        let (h1, h2) = (layers_term(t1, m1, j, b, s), layers_term(t2, m2, j, 1, w));
        row_attention(p, h1, h2, m1, m2, i, b, s, w, r, vocab, inner);
        let (a1, a2) = (attention_term(h1, m1, i, b, s), attention_term(h2, m2, i, 1, w));
        let (s1, s2) = (states(b, s, HIDDEN as int), states(1, w, HIDDEN as int));
        part_zip_same(p, Kind::Add, h1, h2, a1, a2, s1, s2, seq![r, 0, 0]);
        let (d1, d2) = (binary(Kind::Add, h1, a1), binary(Kind::Add, h2, a2));
        row_mlp(p, d1, d2, i, b, s, w, r, vocab, inner);
        let (f1, f2) = (mlp_term(d1, i), mlp_term(d2, i));
        part_zip_same(p, Kind::Add, d1, d2, f1, f2, s1, s2, seq![r, 0, 0]);
    }
}

/// The mask as 16-bit reals, with zeros behind the row.
proof fn row_keep<E>(p: Pair<E>, b: i32, s: i32, w: i32, r: int, vocab: int, inner: int)
    requires
        is_beside(p, b, s, w, r, vocab, inner),
    ensures
        is_part(
            p,
            keep_term(),
            keep_term(),
            seq![b as int, s as int],
            seq![1, w as int],
            seq![r, 0],
        ),
        forall|c: int|
            w <= c < s ==> (first(p, keep_term()).at)(#[trigger] seq_at(r, c)) == zero(p.ar),
{
    let mask = leaf(Kind::Mask(0));
    let (s1, s2) = (seq![b as int, s as int], seq![1, w as int]);
    part_map(p, Kind::Cast(Ty::F16), mask, mask, s1, s2, seq![r, 0]);
    lemma_cast_at(p, Ty::F16, mask);
}

proof fn row_mask<E>(p: Pair<E>, b: i32, s: i32, w: i32, r: int, vocab: int, inner: int)
    requires
        is_beside(p, b, s, w, r, vocab, inner),
    ensures
        are_masks(p, padding_mask_term(b, s), padding_mask_term(1, w), b, s, w, r),
{
    let (s1, s2) = (seq![b as int, 1, 1, s as int], seq![1, 1, 1, w as int]);
    let off = seq![r, 0, 0, 0];
    let keep = keep_term();
    row_keep(p, b, s, w, r, vocab, inner);
    part_keys(p, keep, keep, b, s, w, r);
    let (k1, k2) = (
        unary(Kind::Reshape(Dims::D4(b, 1, 1, s)), keep),
        unary(Kind::Reshape(Dims::D4(1, 1, 1, w)), keep),
    );
    let cast = Kind::Cast(Ty::F16);
    shared_number(p, dec(0, 0));
    shared_number(p, dec(-6, 4));
    shared_map(p, cast, literal(0, 0), literal(0, 0), seq![]);
    shared_map(p, cast, literal(-6, 4), literal(-6, 4), seq![]);
    lemma_cast_at(p, Ty::F16, literal(0, 0));
    lemma_cast_at(p, Ty::F16, literal(-6, 4));
    let (nil, neg) = (unary(cast, literal(0, 0)), unary(cast, literal(-6, 4)));
    part_zip_number(p, Kind::Equal, k1, k2, s1, s2, off, nil, nil);
    let (c1, c2) = (binary(Kind::Equal, k1, nil), binary(Kind::Equal, k2, nil));
    part_which(p, c1, c2, s1, s2, off, neg, nil);
    let (w1, w2) = (ternary(Kind::Which, c1, neg, nil), ternary(Kind::Which, c2, neg, nil));
    part_map(p, cast, w1, w2, s1, s2, off);
    lemma_cast_at(p, Ty::F16, w1);
    lemma_zip_at(p, Kind::Equal, k1, nil);
    let m1 = padding_mask_term(b, s);
    assert(first(p, m1).shape == s1 && second(p, padding_mask_term(1, w)).shape == s2 && first(
        p,
        k1,
    ).shape == s1 && first(p, nil).shape == Seq::<int>::empty()) by {
        reveal(is_part);
        reveal(is_shared);
    }
    assert forall|i: Seq<int>| #[trigger] is_behind(i, s1, s2, 3) implies (p.ar.hides)(
        (first(p, m1).at)(shifted(i, off)),
    ) by {
        let j = shifted(i, off);
        assert(0 <= i[0] < s2[0] && 0 <= i[1] < s2[1] && 0 <= i[2] < s2[2]);
        assert(j =~= seq![r, 0, 0, i[3]]);
        assert(in_range(j, s1));
        assert(project(j, s1) =~= j);
        assert(project(j, Seq::<int>::empty()) =~= seq![]);
        assert(seq![j[0], j[3]] =~= seq_at(r, i[3]));
    }
}

proof fn row_pool<E>(
    p: Pair<E>,
    t1: Term,
    t2: Term,
    b: i32,
    s: i32,
    w: i32,
    r: int,
    vocab: int,
    inner: int,
)
    requires
        is_beside(p, b, s, w, r, vocab, inner),
        are_states(p, t1, t2, b, s, w, r, HIDDEN as int),
    ensures
        is_part(
            p,
            mean_pool_term(t1, b, s),
            mean_pool_term(t2, 1, w),
            seq![b as int, HIDDEN as int],
            seq![1, HIDDEN as int],
            seq![r, 0],
        ),
{
    let h = HIDDEN as int;
    let (s1, s2) = (states(b, s, h), states(1, w, h));
    let (z1, z2) = (seq![b as int, s as int, 1], seq![1, w as int, 1]);
    let off = seq![r, 0, 0];
    let keep = keep_term();
    row_keep(p, b, s, w, r, vocab, inner);
    part_column(p, keep, keep, b, s, w, r);
    let (k1, k2) = (
        unary(Kind::Reshape(Dims::D3(b, s, 1)), keep),
        unary(Kind::Reshape(Dims::D3(1, w, 1)), keep),
    );
    part_zip(p, Kind::Multiply, t1, t2, s1, s2, off, k1, k2, z1, z2, off);
    let (m1, m2) = (binary(Kind::Multiply, t1, k1), binary(Kind::Multiply, t2, k2));
    lemma_zip_at(p, Kind::Multiply, t1, k1);
    assert(first(p, m1).shape == s1 && second(p, m2).shape == s2 && first(p, k1).shape == z1
        && second(p, k2).shape == z2) by {
        reveal(is_part);
    }
    assert forall|i: Seq<int>| #[trigger] is_behind(i, z1, z2, 1) implies (first(p, k1).at)(
        shifted(i, off),
    ) == zero(p.ar) by {
        let j = shifted(i, off);
        assert(0 <= i[0] < z2[0] && 0 <= i[2] < z2[2]);
        assert(in_range(j, z1));
        assert(seq![j[0], j[1]] =~= seq_at(r, i[1]));
    }
    assert forall|i: Seq<int>| #[trigger] is_behind(i, s1, s2, 1) implies (first(p, m1).at)(
        shifted(i, off),
    ) == zero(p.ar) by {
        let j = shifted(i, off);
        let q = seq![0, i[1], 0];
        assert(0 <= i[0] < s2[0] && 0 <= i[2] < s2[2]);
        assert(is_behind(q, z1, z2, 1));
        assert(project(j, z1) =~= shifted(q, off));
    }
    part_sum(p, 1, m1, m2, s1, s2, off);
    part_sum(p, 1, k1, k2, z1, z2, off);
    assert(s1.remove(1) =~= seq![b as int, h] && s2.remove(1) =~= seq![1, h]);
    assert(z1.remove(1) =~= seq![b as int, 1] && z2.remove(1) =~= seq![1, 1int]);
    assert(off.remove(1) =~= seq![r, 0]);
    let sum = Kind::Sum { axis: 1, keep: false };
    part_zip(
        p,
        Kind::Divide,
        unary(sum, m1),
        unary(sum, m2),
        seq![b as int, h],
        seq![1, h],
        seq![r, 0],
        unary(sum, k1),
        unary(sum, k2),
        seq![b as int, 1],
        seq![1, 1],
        seq![r, 0],
    );
}

/// The scores of a batch and of one of its rows.
pub proof fn row_forward<E>(p: Pair<E>, b: i32, s: i32, w: i32, r: int, vocab: int, inner: int)
    requires
        is_beside(p, b, s, w, r, vocab, inner),
    ensures
        is_part(p, forward_term(b, s), forward_term(1, w), seq![b as int], seq![1], seq![r]),
{
    let h = HIDDEN as int;
    let ids = leaf(Kind::Ids(0));
    let table = weight(Slot::Embedding);
    assert(weight_extents(Slot::Embedding, vocab, inner) is Some);
    part_embedded(p, ids, ids, table, vocab, b, s, w, HIDDEN, r);
    let (m1, m2) = (padding_mask_term(b, s), padding_mask_term(1, w));
    row_mask(p, b, s, w, r, vocab, inner);
    let (x1, x2) = (embedded_term(b, s), embedded_term(1, w));
    row_layers(p, x1, x2, m1, m2, N_LAYERS as nat, b, s, w, r, vocab, inner);
    let h1 = layers_term(x1, m1, N_LAYERS as nat, b, s);
    let h2 = layers_term(x2, m2, N_LAYERS as nat, 1, w);
    row_norm(p, h1, h2, Slot::FinalNorm, b, s, w, r, vocab, inner);
    let (n1, n2) = (rms_norm_term(h1, Slot::FinalNorm), rms_norm_term(h2, Slot::FinalNorm));
    row_pool(p, n1, n2, b, s, w, r, vocab, inner);
    let (p1, p2) = (mean_pool_term(n1, b, s), mean_pool_term(n2, 1, w));
    let (l1, l2) = (seq![b as int], seq![1int]);
    assert(l1.push(h) =~= seq![b as int, h] && l2.push(h) =~= seq![1, h]);
    assert(l1.push(1) =~= seq![b as int, 1] && l2.push(1) =~= seq![1, 1int]);
    let head = weight(Slot::ScoreHead);
    assert(weight_extents(Slot::ScoreHead, vocab, inner) is Some);
    part_linear(p, p1, p2, l1, l2, seq![r, 0], head, h, 1);
    let (f1, f2) = (linear_term(p1, Slot::ScoreHead), linear_term(p2, Slot::ScoreHead));
    part_drop_column(p, f1, f2, b, r);
}

/// A row's own batch is a window of every batch that holds the row.
proof fn lemma_beside<E>(
    ar: Arithmetic<E>,
    w: Weights<E>,
    rows: Seq<Seq<u32>>,
    r: int,
    vocab: int,
    inner: int,
)
    requires
        ignores_padding(ar),
        weights_fit(w, vocab, inner),
        0 <= r < rows.len() <= i32::MAX,
    ensures
        ({
            let own = seq![rows[r]];
            is_beside(
                Pair { ar, e1: batch_inputs(ar, w, rows), e2: batch_inputs(ar, w, own) },
                rows.len() as i32,
                padded_width(rows) as i32,
                padded_width(own) as i32,
                r,
                vocab,
                inner,
            )
        }),
{
    let own = seq![rows[r]];
    let p = Pair { ar, e1: batch_inputs(ar, w, rows), e2: batch_inputs(ar, w, own) };
    let (b, s, v) = (rows.len() as int, padded_width(rows), padded_width(own));
    lemma_padded_width_bounds(rows);
    lemma_padded_width_bounds(own);
    assert(own.drop_last() =~= seq![]);
    reveal_with_fuel(padded_width, 2);
    assert forall|slot: Slot|
        weight_extents(slot, vocab, inner) is Some implies #[trigger] is_shared(
        p,
        weight(slot),
        weight(slot),
        weight_extents(slot, vocab, inner)->0,
    ) by {
        shared_leaf(
            p,
            Kind::Weight(WeightKey { stack: Stack::Nemotron, slot }),
            weight_extents(slot, vocab, inner)->0,
        );
    }
    shared_leaf(p, Kind::Freqs, seq![HALF_DIM as int]);
    reveal(is_part);
    lemma_value0(p.ar, p.e1, Kind::Ids(0));
    lemma_value0(p.ar, p.e2, Kind::Ids(0));
    lemma_value0(p.ar, p.e1, Kind::Mask(0));
    lemma_value0(p.ar, p.e2, Kind::Mask(0));
    let (s1, s2) = (seq![b, s], seq![1, v]);
    let off = seq![r, 0];
    assert forall|i: Seq<int>| #[trigger] in_range(i, s2) implies (first(p, leaf(Kind::Ids(0))).at)(
        shifted(i, off),
    ) == (second(p, leaf(Kind::Ids(0))).at)(i) && (first(p, leaf(Kind::Mask(0))).at)(
        shifted(i, off),
    ) == (second(p, leaf(Kind::Mask(0))).at)(i) by {
        assert(0 <= i[0] < s2[0] && 0 <= i[1] < s2[1]);
        law_padding_keeps_tokens(rows, r, i[1]);
        law_padding_keeps_tokens(own, 0, i[1]);
    }
    assert forall|c: int| v <= c < s implies (first(p, leaf(Kind::Mask(0))).at)(
        #[trigger] seq_at(r, c),
    ) == zero(ar) by {
        law_padding_keeps_tokens(rows, r, c);
    }
}

/// The score of a row does not depend on the batch that it is padded into: neither the
/// other rows nor their number, order or lengths change it, whatever the arithmetic, if
/// only it ignores padding.
pub proof fn law_row_is_scored_by_itself<E>(
    ar: Arithmetic<E>,
    w: Weights<E>,
    rows: Seq<Seq<u32>>,
    r: int,
    vocab: int,
    inner: int,
)
    requires
        ignores_padding(ar),
        weights_fit(w, vocab, inner),
        0 <= r < rows.len() <= i32::MAX,
    ensures
        batch_score(ar, w, rows, r) == own_score(ar, w, rows[r]),
{
    let own = seq![rows[r]];
    let p = Pair { ar, e1: batch_inputs(ar, w, rows), e2: batch_inputs(ar, w, own) };
    let (b, s, v) = (rows.len() as i32, padded_width(rows) as i32, padded_width(own) as i32);
    lemma_beside(ar, w, rows, r, vocab, inner);
    row_forward(p, b, s, v, r, vocab, inner);
    reveal(is_part);
    let i = seq![0int];
    assert(in_range(i, seq![1]));
    assert(shifted(i, seq![r]) =~= seq![r]);
}

} // verus!
