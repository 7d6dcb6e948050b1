//! What a position of the cross-encoder depends on, and what its scores depend on.

use crate::graph::{binary, dec, leaf, literal, quaternary, ternary, unary};
use crate::graph::{Dims, Kind, Part, Slot, Stack, Term, Ty, WeightKey, REST};
use crate::link_attention::{is_mask, like_attention, see_alike, told};
use crate::link_heads::{like_embedded, like_join_heads, like_split_heads, like_turned};
use crate::links::{at1, at2, at3, at4};
use crate::links::{at_place, is_like, like_linear, like_map, like_rms, like_zip_same};
use crate::links::{moved, stays, Link};
use crate::meaning::{ignores_padding, in_range, line, project, total, value, zero};
use crate::meaning::{lemma_value0, lemma_value1, lemma_value2, lemma_value3, Arithmetic, Val};
use crate::nemotron::{attend_term, attention_term, embedded_term, forward_term, keep_term};
use crate::nemotron::{layer_term, layers_term, linear_term, mean_pool_term, mlp_term};
use crate::nemotron::{padding_mask_term, rms_eps, rms_norm_term, rope_term, split_heads_term};
use crate::nemotron::{weight, HALF_DIM, HEAD_DIM, HIDDEN, N_HEADS, N_KV_HEADS, N_LAYERS};
use crate::nemotron_rows::{is_beside, lemma_side_by_side, row_forward, seq_at, share_model};
use crate::nemotron_rows::{weights_fit, Weights};
use crate::nemotron_shapes::weight_extents;
use crate::parts::{first, is_part, is_shared, second, shared_leaf, shared_transpose, Pair};
use crate::shapes::{extents, lemma_product, lemma_reshaped, lemma_stretched_into};
use crate::shapes::lemma_stretched_scalar;
use crate::types::elem_of;
use crate::window_moves::{lemma_flat, lemma_reshape_at};
use crate::windows::{lemma_result1, lemma_result2, lemma_result3, lemma_same_line, shifted};
use vstd::prelude::*;

verus! {

/// Hidden states of `b` rows of `s` tokens, with `n` numbers for each.
pub open spec fn states(b: i32, s: i32, n: int) -> Seq<int> {
    seq![b as int, s as int, n]
}

proof fn like_slot<E>(
    p: Pair<E>,
    t: Term,
    slot: Slot,
    b: i32,
    s: i32,
    vocab: int,
    inner: int,
    from: int,
    to: int,
    l: Link,
)
    requires
        share_model(p, vocab, inner),
        is_like(p, t, states(b, s, from), 1, l),
        weight_extents(slot, vocab, inner) == Some(seq![to, from]),
        to >= 0,
    ensures
        is_like(p, linear_term(t, slot), states(b, s, to), 1, l),
{
    let two = seq![b as int, s as int];
    assert(two.push(from) =~= states(b, s, from) && two.push(to) =~= states(b, s, to));
    let w = weight(slot);
    like_linear(p, t, w, two, from, to, 1, l);
}

proof fn like_norm<E>(
    p: Pair<E>,
    t: Term,
    slot: Slot,
    b: i32,
    s: i32,
    vocab: int,
    inner: int,
    l: Link,
)
    requires
        share_model(p, vocab, inner),
        is_like(p, t, states(b, s, HIDDEN as int), 1, l),
        weight_extents(slot, vocab, inner) == Some(seq![HIDDEN as int]),
    ensures
        is_like(p, rms_norm_term(t, slot), states(b, s, HIDDEN as int), 1, l),
{
    let w = weight(slot);
    like_rms(p, Kind::FastRmsNorm(rms_eps()), t, w, states(b, s, HIDDEN as int), 1, l);
}

proof fn like_attend<E>(
    p: Pair<E>,
    q: Term,
    k: Term,
    v: Term,
    m: Term,
    b: i32,
    s: i32,
    vocab: int,
    inner: int,
    l: Link,
)
    requires
        0 < b,
        0 < s,
        stays(l),
        share_model(p, vocab, inner),
        is_like(p, q, states(b, s, N_HEADS * HEAD_DIM), 1, l),
        is_like(p, k, states(b, s, N_KV_HEADS * HEAD_DIM), 1, l),
        is_like(p, v, states(b, s, N_KV_HEADS * HEAD_DIM), 1, l),
        is_mask(p, m, b as int, N_HEADS as int, s as int, s as int),
        see_alike(p, m, l, l, b as int, N_HEADS as int, s as int, s as int),
    ensures
        is_like(p, attend_term(q, k, v, m, b, s), states(b, s, N_HEADS * HEAD_DIM), 1, l),
{
    let freqs = leaf(Kind::Freqs);
    assert(seq![HALF_DIM as int] =~= seq![HEAD_DIM as int / 2]);
    like_split_heads(p, q, b, s, N_HEADS, HEAD_DIM, l);
    like_split_heads(p, k, b, s, N_KV_HEADS, HEAD_DIM, l);
    like_split_heads(p, v, b, s, N_KV_HEADS, HEAD_DIM, l);
    let sq = split_heads_term(q, b, s, N_HEADS);
    let sk = split_heads_term(k, b, s, N_KV_HEADS);
    let sv = split_heads_term(v, b, s, N_KV_HEADS);
    like_turned(p, sq, freqs, b, N_HEADS, s, HEAD_DIM, l);
    like_turned(p, sk, freqs, b, N_KV_HEADS, s, HEAD_DIM, l);
    let rq = rope_term(sq, b, N_HEADS, s);
    let rk = rope_term(sk, b, N_KV_HEADS, s);
    let num = dec(125, -3);
    like_attention(
        p,
        num,
        rq,
        rk,
        sv,
        m,
        seq![b as int, N_HEADS as int, s as int, HEAD_DIM as int],
        seq![b as int, N_KV_HEADS as int, s as int, HEAD_DIM as int],
        l,
        l,
    );
    lemma_side_by_side(b, s);
    let o = quaternary(Kind::Attention(num), rq, rk, sv, m);
    like_join_heads(p, Dims::D3(b, s, REST), o, b, s, N_HEADS, HEAD_DIM, l);
}

proof fn like_attention_half<E>(
    p: Pair<E>,
    t: Term,
    m: Term,
    i: usize,
    b: i32,
    s: i32,
    vocab: int,
    inner: int,
    l: Link,
)
    requires
        0 < b,
        0 < s,
        stays(l),
        share_model(p, vocab, inner),
        is_like(p, t, states(b, s, HIDDEN as int), 1, l),
        is_mask(p, m, b as int, N_HEADS as int, s as int, s as int),
        see_alike(p, m, l, l, b as int, N_HEADS as int, s as int, s as int),
    ensures
        is_like(p, attention_term(t, m, i, b, s), states(b, s, HIDDEN as int), 1, l),
{
    let h = HIDDEN as int;
    let kv = N_KV_HEADS * HEAD_DIM;
    let norm = Slot::Layer(i, Part::InputNorm);
    like_norm(p, t, norm, b, s, vocab, inner, l);
    let x = rms_norm_term(t, norm);
    let (q, k) = (Slot::Layer(i, Part::QProj), Slot::Layer(i, Part::KProj));
    let (v, o) = (Slot::Layer(i, Part::VProj), Slot::Layer(i, Part::OProj));
    like_slot(p, x, q, b, s, vocab, inner, h, h, l);
    like_slot(p, x, k, b, s, vocab, inner, h, kv, l);
    like_slot(p, x, v, b, s, vocab, inner, h, kv, l);
    let (xq, xk, xv) = (linear_term(x, q), linear_term(x, k), linear_term(x, v));
    like_attend(p, xq, xk, xv, m, b, s, vocab, inner, l);
    like_slot(p, attend_term(xq, xk, xv, m, b, s), o, b, s, vocab, inner, h, h, l);
}

proof fn like_mlp<E>(
    p: Pair<E>,
    t: Term,
    i: usize,
    b: i32,
    s: i32,
    vocab: int,
    inner: int,
    l: Link,
)
    requires
        share_model(p, vocab, inner),
        is_like(p, t, states(b, s, HIDDEN as int), 1, l),
    ensures
        is_like(p, mlp_term(t, i), states(b, s, HIDDEN as int), 1, l),
{
    let h = HIDDEN as int;
    let norm = Slot::Layer(i, Part::PostAttentionNorm);
    like_norm(p, t, norm, b, s, vocab, inner, l);
    let x = rms_norm_term(t, norm);
    let (gate, up) = (Slot::Layer(i, Part::GateProj), Slot::Layer(i, Part::UpProj));
    like_slot(p, x, gate, b, s, vocab, inner, h, inner, l);
    like_slot(p, x, up, b, s, vocab, inner, h, inner, l);
    let (g, u) = (linear_term(x, gate), linear_term(x, up));
    like_map(p, Kind::Silu, g, states(b, s, inner), 1, l);
    let a = unary(Kind::Silu, g);
    like_zip_same(p, Kind::Multiply, a, u, states(b, s, inner), 1, l);
    let down = Slot::Layer(i, Part::DownProj);
    like_slot(p, binary(Kind::Multiply, a, u), down, b, s, vocab, inner, inner, h, l);
}

/// A layer, on states that are linked where its mask looks.
proof fn like_layer<E>(
    p: Pair<E>,
    t: Term,
    m: Term,
    i: usize,
    b: i32,
    s: i32,
    vocab: int,
    inner: int,
    l: Link,
)
    requires
        0 < b,
        0 < s,
        stays(l),
        share_model(p, vocab, inner),
        is_like(p, t, states(b, s, HIDDEN as int), 1, l),
        is_mask(p, m, b as int, N_HEADS as int, s as int, s as int),
        see_alike(p, m, l, l, b as int, N_HEADS as int, s as int, s as int),
    ensures
        is_like(p, layer_term(t, m, i, b, s), states(b, s, HIDDEN as int), 1, l),
{
    let h = states(b, s, HIDDEN as int);
    like_attention_half(p, t, m, i, b, s, vocab, inner, l);
    let a = attention_term(t, m, i, b, s);
    like_zip_same(p, Kind::Add, t, a, h, 1, l);
    let mid = binary(Kind::Add, t, a);
    like_mlp(p, mid, i, b, s, vocab, inner, l);
    like_zip_same(p, Kind::Add, mid, mlp_term(mid, i), h, 1, l);
}

proof fn like_layers<E>(
    p: Pair<E>,
    t: Term,
    m: Term,
    n: nat,
    b: i32,
    s: i32,
    vocab: int,
    inner: int,
    l: Link,
)
    requires
        0 < b,
        0 < s,
        n <= N_LAYERS,
        stays(l),
        share_model(p, vocab, inner),
        is_like(p, t, states(b, s, HIDDEN as int), 1, l),
        is_mask(p, m, b as int, N_HEADS as int, s as int, s as int),
        see_alike(p, m, l, l, b as int, N_HEADS as int, s as int, s as int),
    ensures
        is_like(p, layers_term(t, m, n, b, s), states(b, s, HIDDEN as int), 1, l),
    decreases n,
{
    if n > 0 {
        like_layers(p, t, m, (n - 1) as nat, b, s, vocab, inner, l);
        let x = layers_term(t, m, (n - 1) as nat, b, s);
        like_layer(p, x, m, (n - 1) as usize, b, s, vocab, inner, l);
    }
}

/// A layer computes a position from itself and from the positions of its row that the
/// mask keeps, before it and behind it: what stands at hidden positions and in other
/// rows changes nothing.
pub proof fn law_layer_reads_kept_positions<E>(
    p: Pair<E>,
    h: Term,
    mask: Term,
    i: usize,
    b: i32,
    s: i32,
    vocab: int,
    inner: int,
    r: int,
    q: int,
)
    requires
        share_model(p, vocab, inner),
        0 < b,
        0 < s,
        0 <= r < b,
        0 <= q < s,
        first(p, h).shape == seq![b as int, s as int, HIDDEN as int],
        second(p, h).shape == seq![b as int, s as int, HIDDEN as int],
        first(p, h).elem == second(p, h).elem,
        first(p, mask).shape == seq![b as int, 1, 1, s as int],
        second(p, mask).shape == seq![b as int, 1, 1, s as int],
        forall|c: int|
            0 <= c < s ==> #[trigger] at4(first(p, mask), r, 0, 0, c) == at4(
                second(p, mask),
                r,
                0,
                0,
                c,
            ),
        forall|c: int, j: int|
            0 <= c < s && 0 <= j < HIDDEN && (c == q || !(p.ar.hides)(
                at4(first(p, mask), r, 0, 0, c),
            )) ==> #[trigger] at3(first(p, h), r, c, j) == at3(second(p, h), r, c, j),
    ensures
        forall|j: int|
            0 <= j < HIDDEN ==> #[trigger] at3(first(p, layer_term(h, mask, i, b, s)), r, q, j)
                == at3(second(p, layer_term(h, mask, i, b, s)), r, q, j),
{
    let keep = |row: int, c: int|
        row == r && (c == q || !(p.ar.hides)(at4(first(p, mask), r, 0, 0, c)));
    let l = at_place(keep);
    let full = states(b, s, HIDDEN as int);
    assert(is_like(p, h, full, 1, l)) by {
        reveal(is_like);
        assert forall|k: Seq<int>| #[trigger] in_range(k, full) && (l.keep)(k[0], k[1]) implies (
        first(p, h).at)(moved(k, 1, l)) == (second(p, h).at)(k) by {
            assert(0 <= k[0] < full[0] && 0 <= k[1] < full[1] && 0 <= k[2] < full[2]);
            assert(k =~= seq![r, k[1], k[2]]);
            assert(at3(first(p, h), r, k[1], k[2]) == at3(second(p, h), r, k[1], k[2]));
            assert(moved(k, 1, l) =~= k);
        }
    }
    assert(see_alike(p, mask, l, l, b as int, N_HEADS as int, s as int, s as int)) by {
        reveal(see_alike);
        assert forall|row: int, n: int, a: int, c: int|
            #![trigger told(first(p, mask), row, n, a, c)]
            #![trigger told(second(p, mask), row, n, a, c)]
            0 <= row < b && 0 <= n < N_HEADS && 0 <= a < s && 0 <= c < s && (l.keep)(
                row,
                a,
            ) implies {
            let (x, y) = (told(first(p, mask), row, n, a, c), told(second(p, mask), row, n, a, c));
            (p.ar.hides)(x) && (p.ar.hides)(y) || (l.keep)(row, c) && x == y
        } by {
            lemma_mask_index(row, n, a, c, b as int, s as int);
            assert(at4(first(p, mask), r, 0, 0, c) == at4(second(p, mask), r, 0, 0, c));
        }
    }
    like_layer(p, h, mask, i, b, s, vocab, inner, l);
    reveal(is_like);
    assert forall|j: int| 0 <= j < HIDDEN implies #[trigger] at3(
        first(p, layer_term(h, mask, i, b, s)),
        r,
        q,
        j,
    ) == at3(second(p, layer_term(h, mask, i, b, s)), r, q, j) by {
        let k = seq![r, q, j];
        assert(in_range(k, full));
        assert(moved(k, 1, l) =~= k);
    }
}

/// The element of a padding mask that a query reads of a key.
proof fn lemma_mask_index(row: int, n: int, a: int, c: int, b: int, s: int)
    requires
        0 <= row < b,
        0 <= c < s,
    ensures
        project(seq![row, n, a, c], seq![b, 1, 1, s]) == seq![row, 0, 0, c],
{
    assert(project(seq![row, n, a, c], seq![b, 1, 1, s]) =~= seq![row, 0, 0, c]);
}

/// What the padding mask says of a token with mask `x`.
pub open spec fn said<E>(ar: Arithmetic<E>, x: E) -> E {
    let short = elem_of(Ty::F16);
    let none = (ar.cast)(short, (ar.num)(dec(0, 0)));
    let far = (ar.cast)(short, (ar.num)(dec(-6, 4)));
    let same = (ar.bin)(Kind::Equal, (ar.cast)(short, x), none);
    (ar.cast)(
        short,
        if (ar.holds)(same) {
            far
        } else {
            none
        },
    )
}

proof fn number_at<E>(ar: Arithmetic<E>, env: spec_fn(Kind) -> Val<E>, digits: int, exp: int)
    ensures
        ({
            let r = value(ar, env, unary(Kind::Cast(Ty::F16), literal(digits, exp)));
            &&& r.shape == Seq::<int>::empty()
            &&& forall|i: Seq<int>| #[trigger]
                (r.at)(i) == (ar.cast)(elem_of(Ty::F16), (ar.num)(dec(digits, exp)))
        }),
{
    let kind = Kind::Const(dec(digits, exp));
    lemma_value0(ar, env, kind);
    lemma_value1(ar, env, Kind::Cast(Ty::F16), literal(digits, exp));
    lemma_result1(ar, env, Kind::Cast(Ty::F16), value(ar, env, literal(digits, exp)));
}

/// The elements of the token mask, and of its two other forms.
proof fn keep_at<E>(ar: Arithmetic<E>, env: spec_fn(Kind) -> Val<E>, b: i32, s: i32)
    requires
        0 < b,
        0 < s,
        value(ar, env, leaf(Kind::Mask(0))).shape == seq![b as int, s as int],
    ensures
        ({
            let m = value(ar, env, leaf(Kind::Mask(0)));
            let row = value(ar, env, unary(Kind::Reshape(Dims::D4(b, 1, 1, s)), keep_term()));
            let column = value(ar, env, unary(Kind::Reshape(Dims::D3(b, s, 1)), keep_term()));
            &&& row.shape == seq![b as int, 1, 1, s as int]
            &&& column.shape == seq![b as int, s as int, 1]
            &&& forall|r: int, c: int|
                0 <= r < b && 0 <= c < s ==> #[trigger] at4(row, r, 0, 0, c) == (ar.cast)(
                    elem_of(Ty::F16),
                    at2(m, r, c),
                )
            &&& forall|r: int, c: int|
                0 <= r < b && 0 <= c < s ==> #[trigger] at3(column, r, c, 0) == (ar.cast)(
                    elem_of(Ty::F16),
                    at2(m, r, c),
                )
        }),
{
    let cast = Kind::Cast(Ty::F16);
    let mask = leaf(Kind::Mask(0));
    lemma_value1(ar, env, cast, mask);
    lemma_result1(ar, env, cast, value(ar, env, mask));
    let k = value(ar, env, keep_term());
    let from = seq![b as int, s as int];
    let (d4, d3) = (Dims::D4(b, 1, 1, s), Dims::D3(b, s, 1));
    let (t4, t3) = (seq![b as int, 1, 1, s as int], seq![b as int, s as int, 1]);
    lemma_value1(ar, env, Kind::Reshape(d4), keep_term());
    lemma_value1(ar, env, Kind::Reshape(d3), keep_term());
    assert(extents(d4) =~= t4 && extents(d3) =~= t3);
    lemma_product(b as int, s as int, 1, 1);
    lemma_product(b as int, 1, 1, s as int);
    assert(b * 1 * 1 * s == b * s && b * s * 1 == b * s) by (nonlinear_arith);
    lemma_reshaped(from, t4);
    lemma_reshaped(from, t3);
    lemma_result1(ar, env, Kind::Reshape(d4), k);
    lemma_result1(ar, env, Kind::Reshape(d3), k);
    let row = value(ar, env, unary(Kind::Reshape(d4), keep_term()));
    let column = value(ar, env, unary(Kind::Reshape(d3), keep_term()));
    assert forall|r: int, c: int| 0 <= r < b && 0 <= c < s implies #[trigger] at4(row, r, 0, 0, c)
        == (k.at)(seq![r, c]) by {
        let (i, j) = (seq![r, 0, 0, c], seq![r, c]);
        assert(in_range(j, from));
        lemma_flat(i, t4);
        lemma_flat(j, from);
        assert((r * 1 + 0) * 1 + 0 == r);
        lemma_reshape_at(ar, env, d4, k, t4, i, j);
    }
    assert forall|r: int, c: int| 0 <= r < b && 0 <= c < s implies #[trigger] at3(column, r, c, 0)
        == (k.at)(seq![r, c]) by {
        let (i, j) = (seq![r, c, 0], seq![r, c]);
        assert(in_range(j, from));
        lemma_flat(i, t3);
        lemma_flat(j, from);
        assert((r * s + c) * 1 + 0 == r * s + c);
        lemma_reshape_at(ar, env, d3, k, t3, i, j);
    }
}

/// The elements of the padding mask.
pub proof fn padding_mask_at<E>(ar: Arithmetic<E>, env: spec_fn(Kind) -> Val<E>, b: i32, s: i32)
    requires
        0 < b,
        0 < s,
        value(ar, env, leaf(Kind::Mask(0))).shape == seq![b as int, s as int],
    ensures
        ({
            let m = value(ar, env, leaf(Kind::Mask(0)));
            let x = value(ar, env, padding_mask_term(b, s));
            &&& x.shape == seq![b as int, 1, 1, s as int]
            &&& forall|r: int, c: int|
                0 <= r < b && 0 <= c < s ==> #[trigger] at4(x, r, 0, 0, c) == said(
                    ar,
                    at2(m, r, c),
                )
        }),
{
    let cast = Kind::Cast(Ty::F16);
    let none = unary(cast, literal(0, 0));
    let far = unary(cast, literal(-6, 4));
    number_at(ar, env, 0, 0);
    number_at(ar, env, -6, 4);
    keep_at(ar, env, b, s);
    let row = unary(Kind::Reshape(Dims::D4(b, 1, 1, s)), keep_term());
    let to = seq![b as int, 1, 1, s as int];
    let pad = binary(Kind::Equal, row, none);
    lemma_value2(ar, env, Kind::Equal, row, none);
    lemma_result2(ar, env, Kind::Equal, value(ar, env, row), value(ar, env, none));
    lemma_stretched_scalar(to);
    let pick = ternary(Kind::Which, pad, far, none);
    lemma_value3(ar, env, Kind::Which, pad, far, none);
    lemma_result3(
        ar,
        env,
        Kind::Which,
        value(ar, env, pad),
        value(ar, env, far),
        value(ar, env, none),
    );
    lemma_stretched_scalar(seq![]);
    lemma_value1(ar, env, cast, pick);
    lemma_result1(ar, env, cast, value(ar, env, pick));
    let x = value(ar, env, padding_mask_term(b, s));
    assert(x.shape == to);
    let m = value(ar, env, leaf(Kind::Mask(0)));
    assert forall|r: int, c: int| 0 <= r < b && 0 <= c < s implies #[trigger] at4(x, r, 0, 0, c)
        == said(ar, at2(m, r, c)) by {
        let i = seq![r, 0, 0, c];
        lemma_mask_index(r, 0, 0, c, b as int, s as int);
        assert(at4(value(ar, env, row), r, 0, 0, c) == (ar.cast)(elem_of(Ty::F16), at2(m, r, c)));
    }
}

/// The mean of the kept rows' numbers, from hidden states and a mask.
pub open spec fn pool_of<E>(ar: Arithmetic<E>, h: Val<E>, m: Val<E>, s: int, r: int, j: int) -> E {
    let short = elem_of(Ty::F16);
    (ar.bin)(
        Kind::Divide,
        total(
            ar,
            Seq::new(
                s as nat,
                |c: int|
                    (ar.bin)(Kind::Multiply, at3(h, r, c, j), (ar.cast)(short, at2(m, r, c))),
            ),
        ),
        total(ar, Seq::new(s as nat, |c: int| (ar.cast)(short, at2(m, r, c)))),
    )
}

/// The elements of the mean over the kept tokens.
pub proof fn pool_at<E>(ar: Arithmetic<E>, env: spec_fn(Kind) -> Val<E>, h: Term, b: i32, s: i32)
    requires
        0 < b,
        0 < s,
        value(ar, env, leaf(Kind::Mask(0))).shape == seq![b as int, s as int],
        value(ar, env, h).shape == states(b, s, HIDDEN as int),
    ensures
        ({
            let x = value(ar, env, mean_pool_term(h, b, s));
            &&& x.shape == seq![b as int, HIDDEN as int]
            &&& forall|r: int, j: int|
                0 <= r < b && 0 <= j < HIDDEN ==> #[trigger] at2(x, r, j) == pool_of(
                    ar,
                    value(ar, env, h),
                    value(ar, env, leaf(Kind::Mask(0))),
                    s as int,
                    r,
                    j,
                )
        }),
{
    let column = unary(Kind::Reshape(Dims::D3(b, s, 1)), keep_term());
    keep_at(ar, env, b, s);
    let (xh, xc) = (value(ar, env, h), value(ar, env, column));
    let m = value(ar, env, leaf(Kind::Mask(0)));
    let (full, thin) = (states(b, s, HIDDEN as int), seq![b as int, s as int, 1]);
    let prod = binary(Kind::Multiply, h, column);
    lemma_value2(ar, env, Kind::Multiply, h, column);
    lemma_result2(ar, env, Kind::Multiply, xh, xc);
    lemma_stretched_into(full, thin);
    let xp = value(ar, env, prod);
    let sum = Kind::Sum { axis: 1, keep: false };
    lemma_value1(ar, env, sum, prod);
    lemma_result1(ar, env, sum, xp);
    lemma_value1(ar, env, sum, column);
    lemma_result1(ar, env, sum, xc);
    let (a, d) = (value(ar, env, unary(sum, prod)), value(ar, env, unary(sum, column)));
    let (wide, one) = (seq![b as int, HIDDEN as int], seq![b as int, 1int]);
    assert(full.remove(1) =~= wide);
    assert(thin.remove(1) =~= one);
    lemma_value2(ar, env, Kind::Divide, unary(sum, prod), unary(sum, column));
    lemma_result2(ar, env, Kind::Divide, a, d);
    lemma_stretched_into(wide, one);
    let x = value(ar, env, mean_pool_term(h, b, s));
    assert forall|r: int, j: int| 0 <= r < b && 0 <= j < HIDDEN implies #[trigger] at2(x, r, j)
        == pool_of(ar, xh, m, s as int, r, j) by {
        let i = seq![r, j];
        assert(project(i, wide) =~= i);
        assert(project(i, one) =~= seq![r, 0]);
        assert(i.insert(1, 0) =~= seq![r, 0, j]);
        assert(seq![r, 0int].insert(1, 0) =~= seq![r, 0, 0]);
        let short = elem_of(Ty::F16);
        let products = Seq::new(
            s as nat,
            |c: int| (ar.bin)(Kind::Multiply, at3(xh, r, c, j), (ar.cast)(short, at2(m, r, c))),
        );
        let along = line(xp, 1, seq![r, 0, j]);
        assert forall|c: int| 0 <= c < s implies #[trigger] along[c] == products[c] by {
            let k = seq![r, c, j];
            assert(seq![r, 0, j].update(1, c) =~= k);
            assert(project(k, full) =~= k);
            assert(project(k, thin) =~= seq![r, c, 0]);
            assert(at3(xc, r, c, 0) == (ar.cast)(short, at2(m, r, c)));
        }
        assert(along =~= products);
        let marks = Seq::new(s as nat, |c: int| (ar.cast)(short, at2(m, r, c)));
        let beside = line(xc, 1, seq![r, 0, 0]);
        assert forall|c: int| 0 <= c < s implies #[trigger] beside[c] == marks[c] by {
            assert(seq![r, 0, 0int].update(1, c) =~= seq![r, c, 0]);
            assert(at3(xc, r, c, 0) == (ar.cast)(short, at2(m, r, c)));
        }
        assert(beside =~= marks);
    }
}

/// The scores of pooled rows.
pub proof fn score_at<E>(
    ar: Arithmetic<E>,
    env: spec_fn(Kind) -> Val<E>,
    t: Term,
    b: i32,
)
    requires
        0 < b,
        value(ar, env, t).shape == seq![b as int, HIDDEN as int],
        value(ar, env, unary(Kind::Transpose, weight(Slot::ScoreHead))).shape == seq![
            HIDDEN as int,
            1,
        ],
    ensures
        ({
            let x = value(ar, env, unary(Kind::Reshape(Dims::D1(b)), linear_term(t, Slot::ScoreHead)));
            let w = value(ar, env, unary(Kind::Transpose, weight(Slot::ScoreHead)));
            forall|r: int|
                0 <= r < b ==> #[trigger] at1(x, r) == (ar.dot)(
                    Seq::new(HIDDEN as nat, |j: int| at2(value(ar, env, t), r, j)),
                    line(w, 0, seq![0, 0]),
                )
        }),
{
    let wt = unary(Kind::Transpose, weight(Slot::ScoreHead));
    let (xt, w) = (value(ar, env, t), value(ar, env, wt));
    let f = linear_term(t, Slot::ScoreHead);
    lemma_value2(ar, env, Kind::Matmul, t, wt);
    lemma_result2(ar, env, Kind::Matmul, xt, w);
    let from = seq![b as int, 1int];
    assert(xt.shape.drop_last().push(1) =~= from);
    let xf = value(ar, env, f);
    let (dims, to) = (Dims::D1(b), seq![b as int]);
    lemma_value1(ar, env, Kind::Reshape(dims), f);
    assert(extents(dims) =~= to);
    lemma_product(b as int, 1, 1, 1);
    lemma_reshaped(from, to);
    let x = value(ar, env, unary(Kind::Reshape(dims), f));
    assert forall|r: int| 0 <= r < b implies #[trigger] at1(x, r) == (ar.dot)(
        Seq::new(HIDDEN as nat, |j: int| at2(xt, r, j)),
        line(w, 0, seq![0, 0]),
    ) by {
        let (i, j) = (seq![r], seq![r, 0]);
        assert(in_range(j, from));
        lemma_flat(i, to);
        lemma_flat(j, from);
        assert(r * 1 + 0 == r);
        lemma_reshape_at(ar, env, dims, xf, to, i, j);
        let row = Seq::new(HIDDEN as nat, |k: int| at2(xt, r, k));
        assert forall|k: int| 0 <= k < HIDDEN implies #[trigger] line(xt, 1, j)[k] == row[k] by {
            assert(j.update(1, k) =~= seq![r, k]);
        }
        assert(line(xt, 1, j) =~= row);
    }
}

/// Whether two batches of the same extents agree in row `r`, but for tokens whose mask
/// is zero.
spec fn agree_in_row<E>(p: Pair<E>, b: i32, s: i32, r: int) -> bool {
    let (ids, mask) = (leaf(Kind::Ids(0)), leaf(Kind::Mask(0)));
    &&& first(p, ids).shape == seq![b as int, s as int]
    &&& second(p, ids).shape == seq![b as int, s as int]
    &&& first(p, ids).elem == second(p, ids).elem
    &&& first(p, mask).shape == seq![b as int, s as int]
    &&& second(p, mask).shape == seq![b as int, s as int]
    &&& forall|c: int|
        0 <= c < s ==> #[trigger] at2(first(p, mask), r, c) == at2(second(p, mask), r, c)
    &&& forall|c: int|
        0 <= c < s && at2(first(p, mask), r, c) != zero(p.ar) ==> #[trigger] at2(first(p, ids), r, c)
            == at2(second(p, ids), r, c)
}

/// The positions of row `r` whose mask is not zero.
spec fn kept_in_row<E>(p: Pair<E>, r: int) -> Link {
    let mask = first(p, leaf(Kind::Mask(0)));
    at_place(|row: int, c: int| row == r && at2(mask, r, c) != zero(p.ar))
}

/// The additive mask hides the same keys.
proof fn like_mask<E>(p: Pair<E>, b: i32, s: i32, r: int)
    requires
        0 < b,
        0 < s,
        0 <= r < b,
        ignores_padding(p.ar),
        agree_in_row(p, b, s, r),
    ensures
        ({
            let m = padding_mask_term(b, s);
            let l = kept_in_row(p, r);
            &&& is_mask(p, m, b as int, N_HEADS as int, s as int, s as int)
            &&& see_alike(p, m, l, l, b as int, N_HEADS as int, s as int, s as int)
        }),
{
    let m = padding_mask_term(b, s);
    let l = kept_in_row(p, r);
    padding_mask_at(p.ar, p.e1, b, s);
    padding_mask_at(p.ar, p.e2, b, s);
    reveal(see_alike);
    assert forall|row: int, n: int, a: int, c: int|
        #![trigger told(first(p, m), row, n, a, c)]
        #![trigger told(second(p, m), row, n, a, c)]
        0 <= row < b && 0 <= n < N_HEADS && 0 <= a < s && 0 <= c < s && (l.keep)(row, a) implies {
        let (x, y) = (told(first(p, m), row, n, a, c), told(second(p, m), row, n, a, c));
        (p.ar.hides)(x) && (p.ar.hides)(y) || (l.keep)(row, c) && x == y
    } by {
        lemma_mask_index(row, n, a, c, b as int, s as int);
        let mask = leaf(Kind::Mask(0));
        assert(at2(first(p, mask), r, c) == at2(second(p, mask), r, c));
        assert(at4(first(p, m), r, 0, 0, c) == said(p.ar, at2(first(p, mask), r, c)));
        assert(at4(second(p, m), r, 0, 0, c) == said(p.ar, at2(second(p, mask), r, c)));
    }
}

/// Ids whose mask is zero, and other rows, change no score.
proof fn like_forward<E>(p: Pair<E>, b: i32, s: i32, r: int, vocab: int, inner: int)
    requires
        0 < b,
        0 < s,
        0 <= r < b,
        ignores_padding(p.ar),
        share_model(p, vocab, inner),
        agree_in_row(p, b, s, r),
    ensures
        at1(first(p, forward_term(b, s)), r) == at1(second(p, forward_term(b, s)), r),
{
    let l = kept_in_row(p, r);
    let (ids, mask) = (leaf(Kind::Ids(0)), leaf(Kind::Mask(0)));
    let h = HIDDEN as int;
    let two = seq![b as int, s as int];
    assert(is_like(p, ids, two, 1, l)) by {
        reveal(is_like);
        assert forall|i: Seq<int>| #[trigger] in_range(i, two) && (l.keep)(i[0], i[1]) implies (
        first(p, ids).at)(moved(i, 1, l)) == (second(p, ids).at)(i) by {
            assert(0 <= i[0] < two[0] && 0 <= i[1] < two[1]);
            assert(i =~= seq![r, i[1]]);
            assert(moved(i, 1, l) =~= i);
            assert(at2(first(p, ids), r, i[1]) == at2(second(p, ids), r, i[1]));
        }
    }
    let table = weight(Slot::Embedding);
    assert(weight_extents(Slot::Embedding, vocab, inner) is Some);
    like_embedded(p, ids, table, vocab, b, s, HIDDEN, l);
    like_mask(p, b, s, r);
    let (x, m) = (embedded_term(b, s), padding_mask_term(b, s));
    like_layers(p, x, m, N_LAYERS as nat, b, s, vocab, inner, l);
    let deep = layers_term(x, m, N_LAYERS as nat, b, s);
    like_norm(p, deep, Slot::FinalNorm, b, s, vocab, inner, l);
    let n = rms_norm_term(deep, Slot::FinalNorm);
    let full = states(b, s, h);
    reveal(is_like);
    pool_at(p.ar, p.e1, n, b, s);
    pool_at(p.ar, p.e2, n, b, s);
    let (m1, m2) = (first(p, mask), second(p, mask));
    assert forall|j: int| 0 <= j < h implies pool_of(p.ar, first(p, n), m1, s as int, r, j)
        == #[trigger] pool_of(p.ar, second(p, n), m2, s as int, r, j) by {
        let short = elem_of(Ty::F16);
        let a = Seq::new(s as nat, |c: int| (p.ar.cast)(short, at2(m1, r, c)));
        let d = Seq::new(s as nat, |c: int| (p.ar.cast)(short, at2(m2, r, c)));
        assert forall|c: int| 0 <= c < s implies #[trigger] a[c] == d[c] by {
            assert(at2(m1, r, c) == at2(m2, r, c));
        }
        assert(a =~= d);
        let u = Seq::new(
            s as nat,
            |c: int|
                (p.ar.bin)(
                    Kind::Multiply,
                    at3(first(p, n), r, c, j),
                    (p.ar.cast)(short, at2(m1, r, c)),
                ),
        );
        let v = Seq::new(
            s as nat,
            |c: int|
                (p.ar.bin)(
                    Kind::Multiply,
                    at3(second(p, n), r, c, j),
                    (p.ar.cast)(short, at2(m2, r, c)),
                ),
        );
        assert forall|c: int| 0 <= c < s implies #[trigger] u[c] == v[c] by {
            assert(at2(m1, r, c) == at2(m2, r, c));
            if at2(m1, r, c) != zero(p.ar) {
                let i = seq![r, c, j];
                assert(in_range(i, full));
                assert(moved(i, 1, l) =~= i);
            }
        }
        assert(u =~= v);
    }
    let pooled = mean_pool_term(n, b, s);
    let head = weight(Slot::ScoreHead);
    assert(weight_extents(Slot::ScoreHead, vocab, inner) is Some);
    shared_transpose(p, head, head, 1, h);
    reveal(is_shared);
    let wt = unary(Kind::Transpose, head);
    score_at(p.ar, p.e1, pooled, b);
    score_at(p.ar, p.e2, pooled, b);
    let (u, v) = (
        Seq::new(HIDDEN as nat, |j: int| at2(first(p, pooled), r, j)),
        Seq::new(HIDDEN as nat, |j: int| at2(second(p, pooled), r, j)),
    );
    assert forall|j: int| 0 <= j < HIDDEN implies #[trigger] u[j] == v[j] by {
        assert(at2(first(p, pooled), r, j) == pool_of(p.ar, first(p, n), m1, s as int, r, j));
        assert(at2(second(p, pooled), r, j) == pool_of(p.ar, second(p, n), m2, s as int, r, j));
    }
    assert(u =~= v);
    assert(seq![0int, 0][1] == 0);
    lemma_same_line(first(p, wt), second(p, wt), 0, seq![0, 0]);
}

/// The arrays that a forward pass starts from: weights, token ids and their mask.
pub open spec fn inputs_of<E>(w: Weights<E>, ids: Val<E>, mask: Val<E>) -> spec_fn(Kind) -> Val<E> {
    |kind: Kind|
        match kind {
            Kind::Mask(_) => mask,
            Kind::Weight(key) => (w.at)(key),
            Kind::Freqs => w.freqs,
            _ => ids,
        }
}

/// The score of row `r` of a batch of `b` rows of `s` tokens.
pub open spec fn score_of<E>(
    ar: Arithmetic<E>,
    w: Weights<E>,
    ids: Val<E>,
    mask: Val<E>,
    b: i32,
    s: i32,
    r: int,
) -> E {
    at1(value(ar, inputs_of(w, ids, mask), forward_term(b, s)), r)
}

/// The first `n` elements of a row.
spec fn row_of<E>(x: Val<E>, r: int, n: int) -> Val<E> {
    Val { shape: seq![1, n], elem: x.elem, at: |i: Seq<int>| at2(x, r + i[0], i[1]) }
}

proof fn lemma_shares<E>(
    ar: Arithmetic<E>,
    w: Weights<E>,
    e1: spec_fn(Kind) -> Val<E>,
    e2: spec_fn(Kind) -> Val<E>,
    vocab: int,
    inner: int,
)
    requires
        weights_fit(w, vocab, inner),
        forall|key: WeightKey| #[trigger] e1(Kind::Weight(key)) == (w.at)(key),
        forall|key: WeightKey| #[trigger] e2(Kind::Weight(key)) == (w.at)(key),
        e1(Kind::Freqs) == w.freqs,
        e2(Kind::Freqs) == w.freqs,
    ensures
        share_model(Pair { ar, e1, e2 }, vocab, inner),
{
    let p = Pair { ar, e1, e2 };
    assert forall|slot: Slot|
        weight_extents(slot, vocab, inner) is Some implies #[trigger] is_shared(
        p,
        weight(slot),
        weight(slot),
        weight_extents(slot, vocab, inner)->0,
    ) by {
        shared_leaf(
            p,
            Kind::Weight(WeightKey { stack: Stack::Nemotron, slot }),
            weight_extents(slot, vocab, inner)->0,
        );
    }
    shared_leaf(p, Kind::Freqs, seq![HALF_DIM as int]);
}

/// The score of a row is that of its first tokens alone, if the mask is zero behind them.
proof fn lemma_row_alone<E>(
    ar: Arithmetic<E>,
    w: Weights<E>,
    ids: Val<E>,
    mask: Val<E>,
    b: i32,
    s: i32,
    n: i32,
    r: int,
    vocab: int,
    inner: int,
)
    requires
        ignores_padding(ar),
        weights_fit(w, vocab, inner),
        0 < b,
        0 < n <= s,
        0 <= r < b,
        ids.shape == seq![b as int, s as int],
        mask.shape == seq![b as int, s as int],
        forall|c: int| n <= c < s ==> #[trigger] at2(mask, r, c) == zero(ar),
    ensures
        score_of(ar, w, ids, mask, b, s, r) == score_of(
            ar,
            w,
            row_of(ids, r, n as int),
            row_of(mask, r, n as int),
            1,
            n,
            0,
        ),
{
    let (i2, m2) = (row_of(ids, r, n as int), row_of(mask, r, n as int));
    let p = Pair { ar, e1: inputs_of(w, ids, mask), e2: inputs_of(w, i2, m2) };
    lemma_shares(ar, w, p.e1, p.e2, vocab, inner);
    assert(is_beside(p, b, s, n, r, vocab, inner)) by {
        reveal(is_part);
        lemma_value0(p.ar, p.e1, Kind::Ids(0));
        lemma_value0(p.ar, p.e2, Kind::Ids(0));
        lemma_value0(p.ar, p.e1, Kind::Mask(0));
        lemma_value0(p.ar, p.e2, Kind::Mask(0));
        let small = seq![1, n as int];
        let off = seq![r, 0];
        assert forall|i: Seq<int>| #[trigger] in_range(i, small) implies (ids.at)(shifted(i, off))
            == (i2.at)(i) && (mask.at)(shifted(i, off)) == (m2.at)(i) by {
            assert(0 <= i[0] < small[0] && 0 <= i[1] < small[1]);
            assert(shifted(i, off) =~= seq![r + i[0], i[1]]);
        }
        assert forall|c: int| n <= c < s implies (first(p, leaf(Kind::Mask(0))).at)(
            #[trigger] seq_at(r, c),
        ) == zero(ar) by {
            assert(at2(mask, r, c) == zero(ar));
        }
    }
    row_forward(p, b, s, n, r, vocab, inner);
    reveal(is_part);
    let i = seq![0int];
    assert(in_range(i, seq![1]));
    assert(shifted(i, seq![r]) =~= seq![r]);
}

/// The score of a row depends on the tokens that its mask keeps alone: ids whose mask is
/// zero, further columns of such ids, and other rows change nothing.
pub proof fn law_masked_ids_change_no_score<E>(
    ar: Arithmetic<E>,
    w: Weights<E>,
    ids1: Val<E>,
    mask1: Val<E>,
    b1: i32,
    s1: i32,
    r1: int,
    ids2: Val<E>,
    mask2: Val<E>,
    b2: i32,
    s2: i32,
    r2: int,
    vocab: int,
    inner: int,
)
    requires
        ignores_padding(ar),
        weights_fit(w, vocab, inner),
        0 <= r1 < b1,
        0 <= r2 < b2,
        0 < s2 <= s1,
        ids1.shape == seq![b1 as int, s1 as int],
        mask1.shape == seq![b1 as int, s1 as int],
        ids2.shape == seq![b2 as int, s2 as int],
        mask2.shape == seq![b2 as int, s2 as int],
        ids1.elem == ids2.elem,
        mask1.elem == mask2.elem,
        forall|c: int| 0 <= c < s2 ==> #[trigger] at2(mask1, r1, c) == at2(mask2, r2, c),
        forall|c: int| s2 <= c < s1 ==> #[trigger] at2(mask1, r1, c) == zero(ar),
        forall|c: int|
            0 <= c < s2 && at2(mask2, r2, c) != zero(ar) ==> #[trigger] at2(ids1, r1, c) == at2(
                ids2,
                r2,
                c,
            ),
    ensures
        score_of(ar, w, ids1, mask1, b1, s1, r1) == score_of(ar, w, ids2, mask2, b2, s2, r2),
{
    let n = s2 as int;
    lemma_row_alone(ar, w, ids1, mask1, b1, s1, s2, r1, vocab, inner);
    lemma_row_alone(ar, w, ids2, mask2, b2, s2, s2, r2, vocab, inner);
    let (i1, m1) = (row_of(ids1, r1, n), row_of(mask1, r1, n));
    let (i2, m2) = (row_of(ids2, r2, n), row_of(mask2, r2, n));
    let p = Pair { ar, e1: inputs_of(w, i1, m1), e2: inputs_of(w, i2, m2) };
    lemma_shares(ar, w, p.e1, p.e2, vocab, inner);
    lemma_value0(p.ar, p.e1, Kind::Ids(0));
    lemma_value0(p.ar, p.e2, Kind::Ids(0));
    lemma_value0(p.ar, p.e1, Kind::Mask(0));
    lemma_value0(p.ar, p.e2, Kind::Mask(0));
    assert(agree_in_row(p, 1, s2, 0)) by {
        let (ids, mask) = (leaf(Kind::Ids(0)), leaf(Kind::Mask(0)));
        assert forall|c: int| 0 <= c < s2 implies #[trigger] at2(first(p, mask), 0, c) == at2(
            second(p, mask),
            0,
            c,
        ) by {
            assert(at2(mask1, r1, c) == at2(mask2, r2, c));
        }
        assert forall|c: int|
            0 <= c < s2 && at2(first(p, mask), 0, c) != zero(ar) implies #[trigger] at2(
            first(p, ids),
            0,
            c,
        ) == at2(second(p, ids), 0, c) by {
            assert(at2(mask1, r1, c) == at2(mask2, r2, c));
            assert(at2(ids1, r1, c) == at2(ids2, r2, c));
        }
    }
    like_forward(p, 1, s2, 0, vocab, inner);
}

} // verus!
