//! The answer for a row, whatever rows stand beside it.

use crate::graph::{binary, dec, leaf, literal, quaternary, ternary, unary};
use crate::graph::{Dims, Kind, Num, Part, Side, Slot, Term, Ty};
use crate::kalm::{decode_term, decoder_layer_term, decoder_layers_term, embedded_term, embedding};
use crate::kalm::{hide_zeros_term, norm_term, prj_term, repeat_kv_term, turned_term, weight};
use crate::kalm_config::KalmConfig;
use crate::kalm_joined::{beside, can_be_scored, checkpoint_fits, lemma_share, padded_dims};
use crate::kalm_joined::{row_all_marks, row_all_pools, score_inputs, Checkpoint};
use crate::kalm_pools::{are_pool_marks, are_pools};
use crate::kalm_rows::{are_heads, are_states, heads, key_index, row_embedded, row_hide};
use crate::kalm_rows::{row_norm_heads, row_norm_states, row_prj, row_repeat, row_tail, row_turned};
use crate::kalm_rows::{share_weights, wide};
use crate::kalm_score::{all_masks_term, all_pools_term, answer_term, causal_term, cross_term};
use crate::kalm_score::{last_position, max_chunks, merged_mask_term, score_term};
use crate::kalm_shapes::{total_rows, Sizes};
use crate::meaning::{counts, ignores_padding, in_range, line, project, value, Arithmetic};
use crate::meaning::{lemma_value0, lemma_value1, lemma_value2};
use crate::parts::{first, is_part, is_shared, lemma_cast_at, lemma_concat_at, part_attention};
use crate::parts::{part_broadcast, part_concat, part_linear, part_map, part_shared, second};
use crate::parts::{shared_leaf, shared_number, shared_reshape, shared_triu, shared_which};
use crate::parts::{shared_transpose, shared_zip, Pair};
use crate::shapes::{extents, lemma_product, lemma_reshaped, lemma_stretched_scalar};
use crate::window_moves::window_reshape;
use crate::window_sums::{is_behind, is_hidden};
use crate::windows::{is_window, lemma_line, lemma_result1, lemma_result2, lies_in, shifted};
use crate::windows::stretches;
use vstd::prelude::*;

verus! {

/// The prompt, once for every row.
proof fn row_prompt<E>(p: Pair<E>, n: i32, td: i32, r: int)
    requires
        0 < td,
        0 <= r < n,
        is_shared(p, leaf(Kind::Prompt), leaf(Kind::Prompt), seq![1, td as int]),
    ensures
        is_part(
            p,
            unary(Kind::Repeat { count: n, axis: 0 }, leaf(Kind::Prompt)),
            unary(Kind::Repeat { count: 1, axis: 0 }, leaf(Kind::Prompt)),
            seq![n as int, td as int],
            seq![1, td as int],
            seq![r, 0],
        ),
{
    reveal(is_part);
    reveal(is_shared);
    let prompt = leaf(Kind::Prompt);
    let (k1, k2) = (Kind::Repeat { count: n, axis: 0 }, Kind::Repeat { count: 1, axis: 0 });
    lemma_value1(p.ar, p.e1, k1, prompt);
    lemma_value1(p.ar, p.e2, k2, prompt);
    lemma_result1(p.ar, p.e1, k1, first(p, prompt));
    lemma_result1(p.ar, p.e2, k2, second(p, prompt));
    let s = seq![1, td as int];
    let (s1, off) = (seq![n as int, td as int], seq![r, 0]);
    assert(s.update(0, s[0] * n) =~= s1);
    assert(s.update(0, s[0] * 1) =~= s);
    assert forall|i: Seq<int>| #[trigger] in_range(i, s) implies (first(p, unary(k1, prompt)).at)(
        shifted(i, off),
    ) == (second(p, unary(k2, prompt)).at)(i) by {
        assert(0 <= i[0] < s[0] && 0 <= i[1] < s[1]);
        let j = shifted(i, off);
        let (q, m) = (j[0], n as int);
        assert(q / m == 0) by (nonlinear_arith)
            requires
                0 <= q < m,
        ;
        assert(i[0] / 1int == 0);
        assert(j.update(0, j[0] / n as int) =~= i);
        assert(i.update(0, i[0] / 1int) =~= i);
    }
    assert(lies_in(s, s1, off));
}

/// The causal mask is the same for every row.
proof fn row_causal<E>(p: Pair<E>, n: i32, td: i32, r: int)
    requires
        0 < td,
        0 <= r < n,
        (p.e1)(Kind::Ones(Dims::D2(td, td))) == (p.e2)(Kind::Ones(Dims::D2(td, td))),
    ensures
        is_part(
            p,
            causal_term(n, td),
            causal_term(1, td),
            seq![n as int, 1, td as int, td as int],
            seq![1, 1, td as int, td as int],
            seq![r, 0, 0, 0],
        ),
{
    let t = td as int;
    let square = seq![t, t];
    let d = Dims::D2(td, td);
    let ones = leaf(Kind::Ones(d));
    assert(extents(d) =~= square);
    shared_leaf(p, Kind::Ones(d), square);
    shared_triu(p, 1, ones, square);
    let (nil, neg) = (literal(0, 0), literal(-1, 30));
    shared_number(p, dec(0, 0));
    shared_number(p, dec(-1, 30));
    lemma_stretched_scalar(square);
    let upper = unary(Kind::Triu(1), ones);
    shared_zip(p, Kind::Greater, upper, nil, square, seq![], square);
    let later = binary(Kind::Greater, upper, nil);
    shared_which(p, later, neg, nil, square);
    let flat = ternary(Kind::Which, later, neg, nil);
    let full = seq![1, 1, t, t];
    let d4 = Dims::D4(1, 1, td, td);
    assert(extents(d4) =~= full);
    lemma_product(t, t, 1, 1);
    lemma_product(1, 1, t, t);
    assert(1 * 1 * t * t == t * t) by (nonlinear_arith);
    lemma_reshaped(square, full);
    shared_reshape(p, d4, flat, square, full);
    let base = unary(Kind::Reshape(d4), flat);
    part_shared(p, base, base, full, seq![0, 0, 0, 0]);
    let (d1, d2) = (Dims::D4(n, 1, td, td), Dims::D4(1, 1, td, td));
    let (z1, new) = (seq![n as int, 1, t, t], seq![r, 0, 0, 0]);
    assert(extents(d1) =~= z1);
    assert(lies_in(full, z1, new));
    assert(stretches(full, full, seq![0, 0, 0, 0], z1, full, new));
    part_broadcast(p, d1, d2, base, base, full, full, seq![0, 0, 0, 0], new);
}

/// Whether two terms are the decoder's masks for `n` rows and for row `r` of them: the
/// prompt's positions, then the groups, of which those behind the row are hidden.
spec fn are_masks<E>(
    p: Pair<E>,
    m1: Term,
    m2: Term,
    n: i32,
    td: i32,
    ne: i32,
    m: i32,
    r: int,
) -> bool {
    &&& is_part(
        p,
        m1,
        m2,
        seq![n as int, 1, td as int, td + ne],
        seq![1, 1, td as int, td + m],
        seq![r, 0, 0, 0],
    )
    &&& is_hidden(p.ar, first(p, m1), second(p, m2), seq![r, 0, 0, 0], 3)
}

/// The decoder's mask.
proof fn row_merged<E>(
    p: Pair<E>,
    y1: Term,
    y2: Term,
    n: i32,
    td: i32,
    ne: i32,
    m: i32,
    r: int,
)
    requires
        ignores_padding(p.ar),
        0 < td,
        0 < m <= ne,
        0 <= r < n,
        (p.e1)(Kind::Ones(Dims::D2(td, td))) == (p.e2)(Kind::Ones(Dims::D2(td, td))),
        are_pool_marks(p, y1, y2, n as int, ne as int, m as int, r),
    ensures
        are_masks(
            p,
            merged_mask_term(y1, n, td, ne),
            merged_mask_term(y2, 1, td, m),
            n,
            td,
            ne,
            m,
            r,
        ),
{
    let t = td as int;
    let off = seq![r, 0, 0, 0];
    row_causal(p, n, td, r);
    row_hide(p, y1, y2, n, ne, m, r);
    let h1 = hide_zeros_term(unary(Kind::Reshape(Dims::D4(n, 1, 1, ne)), y1));
    let h2 = hide_zeros_term(unary(Kind::Reshape(Dims::D4(1, 1, 1, m)), y2));
    let (s1, s2) = (seq![n as int, 1, 1, ne as int], seq![1, 1, 1, m as int]);
    let (d1, d2) = (Dims::D4(n, 1, td, ne), Dims::D4(1, 1, td, m));
    let (z1, z2) = (seq![n as int, 1, t, ne as int], seq![1, 1, t, m as int]);
    assert(extents(d1) =~= z1 && extents(d2) =~= z2);
    assert(lies_in(z2, z1, off));
    assert(stretches(s1, s2, off, z1, z2, off));
    part_broadcast(p, d1, d2, h1, h2, s1, s2, off, off);
    let (c1, c2) = (causal_term(n, td), causal_term(1, td));
    let (x1, x2) = (cross_term(y1, n, td, ne), cross_term(y2, 1, td, m));
    let (a1, a2) = (seq![n as int, 1, t, t], seq![1, 1, t, t]);
    part_concat(p, -1i32, c1, c2, a1, a2, x1, x2, z1, z2, off);
    let (w1, w2) = (seq![n as int, 1, t, t + ne], seq![1, 1, t, t + m]);
    assert(a1.update(3, t + ne) =~= w1 && a2.update(3, t + m) =~= w2);
    let join = Kind::Concat { axis: -1i32 };
    let (j1, j2) = (binary(join, c1, x1), binary(join, c2, x2));
    part_map(p, Kind::Cast(Ty::Bf16), j1, j2, w1, w2, off);
    assert(first(p, c1).shape == a1 && first(p, x1).shape == z1) by {
        reveal(is_part);
    }
    lemma_concat_at(p, -1i32, c1, x1, a1, z1);
    lemma_cast_at(p, Ty::Bf16, j1);
    let (m1, m2) = (merged_mask_term(y1, n, td, ne), merged_mask_term(y2, 1, td, m));
    assert(first(p, m1).shape == w1 && second(p, m2).shape == w2) by {
        reveal(is_part);
    }
    assert forall|i: Seq<int>| #[trigger] is_behind(i, w1, w2, 3) implies (p.ar.hides)(
        (first(p, m1).at)(shifted(i, off)),
    ) by {
        assert(0 <= i[0] < w2[0] && 0 <= i[1] < w2[1] && 0 <= i[2] < w2[2]);
        let k = shifted(i, off);
        let q = k.update(3, k[3] - t);
        assert(project(q, s1) =~= key_index(r, i[3] - t));
    }
}

/// Pooled states as hidden states of groups.
proof fn lemma_pool_states<E>(
    p: Pair<E>,
    t1: Term,
    t2: Term,
    n: i32,
    ne: i32,
    m: i32,
    h: i32,
    r: int,
)
    requires
        are_pools(p, t1, t2, n as int, ne as int, m as int, h as int, r),
    ensures
        are_states(p, t1, t2, n, ne, m, r, h as int),
{
}

/// Keys or values of the prompt, then of the groups, once for every query head.
proof fn row_keys<E>(
    p: Pair<E>,
    cfg: &KalmConfig,
    sizes: Sizes,
    x1: Term,
    x2: Term,
    g1: Term,
    g2: Term,
    n: i32,
    td: i32,
    ne: i32,
    m: i32,
    r: int,
)
    requires
        share_weights(p, cfg, sizes),
        are_heads(p, x1, x2, n, cfg.nkv, td as int, td as int, r, cfg.hd),
        are_heads(p, g1, g2, n, cfg.nkv, ne as int, m as int, r, cfg.hd),
    ensures
        ({
            let join = Kind::Concat { axis: 2 };
            are_heads(
                p,
                repeat_kv_term(cfg, binary(join, x1, g1)),
                repeat_kv_term(cfg, binary(join, x2, g2)),
                n,
                cfg.nh,
                td + ne,
                td + m,
                r,
                cfg.hd,
            )
        }),
{
    let join = Kind::Concat { axis: 2 };
    let (a1, a2) = (heads(n, cfg.nkv, td as int, cfg.hd), heads(1, cfg.nkv, td as int, cfg.hd));
    let (b1, b2) = (heads(n, cfg.nkv, ne as int, cfg.hd), heads(1, cfg.nkv, m as int, cfg.hd));
    part_concat(p, 2, x1, x2, a1, a2, g1, g2, b1, b2, seq![r, 0, 0, 0]);
    assert(a1.update(2, td + ne) =~= heads(n, cfg.nkv, td + ne, cfg.hd));
    assert(a2.update(2, td + m) =~= heads(1, cfg.nkv, td + m, cfg.hd));
    row_repeat(p, cfg, binary(join, x1, g1), binary(join, x2, g2), n, td + ne, td + m, r);
}

/// A layer of the decoder.
proof fn row_decoder_layer<E>(
    p: Pair<E>,
    cfg: &KalmConfig,
    sizes: Sizes,
    t1: Term,
    t2: Term,
    g1: Term,
    g2: Term,
    m1: Term,
    m2: Term,
    i: usize,
    n: i32,
    td: i32,
    ne: i32,
    m: i32,
    r: int,
)
    requires
        share_weights(p, cfg, sizes),
        are_states(p, t1, t2, n, td, td, r, cfg.h as int),
        are_states(p, g1, g2, n, ne, m, r, cfg.h as int),
        are_masks(p, m1, m2, n, td, ne, m, r),
        0 < td,
        0 < m <= ne,
        0 <= r < n,
    ensures
        are_states(
            p,
            decoder_layer_term(cfg, t1, g1, m1, i, n, td, ne),
            decoder_layer_term(cfg, t2, g2, m2, i, 1, td, m),
            n,
            td,
            td,
            r,
            cfg.h as int,
        ),
{
    let side = Side::Decoder;
    let slot = Slot::Layer(i, Part::PreSelfAttnNorm);
    row_norm_states(p, cfg, sizes, t1, t2, side, slot, n, td, td, r);
    let (x1, x2) = (norm_term(t1, side, slot), norm_term(t2, side, slot));
    row_turned(p, cfg, sizes, x1, x2, side, i, Part::QProj, Part::QNorm, cfg.nh, n, td, td, r);
    row_turned(p, cfg, sizes, x1, x2, side, i, Part::KProj, Part::KNorm, cfg.nkv, n, td, td, r);
    row_prj(p, cfg, sizes, x1, x2, side, i, Part::VProj, cfg.nkv, n, td, td, r);
    row_prj(p, cfg, sizes, g1, g2, side, i, Part::KProj, cfg.nkv, n, ne, m, r);
    row_prj(p, cfg, sizes, g1, g2, side, i, Part::VProj, cfg.nkv, n, ne, m, r);
    let (q1, q2) = (
        turned_term(cfg, x1, side, i, Part::QProj, Part::QNorm, cfg.nh, n, td),
        turned_term(cfg, x2, side, i, Part::QProj, Part::QNorm, cfg.nh, 1, td),
    );
    let (sk1, sk2) = (
        turned_term(cfg, x1, side, i, Part::KProj, Part::KNorm, cfg.nkv, n, td),
        turned_term(cfg, x2, side, i, Part::KProj, Part::KNorm, cfg.nkv, 1, td),
    );
    let (sv1, sv2) = (
        prj_term(cfg, x1, side, i, Part::VProj, cfg.nkv, n, td),
        prj_term(cfg, x2, side, i, Part::VProj, cfg.nkv, 1, td),
    );
    let knorm = Slot::Layer(i, Part::KNorm);
    let (pk1, pk2) = (
        prj_term(cfg, g1, side, i, Part::KProj, cfg.nkv, n, ne),
        prj_term(cfg, g2, side, i, Part::KProj, cfg.nkv, 1, m),
    );
    row_norm_heads(p, cfg, sizes, pk1, pk2, side, knorm, cfg.nkv, n, ne, m, r);
    let (ck1, ck2) = (norm_term(pk1, side, knorm), norm_term(pk2, side, knorm));
    let (cv1, cv2) = (
        prj_term(cfg, g1, side, i, Part::VProj, cfg.nkv, n, ne),
        prj_term(cfg, g2, side, i, Part::VProj, cfg.nkv, 1, m),
    );
    row_keys(p, cfg, sizes, sk1, sk2, ck1, ck2, n, td, ne, m, r);
    row_keys(p, cfg, sizes, sv1, sv2, cv1, cv2, n, td, ne, m, r);
    let join = Kind::Concat { axis: 2 };
    let (k1, k2) = (
        repeat_kv_term(cfg, binary(join, sk1, ck1)),
        repeat_kv_term(cfg, binary(join, sk2, ck2)),
    );
    let (v1, v2) = (
        repeat_kv_term(cfg, binary(join, sv1, cv1)),
        repeat_kv_term(cfg, binary(join, sv2, cv2)),
    );
    part_attention(
        p,
        Num::AttnScale,
        q1,
        q2,
        k1,
        k2,
        v1,
        v2,
        m1,
        m2,
        heads(n, cfg.nh, td as int, cfg.hd),
        heads(1, cfg.nh, td as int, cfg.hd),
        heads(n, cfg.nh, td + ne, cfg.hd),
        heads(1, cfg.nh, td + m, cfg.hd),
        seq![n as int, 1, td as int, td + ne],
        seq![1, 1, td as int, td + m],
        r,
    );
    let kind = Kind::Attention(Num::AttnScale);
    let (o1, o2) = (quaternary(kind, q1, k1, v1, m1), quaternary(kind, q2, k2, v2, m2));
    row_tail(p, cfg, sizes, t1, t2, o1, o2, side, i, n, td, td, r);
}

proof fn row_decoder_layers<E>(
    p: Pair<E>,
    cfg: &KalmConfig,
    sizes: Sizes,
    t1: Term,
    t2: Term,
    g1: Term,
    g2: Term,
    m1: Term,
    m2: Term,
    l: nat,
    n: i32,
    td: i32,
    ne: i32,
    m: i32,
    r: int,
)
    requires
        share_weights(p, cfg, sizes),
        are_states(p, t1, t2, n, td, td, r, cfg.h as int),
        are_states(p, g1, g2, n, ne, m, r, cfg.h as int),
        are_masks(p, m1, m2, n, td, ne, m, r),
        0 < td,
        0 < m <= ne,
        0 <= r < n,
    ensures
        are_states(
            p,
            decoder_layers_term(cfg, t1, g1, m1, l, n, td, ne),
            decoder_layers_term(cfg, t2, g2, m2, l, 1, td, m),
            n,
            td,
            td,
            r,
            cfg.h as int,
        ),
    decreases l,
{
    if l > 0 {
        let j = (l - 1) as nat;
        row_decoder_layers(p, cfg, sizes, t1, t2, g1, g2, m1, m2, j, n, td, ne, m, r);
        let (h1, h2) = (
            decoder_layers_term(cfg, t1, g1, m1, j, n, td, ne),
            decoder_layers_term(cfg, t2, g2, m2, j, 1, td, m),
        );
        let i = (l - 1) as usize;
        row_decoder_layer(p, cfg, sizes, h1, h2, g1, g2, m1, m2, i, n, td, ne, m, r);
    }
}

/// The state of the prompt's last position.
proof fn row_last<E>(p: Pair<E>, t1: Term, t2: Term, n: i32, td: i32, h: i32, r: int)
    requires
        counts(p.ar),
        0 < td,
        0 < h,
        0 <= r < n,
        are_states(p, t1, t2, n, td, td, r, h as int),
    ensures
        ({
            let take = Kind::Take { axis: 1 };
            let at = leaf(Kind::Int(last_position(td)));
            is_part(
                p,
                unary(Kind::Reshape(Dims::D2(n, h)), binary(take, t1, at)),
                unary(Kind::Reshape(Dims::D2(1, h)), binary(take, t2, at)),
                seq![n as int, h as int],
                seq![1, h as int],
                seq![r, 0],
            )
        }),
{
    reveal(is_part);
    let take = Kind::Take { axis: 1 };
    let k = Kind::Int(last_position(td));
    let at = leaf(k);
    lemma_value0(p.ar, p.e1, k);
    lemma_value0(p.ar, p.e2, k);
    let (x1, x2) = (binary(take, t1, at), binary(take, t2, at));
    lemma_value2(p.ar, p.e1, take, t1, at);
    lemma_value2(p.ar, p.e2, take, t2, at);
    lemma_result2(p.ar, p.e1, take, first(p, t1), first(p, at));
    lemma_result2(p.ar, p.e2, take, second(p, t2), second(p, at));
    let (a1, a2) = (wide(n, td, h as int), wide(1, td, h as int));
    let (s1, s2) = (seq![n as int, h as int], seq![1, h as int]);
    assert(a1.take(1) + Seq::<int>::empty() + a1.skip(2) =~= s1);
    assert(a2.take(1) + Seq::<int>::empty() + a2.skip(2) =~= s2);
    let off = seq![r, 0];
    let w = (td - 1) as int;
    assert((p.ar.index)((p.ar.whole)(w)) == w);
    assert forall|i: Seq<int>| #[trigger] in_range(i, s2) implies (first(p, x1).at)(
        shifted(i, off),
    ) == (second(p, x2).at)(i) by {
        assert(0 <= i[0] < s2[0] && 0 <= i[1] < s2[1]);
        let m = shifted(i, off);
        let (j, q) = (seq![i[0], w, i[1]], seq![m[0], w, m[1]]);
        assert(i.take(1).push(w) + i.skip(1) =~= j);
        assert(m.take(1).push(w) + m.skip(1) =~= q);
        assert(in_range(j, a2));
        assert(q =~= shifted(j, seq![r, 0, 0]));
    }
    assert(lies_in(s2, s1, off));
    assert(is_window(first(p, x1), second(p, x2), off));
    let (d1, d2) = (Dims::D2(n, h), Dims::D2(1, h));
    lemma_value1(p.ar, p.e1, Kind::Reshape(d1), x1);
    lemma_value1(p.ar, p.e2, Kind::Reshape(d2), x2);
    assert(extents(d1) =~= s1 && extents(d2) =~= s2);
    lemma_reshaped(s1, s1);
    lemma_reshaped(s2, s2);
    let find = |i: Seq<int>| i;
    window_reshape(
        p.ar,
        p.e1,
        p.e2,
        d1,
        d2,
        first(p, x1),
        second(p, x2),
        off,
        s1,
        s2,
        off,
        find,
    );
}

/// The scores of the two answers for a state, whatever positions the answers have.
proof fn row_pair<E>(
    p: Pair<E>,
    t1: Term,
    t2: Term,
    table: Term,
    n: i32,
    h: i32,
    vocab: int,
    yes: i32,
    no: i32,
    r: int,
)
    requires
        0 < h,
        vocab >= 0,
        0 <= r < n,
        is_part(p, t1, t2, seq![n as int, h as int], seq![1, h as int], seq![r, 0]),
        is_shared(p, table, table, seq![vocab, h as int]),
    ensures
        ({
            let take = Kind::Take { axis: 1 };
            let ids = leaf(Kind::IntPair(yes, no));
            let wt = unary(Kind::Transpose, table);
            is_part(
                p,
                binary(take, binary(Kind::Matmul, t1, wt), ids),
                binary(take, binary(Kind::Matmul, t2, wt), ids),
                seq![n as int, 2],
                seq![1, 2],
                seq![r, 0],
            )
        }),
{
    let take = Kind::Take { axis: 1 };
    let kind = Kind::IntPair(yes, no);
    let ids = leaf(kind);
    let wt = unary(Kind::Transpose, table);
    let (l1, l2) = (binary(Kind::Matmul, t1, wt), binary(Kind::Matmul, t2, wt));
    let (a1, a2) = (seq![n as int], seq![1int]);
    assert(a1.push(h as int) =~= seq![n as int, h as int] && a2.push(h as int) =~= seq![1, h as int]);
    assert(a1.push(vocab) =~= seq![n as int, vocab] && a2.push(vocab) =~= seq![1, vocab]);
    part_linear(p, t1, t2, a1, a2, seq![r, 0], table, h as int, vocab);
    shared_transpose(p, table, table, vocab, h as int);
    reveal(is_part);
    reveal(is_shared);
    lemma_value0(p.ar, p.e1, kind);
    lemma_value0(p.ar, p.e2, kind);
    lemma_value2(p.ar, p.e1, Kind::Matmul, t1, wt);
    lemma_value2(p.ar, p.e2, Kind::Matmul, t2, wt);
    lemma_result2(p.ar, p.e1, Kind::Matmul, first(p, t1), first(p, wt));
    lemma_result2(p.ar, p.e2, Kind::Matmul, second(p, t2), second(p, wt));
    lemma_value2(p.ar, p.e1, take, l1, ids);
    lemma_value2(p.ar, p.e2, take, l2, ids);
    lemma_result2(p.ar, p.e1, take, first(p, l1), first(p, ids));
    lemma_result2(p.ar, p.e2, take, second(p, l2), second(p, ids));
    let (v1, v2) = (seq![n as int, vocab], seq![1, vocab]);
    let (s1, s2) = (seq![n as int, 2int], seq![1, 2int]);
    assert(v1.take(1) + seq![2int] + v1.skip(2) =~= s1);
    assert(v2.take(1) + seq![2int] + v2.skip(2) =~= s2);
    let off = seq![r, 0];
    let (o1, o2) = (binary(take, l1, ids), binary(take, l2, ids));
    assert forall|i: Seq<int>| #[trigger] in_range(i, s2) implies (first(p, o1).at)(
        shifted(i, off),
    ) == (second(p, o2).at)(i) by {
        assert(0 <= i[0] < s2[0] && 0 <= i[1] < s2[1]);
        let m = shifted(i, off);
        assert(m.subrange(1, 2) =~= i.subrange(1, 2));
        let c = (p.ar.index)((second(p, ids).at)(i.subrange(1, 2)));
        assert((first(p, ids).at)(i.subrange(1, 2)) == (second(p, ids).at)(i.subrange(1, 2)));
        let (j, q) = (seq![i[0], c], seq![m[0], c]);
        assert(i.take(1).push(c) + i.skip(2) =~= j);
        assert(m.take(1).push(c) + m.skip(2) =~= q);
        assert(q =~= shifted(j, off));
        lemma_line(first(p, t1), second(p, t2), off, 1, j);
        assert(line(first(p, wt), 0, seq![0, c]) =~= line(second(p, wt), 0, seq![0, c]));
        assert((first(p, l1).at)(q) == (second(p, l2).at)(j));
    }
    assert(lies_in(s2, s1, off));
}

/// The share of the first of two answers.
proof fn row_share<E>(p: Pair<E>, t1: Term, t2: Term, n: i32, r: int)
    requires
        counts(p.ar),
        0 <= r < n,
        is_part(p, t1, t2, seq![n as int, 2], seq![1, 2], seq![r, 0]),
    ensures
        ({
            let take = Kind::Take { axis: 1 };
            let soft = Kind::Softmax { axis: 1 };
            let at = leaf(Kind::Int(0));
            is_part(
                p,
                unary(Kind::Reshape(Dims::D1(n)), binary(take, unary(soft, t1), at)),
                unary(Kind::Reshape(Dims::D1(1)), binary(take, unary(soft, t2), at)),
                seq![n as int],
                seq![1],
                seq![r],
            )
        }),
{
    reveal(is_part);
    let take = Kind::Take { axis: 1 };
    let soft = Kind::Softmax { axis: 1 };
    let at = leaf(Kind::Int(0));
    lemma_value0(p.ar, p.e1, Kind::Int(0));
    lemma_value0(p.ar, p.e2, Kind::Int(0));
    let (b1, b2) = (unary(soft, t1), unary(soft, t2));
    lemma_value1(p.ar, p.e1, soft, t1);
    lemma_value1(p.ar, p.e2, soft, t2);
    lemma_result1(p.ar, p.e1, soft, first(p, t1));
    lemma_result1(p.ar, p.e2, soft, second(p, t2));
    let (x1, x2) = (binary(take, b1, at), binary(take, b2, at));
    lemma_value2(p.ar, p.e1, take, b1, at);
    lemma_value2(p.ar, p.e2, take, b2, at);
    lemma_result2(p.ar, p.e1, take, first(p, b1), first(p, at));
    lemma_result2(p.ar, p.e2, take, second(p, b2), second(p, at));
    let (a1, a2) = (seq![n as int, 2int], seq![1, 2int]);
    let (s1, s2) = (seq![n as int], seq![1int]);
    assert(a1.take(1) + Seq::<int>::empty() + a1.skip(2) =~= s1);
    assert(a2.take(1) + Seq::<int>::empty() + a2.skip(2) =~= s2);
    let off = seq![r];
    assert((p.ar.index)((p.ar.whole)(0)) == 0);
    assert forall|i: Seq<int>| #[trigger] in_range(i, s2) implies (first(p, x1).at)(
        shifted(i, off),
    ) == (second(p, x2).at)(i) by {
        assert(0 <= i[0] < s2[0]);
        let m = shifted(i, off);
        let (j, q) = (seq![i[0], 0], seq![m[0], 0]);
        assert(i.take(1).push(0) + i.skip(1) =~= j);
        assert(m.take(1).push(0) + m.skip(1) =~= q);
        assert(q =~= shifted(j, seq![r, 0]));
        lemma_line(first(p, t1), second(p, t2), seq![r, 0], 1, j);
    }
    assert(lies_in(s2, s1, off));
    assert(is_window(first(p, x1), second(p, x2), off));
    let (d1, d2) = (Dims::D1(n), Dims::D1(1));
    lemma_value1(p.ar, p.e1, Kind::Reshape(d1), x1);
    lemma_value1(p.ar, p.e2, Kind::Reshape(d2), x2);
    assert(extents(d1) =~= s1 && extents(d2) =~= s2);
    lemma_reshaped(s1, s1);
    lemma_reshaped(s2, s2);
    let find = |i: Seq<int>| i;
    window_reshape(
        p.ar,
        p.e1,
        p.e2,
        d1,
        d2,
        first(p, x1),
        second(p, x2),
        off,
        s1,
        s2,
        off,
        find,
    );
}

/// The score at place `r` that the program over padded batches and a prompt computes.
pub open spec fn judged_score<E>(
    ar: Arithmetic<E>,
    w: Checkpoint<E>,
    cfg: &KalmConfig,
    batches: Seq<Seq<Seq<u32>>>,
    prompt: Seq<i32>,
    yes: i32,
    no: i32,
    r: int,
) -> E {
    let dims = padded_dims(batches);
    let t = score_term(cfg, dims, total_rows(dims) as i32, prompt.len() as i32, yes, no);
    (value(ar, score_inputs(ar, w, batches, prompt), t).at)(seq![r])
}

/// The score of a row in a batch of its own.
pub open spec fn own_judged_score<E>(
    ar: Arithmetic<E>,
    w: Checkpoint<E>,
    cfg: &KalmConfig,
    row: Seq<u32>,
    prompt: Seq<i32>,
    yes: i32,
    no: i32,
) -> E {
    judged_score(ar, w, cfg, seq![seq![row]], prompt, yes, no, 0)
}

/// The answers of the program over batches and over one row of them.
proof fn row_answer<E>(
    p: Pair<E>,
    cfg: &KalmConfig,
    sizes: Sizes,
    x1: Term,
    x2: Term,
    y1: Term,
    y2: Term,
    n: i32,
    td: i32,
    ne: i32,
    m: i32,
    yes: i32,
    no: i32,
    r: int,
)
    requires
        ignores_padding(p.ar),
        counts(p.ar),
        share_weights(p, cfg, sizes),
        sizes.vocab >= 0,
        0 < td,
        0 < m <= ne,
        0 <= r < n,
        is_shared(p, leaf(Kind::Prompt), leaf(Kind::Prompt), seq![1, td as int]),
        (p.e1)(Kind::Ones(Dims::D2(td, td))) == (p.e2)(Kind::Ones(Dims::D2(td, td))),
        are_pools(p, x1, x2, n as int, ne as int, m as int, cfg.h as int, r),
        are_pool_marks(p, y1, y2, n as int, ne as int, m as int, r),
    ensures
        ({
            let prompt = leaf(Kind::Prompt);
            let (d1, d2) = (
                unary(Kind::Repeat { count: n, axis: 0 }, prompt),
                unary(Kind::Repeat { count: 1, axis: 0 }, prompt),
            );
            let (m1, m2) = (merged_mask_term(y1, n, td, ne), merged_mask_term(y2, 1, td, m));
            is_part(
                p,
                answer_term(cfg, decode_term(cfg, d1, x1, m1, n, td, ne), n, td, yes, no),
                answer_term(cfg, decode_term(cfg, d2, x2, m2, 1, td, m), 1, td, yes, no),
                seq![n as int],
                seq![1],
                seq![r],
            )
        }),
{
    let prompt = leaf(Kind::Prompt);
    let (d1, d2) = (
        unary(Kind::Repeat { count: n, axis: 0 }, prompt),
        unary(Kind::Repeat { count: 1, axis: 0 }, prompt),
    );
    row_prompt(p, n, td, r);
    row_merged(p, y1, y2, n, td, ne, m, r);
    let (m1, m2) = (merged_mask_term(y1, n, td, ne), merged_mask_term(y2, 1, td, m));
    row_embedded(p, cfg, sizes, d1, d2, n, td, td, r);
    let (t1, t2) = (embedded_term(cfg, d1, n, td), embedded_term(cfg, d2, 1, td));
    lemma_pool_states(p, x1, x2, n, ne, m, cfg.h, r);
    let l = cfg.dnl as nat;
    row_decoder_layers(p, cfg, sizes, t1, t2, x1, x2, m1, m2, l, n, td, ne, m, r);
    let (h1, h2) = (
        decoder_layers_term(cfg, t1, x1, m1, l, n, td, ne),
        decoder_layers_term(cfg, t2, x2, m2, l, 1, td, m),
    );
    row_norm_states(p, cfg, sizes, h1, h2, Side::Decoder, Slot::FinalNorm, n, td, td, r);
    let (s1, s2) = (
        decode_term(cfg, d1, x1, m1, n, td, ne),
        decode_term(cfg, d2, x2, m2, 1, td, m),
    );
    row_last(p, s1, s2, n, td, cfg.h, r);
    let take = Kind::Take { axis: 1 };
    let at = leaf(Kind::Int(last_position(td)));
    let (l1, l2) = (
        unary(Kind::Reshape(Dims::D2(n, cfg.h)), binary(take, s1, at)),
        unary(Kind::Reshape(Dims::D2(1, cfg.h)), binary(take, s2, at)),
    );
    let table = weight(Side::Encoder, Slot::Embedding);
    assert(is_shared(p, table, table, seq![sizes.vocab, cfg.h as int]));
    row_pair(p, l1, l2, embedding(), n, cfg.h, sizes.vocab, yes, no, r);
    let wt = unary(Kind::Transpose, embedding());
    let ids = leaf(Kind::IntPair(yes, no));
    row_share(
        p,
        binary(take, binary(Kind::Matmul, l1, wt), ids),
        binary(take, binary(Kind::Matmul, l2, wt), ids),
        n,
        r,
    );
}

/// The score of a document does not depend on the batches that it is scored with:
/// neither the other documents nor their number, order, lengths or batches change it,
/// whatever the arithmetic, if only it ignores padding.
pub proof fn law_document_is_judged_by_itself<E>(
    ar: Arithmetic<E>,
    w: Checkpoint<E>,
    cfg: &KalmConfig,
    sizes: Sizes,
    batches: Seq<Seq<Seq<u32>>>,
    prompt: Seq<i32>,
    yes: i32,
    no: i32,
    k: int,
    q: int,
)
    requires
        ignores_padding(ar),
        counts(ar),
        checkpoint_fits(w, cfg, sizes),
        can_be_scored(batches),
        0 < prompt.len() <= i32::MAX,
        0 <= k < batches.len(),
        0 <= q < batches[k].len(),
    ensures
        judged_score(
            ar,
            w,
            cfg,
            batches,
            prompt,
            yes,
            no,
            total_rows(padded_dims(batches).take(k)) + q,
        ) == own_judged_score(ar, w, cfg, batches[k][q], prompt, yes, no),
{
    let row = batches[k][q];
    let p = beside(ar, w, batches, prompt, row);
    let (dims, own) = (padded_dims(batches), padded_dims(seq![seq![row]]));
    let td = prompt.len() as i32;
    let n = total_rows(dims) as i32;
    let (ne, m) = (max_chunks(dims) as i32, max_chunks(own) as i32);
    let r = total_rows(dims.take(k)) + q;
    lemma_share(ar, w, cfg, sizes, batches, prompt, row);
    row_all_pools(ar, w, cfg, sizes, batches, prompt, k, q);
    row_all_marks(ar, w, cfg, sizes, batches, prompt, k, q);
    shared_leaf(p, Kind::Prompt, seq![1, td as int]);
    row_answer(
        p,
        cfg,
        sizes,
        all_pools_term(cfg, dims),
        all_pools_term(cfg, own),
        all_masks_term(dims),
        all_masks_term(own),
        n,
        td,
        ne,
        m,
        yes,
        no,
        r,
    );
    assert(own.len() == 1 && own[0].0 == 1);
    assert(own.drop_last() =~= seq![]);
    assert(total_rows(own.drop_last()) == 0);
    assert(total_rows(own) == 1);
    reveal(is_part);
    let i = seq![0int];
    assert(in_range(i, seq![1]));
    assert(shifted(i, seq![r]) =~= seq![r]);
    assert(shifted(i, seq![r])[0] == r);
}

} // verus!
