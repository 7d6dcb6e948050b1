//! What a position of the decoder depends on.

use crate::graph::{binary, quaternary, Kind, Num, Part, Side, Slot, Term};
use crate::kalm::{decode_term, decoder_layer_term, decoder_layers_term, embedded_term, norm_term};
use crate::kalm::{prj_term, repeat_kv_term, turned_term};
use crate::kalm_config::KalmConfig;
use crate::kalm_links::{like_embeddings, like_norm_heads, like_norm_states, like_prj};
use crate::kalm_links::{like_repeated, like_tail, like_turned};
use crate::kalm_rows::{heads, share_weights, wide};
use crate::kalm_shapes::Sizes;
use crate::link_attention::{is_mask, is_reached, like_attention, like_attention_permuted};
use crate::link_attention::{are_told_alike, permutes, see_alike, told};
use crate::links::{at2, at3, at_place, chained, is_like, like_concat_keys, moved};
use crate::links::{stays, Link};
use crate::meaning::{forgets_order, in_range};
use crate::parts::{first, second, Pair};
use vstd::prelude::*;

verus! {

/// Whether the kept queries see the same keys, those of the prompt and, behind them, of
/// the pooled states: each one where it stands, or all of them in another order.
spec fn are_seen_alike<E>(
    p: Pair<E>,
    mm: Term,
    lq: Link,
    lc: Link,
    b: int,
    n: int,
    td: int,
    ne: int,
) -> bool {
    let lk = chained(lq, td, lc);
    ||| stays(lc) && see_alike(p, mm, lq, lk, b, n, td, td + ne)
    ||| forgets_order(p.ar) && permutes(lk.to, td + ne) && are_told_alike(
        p,
        mm,
        lq,
        lk,
        b,
        n,
        td,
        td + ne,
    )
}

/// The keys or the values of the prompt and of the pooled states.
proof fn like_keys<E>(
    p: Pair<E>,
    cfg: &KalmConfig,
    sizes: Sizes,
    x: Term,
    y: Term,
    b: i32,
    td: i32,
    ne: i32,
    lq: Link,
    lc: Link,
)
    requires
        share_weights(p, cfg, sizes),
        is_like(p, x, heads(b, cfg.nkv, td as int, cfg.hd), 2, lq),
        is_like(p, y, heads(b, cfg.nkv, ne as int, cfg.hd), 2, lc),
    ensures
        is_like(
            p,
            repeat_kv_term(cfg, binary(Kind::Concat { axis: 2 }, x, y)),
            heads(b, cfg.nh, td + ne, cfg.hd),
            2,
            chained(lq, td as int, lc),
        ),
{
    let (s, z) = (heads(b, cfg.nkv, td as int, cfg.hd), heads(b, cfg.nkv, ne as int, cfg.hd));
    assert(z =~= s.update(2, z[2]));
    like_concat_keys(p, x, y, s, z, lq, lc);
    assert(s.update(2, s[2] + z[2]) =~= heads(b, cfg.nkv, td + ne, cfg.hd));
    let k = binary(Kind::Concat { axis: 2 }, x, y);
    like_repeated(p, cfg, k, b, td + ne, chained(lq, td as int, lc));
}

/// A layer of the decoder.
proof fn like_decoder_layer<E>(
    p: Pair<E>,
    cfg: &KalmConfig,
    sizes: Sizes,
    t: Term,
    pooled: Term,
    mm: Term,
    i: usize,
    b: i32,
    td: i32,
    ne: i32,
    lq: Link,
    lc: Link,
)
    requires
        share_weights(p, cfg, sizes),
        0 < b,
        0 < td,
        0 < ne,
        stays(lq),
        is_like(p, t, wide(b, td, cfg.h as int), 1, lq),
        is_like(p, pooled, wide(b, ne, cfg.h as int), 1, lc),
        is_mask(p, mm, b as int, cfg.nh as int, td as int, td + ne),
        are_seen_alike(p, mm, lq, lc, b as int, cfg.nh as int, td as int, ne as int),
    ensures
        is_like(
            p,
            decoder_layer_term(cfg, t, pooled, mm, i, b, td, ne),
            wide(b, td, cfg.h as int),
            1,
            lq,
        ),
{
    let side = Side::Decoder;
    let slot = Slot::Layer(i, Part::PreSelfAttnNorm);
    like_norm_states(p, cfg, sizes, t, side, slot, b, td, lq);
    let x = norm_term(t, side, slot);
    let (qp, kp, vp) = (Part::QProj, Part::KProj, Part::VProj);
    like_turned(p, cfg, sizes, x, side, i, qp, Part::QNorm, cfg.nh, b, td, lq);
    like_turned(p, cfg, sizes, x, side, i, kp, Part::KNorm, cfg.nkv, b, td, lq);
    like_prj(p, cfg, sizes, x, side, i, vp, cfg.nkv, b, td, lq);
    like_prj(p, cfg, sizes, pooled, side, i, kp, cfg.nkv, b, ne, lc);
    like_prj(p, cfg, sizes, pooled, side, i, vp, cfg.nkv, b, ne, lc);
    let far = prj_term(cfg, pooled, side, i, kp, cfg.nkv, b, ne);
    let norm = Slot::Layer(i, Part::KNorm);
    like_norm_heads(p, cfg, sizes, far, side, norm, cfg.nkv, b, ne, lc);
    let q = turned_term(cfg, x, side, i, qp, Part::QNorm, cfg.nh, b, td);
    let sk = turned_term(cfg, x, side, i, kp, Part::KNorm, cfg.nkv, b, td);
    let sv = prj_term(cfg, x, side, i, vp, cfg.nkv, b, td);
    let ck = norm_term(far, side, norm);
    let cv = prj_term(cfg, pooled, side, i, vp, cfg.nkv, b, ne);
    like_keys(p, cfg, sizes, sk, ck, b, td, ne, lq, lc);
    like_keys(p, cfg, sizes, sv, cv, b, td, ne, lq, lc);
    let k = repeat_kv_term(cfg, binary(Kind::Concat { axis: 2 }, sk, ck));
    let v = repeat_kv_term(cfg, binary(Kind::Concat { axis: 2 }, sv, cv));
    let lk = chained(lq, td as int, lc);
    let (s, z) = (heads(b, cfg.nh, td as int, cfg.hd), heads(b, cfg.nh, td + ne, cfg.hd));
    let num = Num::AttnScale;
    assert(cfg.nh as int % cfg.nh as int == 0) by (nonlinear_arith)
        requires
            cfg.nh > 0,
    ;
    if stays(lc) && see_alike(p, mm, lq, lk, b as int, cfg.nh as int, td as int, td + ne) {
        assert(stays(lk));
        like_attention(p, num, q, k, v, mm, s, z, lq, lk);
    } else {
        like_attention_permuted(p, num, q, k, v, mm, s, z, lq, lk);
    }
    let o = quaternary(Kind::Attention(num), q, k, v, mm);
    like_tail(p, cfg, sizes, t, o, side, i, b, td, lq);
}

proof fn like_decoder_layers<E>(
    p: Pair<E>,
    cfg: &KalmConfig,
    sizes: Sizes,
    t: Term,
    pooled: Term,
    mm: Term,
    n: nat,
    b: i32,
    td: i32,
    ne: i32,
    lq: Link,
    lc: Link,
)
    requires
        share_weights(p, cfg, sizes),
        0 < b,
        0 < td,
        0 < ne,
        stays(lq),
        is_like(p, t, wide(b, td, cfg.h as int), 1, lq),
        is_like(p, pooled, wide(b, ne, cfg.h as int), 1, lc),
        is_mask(p, mm, b as int, cfg.nh as int, td as int, td + ne),
        are_seen_alike(p, mm, lq, lc, b as int, cfg.nh as int, td as int, ne as int),
    ensures
        is_like(
            p,
            decoder_layers_term(cfg, t, pooled, mm, n, b, td, ne),
            wide(b, td, cfg.h as int),
            1,
            lq,
        ),
    decreases n,
{
    if n > 0 {
        let j = (n - 1) as nat;
        like_decoder_layers(p, cfg, sizes, t, pooled, mm, j, b, td, ne, lq, lc);
        let x = decoder_layers_term(cfg, t, pooled, mm, j, b, td, ne);
        like_decoder_layer(p, cfg, sizes, x, pooled, mm, (n - 1) as usize, b, td, ne, lq, lc);
    }
}

/// The decoder, on a prompt and pooled states that are linked where they are seen.
proof fn like_decode<E>(
    p: Pair<E>,
    cfg: &KalmConfig,
    sizes: Sizes,
    dids: Term,
    pooled: Term,
    mm: Term,
    b: i32,
    td: i32,
    ne: i32,
    lq: Link,
    lc: Link,
)
    requires
        share_weights(p, cfg, sizes),
        0 < b,
        0 < td,
        0 < ne,
        stays(lq),
        is_like(p, dids, seq![b as int, td as int], 1, lq),
        is_like(p, pooled, wide(b, ne, cfg.h as int), 1, lc),
        is_mask(p, mm, b as int, cfg.nh as int, td as int, td + ne),
        are_seen_alike(p, mm, lq, lc, b as int, cfg.nh as int, td as int, ne as int),
    ensures
        is_like(
            p,
            decode_term(cfg, dids, pooled, mm, b, td, ne),
            wide(b, td, cfg.h as int),
            1,
            lq,
        ),
{
    like_embeddings(p, cfg, sizes, dids, b, td, lq);
    let x = embedded_term(cfg, dids, b, td);
    like_decoder_layers(p, cfg, sizes, x, pooled, mm, cfg.dnl as nat, b, td, ne, lq, lc);
    let h = decoder_layers_term(cfg, x, pooled, mm, cfg.dnl as nat, b, td, ne);
    like_norm_states(p, cfg, sizes, h, Side::Decoder, Slot::FinalNorm, b, td, lq);
}

/// Whether two programs decode arrays of the same extents and types: prompts of `td`
/// tokens and `ne` pooled states for each of `b` rows, under a mask for all of them.
pub open spec fn decode_together<E>(
    p: Pair<E>,
    cfg: &KalmConfig,
    dids: Term,
    pooled: Term,
    mm: Term,
    b: i32,
    td: i32,
    ne: i32,
) -> bool {
    &&& 0 < b
    &&& 0 < td
    &&& 0 < ne
    &&& first(p, dids).shape == seq![b as int, td as int]
    &&& second(p, dids).shape == seq![b as int, td as int]
    &&& first(p, dids).elem == second(p, dids).elem
    &&& first(p, pooled).shape == wide(b, ne, cfg.h as int)
    &&& second(p, pooled).shape == wide(b, ne, cfg.h as int)
    &&& first(p, pooled).elem == second(p, pooled).elem
    &&& is_mask(p, mm, b as int, cfg.nh as int, td as int, td + ne)
}

/// Whether both programs hold the same pooled state `u` for row `r`.
pub open spec fn share_state<E>(p: Pair<E>, cfg: &KalmConfig, pooled: Term, r: int, u: int) -> bool {
    forall|j: int|
        0 <= j < cfg.h ==> #[trigger] at3(first(p, pooled), r, u, j) == at3(
            second(p, pooled),
            r,
            u,
            j,
        )
}

/// Whether the masks of both programs say the same of key `k` to every query of row `r`.
pub open spec fn share_mask<E>(
    p: Pair<E>,
    cfg: &KalmConfig,
    mm: Term,
    td: int,
    r: int,
    k: int,
) -> bool {
    forall|h: int, q: int|
        0 <= h < cfg.nh && 0 <= q < td ==> #[trigger] told(first(p, mm), r, h, q, k) == told(
            second(p, mm),
            r,
            h,
            q,
            k,
        )
}

/// Whether the masks of both programs hide key `k` from every query of row `r`.
pub open spec fn hide_key<E>(
    p: Pair<E>,
    cfg: &KalmConfig,
    mm: Term,
    td: int,
    r: int,
    k: int,
) -> bool {
    &&& forall|h: int, q: int|
        0 <= h < cfg.nh && 0 <= q < td ==> (p.ar.hides)(#[trigger] told(first(p, mm), r, h, q, k))
    &&& forall|h: int, q: int|
        0 <= h < cfg.nh && 0 <= q < td ==> (p.ar.hides)(#[trigger] told(second(p, mm), r, h, q, k))
}

/// The prompt of a row, linked at the positions that are kept.
proof fn like_prompt<E>(p: Pair<E>, dids: Term, b: i32, td: i32, r: int, l: Link)
    requires
        0 < b,
        0 < td,
        stays(l),
        first(p, dids).shape == seq![b as int, td as int],
        second(p, dids).shape == seq![b as int, td as int],
        first(p, dids).elem == second(p, dids).elem,
        forall|row: int, q: int| #[trigger] (l.keep)(row, q) ==> row == r,
        forall|q: int|
            0 <= q < td && (l.keep)(r, q) ==> #[trigger] at2(first(p, dids), r, q) == at2(
                second(p, dids),
                r,
                q,
            ),
    ensures
        is_like(p, dids, seq![b as int, td as int], 1, l),
{
    reveal(is_like);
    let s = seq![b as int, td as int];
    assert forall|i: Seq<int>| #[trigger] in_range(i, s) && (l.keep)(i[0], i[1]) implies (first(
        p,
        dids,
    ).at)(moved(i, 1, l)) == (second(p, dids).at)(i) by {
        assert(0 <= i[0] < s[0] && 0 <= i[1] < s[1]);
        assert(i =~= seq![r, i[1]]);
        assert(moved(i, 1, l) =~= i);
        assert(at2(first(p, dids), r, i[1]) == at2(second(p, dids), r, i[1]));
    }
}

/// The pooled states of a row, linked at those that are kept.
proof fn like_pooled<E>(p: Pair<E>, pooled: Term, b: i32, ne: i32, h: int, r: int, l: Link)
    requires
        0 < b,
        0 < ne,
        0 <= h,
        first(p, pooled).shape == wide(b, ne, h),
        second(p, pooled).shape == wide(b, ne, h),
        first(p, pooled).elem == second(p, pooled).elem,
        forall|row: int, u: int| #[trigger] (l.keep)(row, u) ==> row == r,
        forall|u: int| 0 <= u < ne ==> 0 <= #[trigger] (l.to)(u) < ne,
        forall|u: int, j: int|
            0 <= u < ne && 0 <= j < h && (l.keep)(r, u) ==> at3(first(p, pooled), r, (l.to)(u), j)
                == #[trigger] at3(second(p, pooled), r, u, j),
    ensures
        is_like(p, pooled, wide(b, ne, h), 1, l),
{
    reveal(is_like);
    let s = wide(b, ne, h);
    assert forall|i: Seq<int>| #[trigger] in_range(i, s) && (l.keep)(i[0], i[1]) implies (first(
        p,
        pooled,
    ).at)(moved(i, 1, l)) == (second(p, pooled).at)(i) by {
        assert(0 <= i[0] < s[0] && 0 <= i[1] < s[1] && 0 <= i[2] < s[2]);
        assert(i =~= seq![r, i[1], i[2]]);
        assert(moved(i, 1, l) =~= seq![r, (l.to)(i[1]), i[2]]);
        assert(at3(first(p, pooled), r, (l.to)(i[1]), i[2]) == at3(
            second(p, pooled),
            r,
            i[1],
            i[2],
        ));
    }
    assert forall|a: int| 0 <= a < s.len() implies 0 <= #[trigger] s[a] by {}
}

/// The states of a row's kept positions.
proof fn lemma_states_agree<E>(p: Pair<E>, t: Term, b: i32, td: i32, h: int, r: int, l: Link)
    requires
        is_like(p, t, wide(b, td, h), 1, l),
        stays(l),
        0 <= r < b,
    ensures
        forall|q: int, j: int|
            0 <= q < td && 0 <= j < h && (l.keep)(r, q) ==> #[trigger] at3(first(p, t), r, q, j)
                == at3(second(p, t), r, q, j),
{
    reveal(is_like);
    let s = wide(b, td, h);
    assert forall|q: int, j: int| 0 <= q < td && 0 <= j < h && (l.keep)(r, q) implies #[trigger] at3(
        first(p, t),
        r,
        q,
        j,
    ) == at3(second(p, t), r, q, j) by {
        let i = seq![r, q, j];
        assert(in_range(i, s));
        assert(moved(i, 1, l) =~= i);
    }
}

/// Where the mask hides later tokens of the prompt from the positions up to `last`, the
/// states of those positions do not depend on the later tokens; nor on other rows.
pub proof fn law_later_prompt_tokens_change_no_state<E>(
    p: Pair<E>,
    cfg: &KalmConfig,
    sizes: Sizes,
    dids: Term,
    pooled: Term,
    mm: Term,
    b: i32,
    td: i32,
    ne: i32,
    r: int,
    last: int,
)
    requires
        share_weights(p, cfg, sizes),
        decode_together(p, cfg, dids, pooled, mm, b, td, ne),
        0 <= r < b,
        forall|q: int|
            0 <= q <= last && q < td ==> #[trigger] at2(first(p, dids), r, q) == at2(
                second(p, dids),
                r,
                q,
            ),
        forall|u: int| 0 <= u < ne ==> #[trigger] share_state(p, cfg, pooled, r, u),
        forall|k: int| 0 <= k < td + ne ==> #[trigger] share_mask(p, cfg, mm, td as int, r, k),
        forall|h: int, q: int, k: int|
            0 <= h < cfg.nh && 0 <= q <= last && last < k < td ==> (p.ar.hides)(
                #[trigger] told(first(p, mm), r, h, q, k),
            ),
    ensures
        ({
            let t = decode_term(cfg, dids, pooled, mm, b, td, ne);
            forall|q: int, j: int|
                0 <= q <= last && q < td && 0 <= j < cfg.h ==> #[trigger] at3(first(p, t), r, q, j)
                    == at3(second(p, t), r, q, j)
        }),
{
    let lq = at_place(|row: int, q: int| row == r && q <= last);
    let lc = at_place(|row: int, u: int| row == r);
    let lk = chained(lq, td as int, lc);
    let h = cfg.h as int;
    like_prompt(p, dids, b, td, r, lq);
    assert forall|u: int, j: int| 0 <= u < ne && 0 <= j < h implies at3(first(p, pooled), r, u, j)
        == #[trigger] at3(second(p, pooled), r, u, j) by {
        assert(share_state(p, cfg, pooled, r, u));
        assert(at3(first(p, pooled), r, u, j) == at3(second(p, pooled), r, u, j));
    }
    like_pooled(p, pooled, b, ne, h, r, lc);
    assert(see_alike(p, mm, lq, lk, b as int, cfg.nh as int, td as int, td + ne)) by {
        reveal(see_alike);
        assert forall|row: int, n: int, q: int, k: int|
            #![trigger told(first(p, mm), row, n, q, k)]
            #![trigger told(second(p, mm), row, n, q, k)]
            0 <= row < b && 0 <= n < cfg.nh && 0 <= q < td && 0 <= k < td + ne && (lq.keep)(
                row,
                q,
            ) implies {
            let (x, y) = (told(first(p, mm), row, n, q, k), told(second(p, mm), row, n, q, k));
            (p.ar.hides)(x) && (p.ar.hides)(y) || (lk.keep)(row, k) && x == y
        } by {
            assert(share_mask(p, cfg, mm, td as int, r, k));
            assert(told(first(p, mm), r, n, q, k) == told(second(p, mm), r, n, q, k));
        }
    }
    like_decode(p, cfg, sizes, dids, pooled, mm, b, td, ne, lq, lc);
    let t = decode_term(cfg, dids, pooled, mm, b, td, ne);
    lemma_states_agree(p, t, b, td, h, r, lq);
}

/// Pooled states that the mask hides from every query change no state of the decoder.
pub proof fn law_hidden_pools_change_no_state<E>(
    p: Pair<E>,
    cfg: &KalmConfig,
    sizes: Sizes,
    dids: Term,
    pooled: Term,
    mm: Term,
    b: i32,
    td: i32,
    ne: i32,
    r: int,
)
    requires
        share_weights(p, cfg, sizes),
        decode_together(p, cfg, dids, pooled, mm, b, td, ne),
        0 <= r < b,
        forall|q: int|
            0 <= q < td ==> #[trigger] at2(first(p, dids), r, q) == at2(second(p, dids), r, q),
        forall|k: int| 0 <= k < td ==> #[trigger] share_mask(p, cfg, mm, td as int, r, k),
        forall|u: int|
            0 <= u < ne ==> #[trigger] hide_key(p, cfg, mm, td as int, r, td + u) || share_mask(
                p,
                cfg,
                mm,
                td as int,
                r,
                td + u,
            ) && share_state(p, cfg, pooled, r, u),
    ensures
        ({
            let t = decode_term(cfg, dids, pooled, mm, b, td, ne);
            forall|q: int, j: int|
                0 <= q < td && 0 <= j < cfg.h ==> #[trigger] at3(first(p, t), r, q, j) == at3(
                    second(p, t),
                    r,
                    q,
                    j,
                )
        }),
{
    let lq = at_place(|row: int, q: int| row == r);
    let lc = at_place(|row: int, u: int| row == r && share_state(p, cfg, pooled, r, u));
    let lk = chained(lq, td as int, lc);
    let h = cfg.h as int;
    like_prompt(p, dids, b, td, r, lq);
    assert forall|u: int, j: int|
        0 <= u < ne && 0 <= j < h && (lc.keep)(r, u) implies at3(first(p, pooled), r, u, j)
        == #[trigger] at3(second(p, pooled), r, u, j) by {
        assert(at3(first(p, pooled), r, u, j) == at3(second(p, pooled), r, u, j));
    }
    like_pooled(p, pooled, b, ne, h, r, lc);
    assert(see_alike(p, mm, lq, lk, b as int, cfg.nh as int, td as int, td + ne)) by {
        reveal(see_alike);
        assert forall|row: int, n: int, q: int, k: int|
            #![trigger told(first(p, mm), row, n, q, k)]
            #![trigger told(second(p, mm), row, n, q, k)]
            0 <= row < b && 0 <= n < cfg.nh && 0 <= q < td && 0 <= k < td + ne && (lq.keep)(
                row,
                q,
            ) implies {
            let (x, y) = (told(first(p, mm), row, n, q, k), told(second(p, mm), row, n, q, k));
            (p.ar.hides)(x) && (p.ar.hides)(y) || (lk.keep)(row, k) && x == y
        } by {
            if k < td {
                assert(share_mask(p, cfg, mm, td as int, r, k));
                assert(told(first(p, mm), r, n, q, k) == told(second(p, mm), r, n, q, k));
            } else {
                let u = k - td;
                assert(hide_key(p, cfg, mm, td as int, r, td + u) || share_mask(
                    p,
                    cfg,
                    mm,
                    td as int,
                    r,
                    td + u,
                ) && share_state(p, cfg, pooled, r, u));
                if !hide_key(p, cfg, mm, td as int, r, td + u) {
                    assert(told(first(p, mm), r, n, q, k) == told(second(p, mm), r, n, q, k));
                } else {
                    assert((p.ar.hides)(told(first(p, mm), r, n, q, k)));
                    assert((p.ar.hides)(told(second(p, mm), r, n, q, k)));
                }
            }
        }
    }
    like_decode(p, cfg, sizes, dids, pooled, mm, b, td, ne, lq, lc);
    let t = decode_term(cfg, dids, pooled, mm, b, td, ne);
    lemma_states_agree(p, t, b, td, h, r, lq);
}

/// A prompt's positions stay and pooled states are exchanged: together a permutation.
proof fn lemma_chain_permutes(lq: Link, lc: Link, td: int, ne: int)
    requires
        0 <= td,
        0 <= ne,
        stays(lq),
        permutes(lc.to, ne),
    ensures
        permutes(chained(lq, td, lc).to, td + ne),
{
    let l = chained(lq, td, lc);
    assert forall|q: int| 0 <= q < td + ne implies 0 <= #[trigger] (l.to)(q) < td + ne by {
        if q >= td {
            assert(0 <= (lc.to)(q - td) < ne);
        }
    }
    assert forall|a: int, b: int|
        0 <= a < td + ne && 0 <= b < td + ne && #[trigger] (l.to)(a) == #[trigger] (l.to)(
            b,
        ) implies a == b by {
        if a >= td {
            assert(0 <= (lc.to)(a - td) < ne);
        }
        if b >= td {
            assert(0 <= (lc.to)(b - td) < ne);
        }
    }
    assert forall|k: int| 0 <= k < td + ne implies #[trigger] is_reached(l.to, td + ne, k) by {
        if k < td {
            assert((l.to)(k) == k);
        } else {
            assert(is_reached(lc.to, ne, k - td));
            let u = choose|u: int| 0 <= u < ne && #[trigger] (lc.to)(u) == k - td;
            assert((l.to)(u + td) == k);
        }
    }
}

/// Pooled states in another order, with the columns of the mask in the same order, leave
/// every state of the decoder as it is, if only the arithmetic forgets the order of keys.
pub proof fn law_order_of_pools_changes_no_state<E>(
    p: Pair<E>,
    cfg: &KalmConfig,
    sizes: Sizes,
    dids: Term,
    pooled: Term,
    mm: Term,
    b: i32,
    td: i32,
    ne: i32,
    r: int,
    to: spec_fn(int) -> int,
)
    requires
        share_weights(p, cfg, sizes),
        decode_together(p, cfg, dids, pooled, mm, b, td, ne),
        forgets_order(p.ar),
        permutes(to, ne as int),
        0 <= r < b,
        forall|q: int|
            0 <= q < td ==> #[trigger] at2(first(p, dids), r, q) == at2(second(p, dids), r, q),
        forall|u: int, j: int|
            0 <= u < ne && 0 <= j < cfg.h ==> at3(first(p, pooled), r, to(u), j) == #[trigger] at3(
                second(p, pooled),
                r,
                u,
                j,
            ),
        forall|k: int| 0 <= k < td ==> #[trigger] share_mask(p, cfg, mm, td as int, r, k),
        forall|h: int, q: int, u: int|
            0 <= h < cfg.nh && 0 <= q < td && 0 <= u < ne ==> #[trigger] told(
                first(p, mm),
                r,
                h,
                q,
                td + to(u),
            ) == told(second(p, mm), r, h, q, td + u),
    ensures
        ({
            let t = decode_term(cfg, dids, pooled, mm, b, td, ne);
            forall|q: int, j: int|
                0 <= q < td && 0 <= j < cfg.h ==> #[trigger] at3(first(p, t), r, q, j) == at3(
                    second(p, t),
                    r,
                    q,
                    j,
                )
        }),
{
    let lq = at_place(|row: int, q: int| row == r);
    let lc = Link { keep: |row: int, u: int| row == r, to };
    let lk = chained(lq, td as int, lc);
    let h = cfg.h as int;
    like_prompt(p, dids, b, td, r, lq);
    like_pooled(p, pooled, b, ne, h, r, lc);
    lemma_chain_permutes(lq, lc, td as int, ne as int);
    assert(are_told_alike(p, mm, lq, lk, b as int, cfg.nh as int, td as int, td + ne)) by {
        reveal(are_told_alike);
        assert forall|row: int, n: int, q: int, k: int|
            #![trigger told(second(p, mm), row, n, q, k)]
            0 <= row < b && 0 <= n < cfg.nh && 0 <= q < td && 0 <= k < td + ne && (lq.keep)(
                row,
                q,
            ) implies (lk.keep)(row, k) && told(first(p, mm), row, n, q, (lk.to)(k)) == told(
            second(p, mm),
            row,
            n,
            q,
            k,
        ) by {
            if k < td {
                assert(share_mask(p, cfg, mm, td as int, r, k));
                assert(told(first(p, mm), r, n, q, k) == told(second(p, mm), r, n, q, k));
            } else {
                let u = k - td;
                assert((lk.to)(k) == td + to(u));
                assert(told(first(p, mm), r, n, q, td + to(u)) == told(
                    second(p, mm),
                    r,
                    n,
                    q,
                    td + u,
                ));
            }
        }
    }
    like_decode(p, cfg, sizes, dids, pooled, mm, b, td, ne, lq, lc);
    let t = decode_term(cfg, dids, pooled, mm, b, td, ne);
    lemma_states_agree(p, t, b, td, h, r, lq);
}

} // verus!
