//! Pooled states of all batches joined: each row where the order of batches puts it.

use crate::batch::{law_padding_keeps_tokens, lemma_padded_width_bounds, padded_ids, padded_mask};
use crate::batch::{padded_width, MAX_LEN};
use crate::graph::{leaf, unary, Dims, Kind, LayerType, Side, Slot, Stack, Term, Ty, WeightKey};
use crate::kalm::{chunk_count, encoder_states_term, filled_term, weight};
use crate::kalm_config::KalmConfig;
use crate::kalm_pools::{are_pool_marks, are_pools, lemma_filled, row_pool, row_pool_marks};
use crate::kalm_rows::{marks_end, row_encoder_states, seq_at, share_weights};
use crate::kalm_score::{all_masks_term, all_pools_term, even_mask_term, even_pool_term};
use crate::kalm_score::{lemma_max_chunks, max_chunks, pool_mask_term, pool_term};
use crate::kalm_shapes::{fits_together, total_rows, weight_extents, Sizes};
use crate::meaning::{elems_in, extent_before, ignores_padding, in_range, joined_at, lemma_value0};
use crate::meaning::{lemma_value1, lemma_values, shapes_in, value, values, zero, Arithmetic, Val};
use crate::nemotron_rows::batch_array;
use crate::parts::{first, is_part, is_shared, second, shared_leaf, Pair};
use crate::shapes::{are_extents, extents, joined};
use crate::types::{elem_of, joint, joint_of, Elem};
use crate::windows::{lemma_result1, lies_in, shifted};
use vstd::prelude::*;

verus! {

/// Extents of `n` rows of arrays with extents `tail`.
pub open spec fn rows_of_extents(n: int, tail: Seq<int>) -> Seq<int> {
    seq![n] + tail
}

/// Extents of arrays joined along their first axis.
pub proof fn lemma_joined_extents<E>(parts: Seq<Val<E>>, tail: Seq<int>)
    requires
        parts.len() > 0,
        forall|k: int|
            0 <= k < parts.len() ==> (#[trigger] parts[k]).shape == rows_of_extents(
                parts[k].shape[0],
                tail,
            ),
    ensures
        joined(shapes_in(parts), 0) == Some(rows_of_extents(extent_before(parts, 0), tail)),
    decreases parts.len(),
{
    reveal_with_fuel(joined, 2);
    let s = shapes_in(parts);
    let last = parts.last();
    assert(last == parts[parts.len() - 1]);
    assert(s.drop_last() =~= shapes_in(parts.drop_last()));
    assert(s.last() == last.shape);
    if parts.len() == 1 {
        assert(parts.drop_last() =~= seq![]);
        assert(extent_before(parts.drop_last(), 0) == 0);
        assert(s[0] == last.shape);
    } else {
        assert forall|k: int| 0 <= k < parts.len() - 1 implies (
        #[trigger] parts.drop_last()[k]).shape == rows_of_extents(
            parts.drop_last()[k].shape[0],
            tail,
        ) by {
            assert(parts.drop_last()[k] == parts[k]);
        }
        lemma_joined_extents(parts.drop_last(), tail);
        let rest = rows_of_extents(extent_before(parts.drop_last(), 0), tail);
        assert(rest.update(0, 0) =~= last.shape.update(0, 0));
        assert(rest.update(0, rest[0] + last.shape[0]) =~= rows_of_extents(
            extent_before(parts, 0),
            tail,
        ));
    }
}

/// The joint type of elements that are all of one type.
proof fn lemma_joint_type(s: Seq<Elem>, e: Elem)
    requires
        s.len() > 0,
        forall|k: int| 0 <= k < s.len() ==> #[trigger] s[k] == e,
    ensures
        joint_of(s) == e,
    decreases s.len(),
{
    assert(s.last() == s[s.len() - 1]);
    if s.len() > 1 {
        assert forall|k: int| 0 <= k < s.len() - 1 implies #[trigger] s.drop_last()[k] == e by {
            assert(s.drop_last()[k] == s[k]);
        }
        lemma_joint_type(s.drop_last(), e);
    } else {
        assert(s.drop_last() =~= seq![]);
        assert(joint_of(s.drop_last()) == Elem::Bool);
    }
}

/// An element of joined arrays is one of the array whose rows it lies among.
pub proof fn lemma_joined_at<E>(parts: Seq<Val<E>>, k: int, q: int, i: Seq<int>)
    requires
        0 <= k < parts.len(),
        forall|j: int| 0 <= j < parts.len() ==> 0 <= (#[trigger] parts[j]).shape[0],
        0 <= q < parts[k].shape[0],
        i.len() > 0,
        i[0] == extent_before(parts.take(k), 0) + q,
    ensures
        joined_at(parts, 0, i) == (parts[k].at)(i.update(0, q)),
    decreases parts.len(),
{
    let rest = parts.drop_last();
    if parts.len() == 1 {
        assert(parts.take(0) =~= seq![]);
        assert(extent_before(parts.take(0), 0) == 0);
        assert(i.update(0, q) =~= i);
    } else {
        if k < parts.len() - 1 {
            assert(rest.take(k) =~= parts.take(k));
            assert(rest[k] == parts[k]);
            assert forall|j: int| 0 <= j < rest.len() implies 0 <= (
            #[trigger] rest[j]).shape[0] by {
                assert(rest[j] == parts[j]);
            }
            lemma_joined_at(rest, k, q, i);
            lemma_rows_before(rest, k);
        } else {
            assert(parts.take(k) =~= rest);
            assert(parts.last() == parts[k]);
        }
    }
}

/// The rows of the first parts and of the next are among all.
pub proof fn lemma_rows_before<E>(parts: Seq<Val<E>>, k: int)
    requires
        0 <= k < parts.len(),
        forall|j: int| 0 <= j < parts.len() ==> 0 <= (#[trigger] parts[j]).shape[0],
    ensures
        extent_before(parts.take(k), 0) + parts[k].shape[0] <= extent_before(parts, 0),
        0 <= extent_before(parts.take(k), 0),
    decreases parts.len(),
{
    let rest = parts.drop_last();
    assert(parts.last() == parts[parts.len() - 1]);
    assert forall|j: int| 0 <= j < rest.len() implies 0 <= (#[trigger] rest[j]).shape[0] by {
        assert(rest[j] == parts[j]);
    }
    if k < parts.len() - 1 {
        assert(rest.take(k) =~= parts.take(k));
        assert(rest[k] == parts[k]);
        lemma_rows_before(rest, k);
    } else {
        assert(parts.take(k) =~= rest);
        if rest.len() > 0 {
            lemma_rows_before(rest, rest.len() - 1);
            assert(0 <= rest[rest.len() - 1].shape[0]);
        }
    }
}

/// A part of one array among joined ones is a part of the joint array.
proof fn row_joined<E>(
    p: Pair<E>,
    args: Seq<Term>,
    t2: Term,
    k: int,
    q: int,
    tail1: Seq<int>,
    tail2: Seq<int>,
    e: Elem,
    off: Seq<int>,
    before: int,
    n: int,
)
    requires
        0 <= k < args.len(),
        forall|j: int|
            0 <= j < args.len() ==> {
                let v = first(p, #[trigger] args[j]);
                &&& v.shape == rows_of_extents(v.shape[0], tail1)
                &&& v.elem == e
                &&& 0 <= v.shape[0]
            },
        before == extent_before(values(p.ar, p.e1, args).take(k), 0),
        n == extent_before(values(p.ar, p.e1, args), 0),
        is_part(
            p,
            args[k],
            t2,
            rows_of_extents(first(p, args[k]).shape[0], tail1),
            rows_of_extents(1, tail2),
            rows_of_extents(q, off),
        ),
        off.len() == tail1.len(),
        tail2.len() == tail1.len(),
    ensures
        is_part(
            p,
            Term { kind: Kind::Concat { axis: 0 }, args },
            Term { kind: Kind::Concat { axis: 0 }, args: seq![t2] },
            rows_of_extents(n, tail1),
            rows_of_extents(1, tail2),
            rows_of_extents(before + q, off),
        ),
        ({
            let joint = first(p, Term { kind: Kind::Concat { axis: 0 }, args });
            forall|i: Seq<int>|
                i.len() > 0 && i[0] == before + q ==> #[trigger] (joint.at)(i) == (first(
                    p,
                    args[k],
                ).at)(i.update(0, q))
        }),
{
    reveal(is_part);
    reveal(value);
    let kind = Kind::Concat { axis: 0 };
    let (vals1, vals2) = (values(p.ar, p.e1, args), values(p.ar, p.e2, seq![t2]));
    lemma_values(p.ar, p.e1, args);
    lemma_values(p.ar, p.e2, seq![t2]);
    assert(vals2[0] == second(p, t2));
    assert forall|j: int| 0 <= j < vals1.len() implies (#[trigger] vals1[j]).shape
        == rows_of_extents(vals1[j].shape[0], tail1) && 0 <= vals1[j].shape[0] && vals1[j].elem
        == e by {
        assert(vals1[j] == first(p, args[j]));
    }
    lemma_joined_extents(vals1, tail1);
    assert forall|j: int| 0 <= j < vals2.len() implies (#[trigger] vals2[j]).shape
        == rows_of_extents(vals2[j].shape[0], tail2) by {}
    lemma_joined_extents(vals2, tail2);
    assert(vals2.drop_last() =~= seq![]);
    assert(extent_before(vals2.drop_last(), 0) == 0);
    assert(extent_before(vals2, 0) == 1);
    assert forall|j: int| 0 <= j < vals1.len() implies #[trigger] elems_in(vals1)[j] == e by {
        assert(vals1[j].elem == e);
    }
    lemma_joint_type(elems_in(vals1), e);
    assert(first(p, args[k]).elem == e);
    lemma_joint_type(elems_in(vals2), e);
    let (t1, u2) = (Term { kind, args }, Term { kind, args: seq![t2] });
    let (s2, new) = (rows_of_extents(1, tail2), rows_of_extents(before + q, off));
    assert(vals1[k] == first(p, args[k]));
    lemma_rows_before(vals1, k);
    let (old, great) = (rows_of_extents(q, off), rows_of_extents(n, tail1));
    assert(old[0] == q && old[0] + s2[0] <= vals1[k].shape[0]);
    assert forall|i: Seq<int>| i.len() > 0 && i[0] == before + q implies #[trigger] (first(
        p,
        t1,
    ).at)(i) == (first(p, args[k]).at)(i.update(0, q)) by {
        lemma_joined_at(vals1, k, q, i);
    }
    assert forall|i: Seq<int>| #[trigger] in_range(i, s2) implies (first(p, t1).at)(
        shifted(i, new),
    ) == (second(p, u2).at)(i) by {
        assert(0 <= i[0] < s2[0]);
        let m = shifted(i, new);
        lemma_joined_at(vals1, k, q, m);
        assert(m.update(0, q) =~= shifted(i, old));
    }
    assert forall|a: int| 0 <= a < new.len() implies 0 <= #[trigger] new[a] && 0 <= s2[a] && new[a]
        + s2[a] <= great[a] by {
        assert(0 <= old[a] && old[a] + s2[a] <= vals1[k].shape[a]);
        if a > 0 {
            assert(new[a] == old[a] && great[a] == vals1[k].shape[a]);
        }
    }
}

/// The weights of a checkpoint and its rotary frequencies.
#[verifier::reject_recursive_types(E)]
pub struct Checkpoint<E> {
    pub at: spec_fn(WeightKey) -> Val<E>,
    pub freqs: spec_fn(Side, LayerType) -> Val<E>,
}

/// Whether a checkpoint's arrays have the extents of a configuration.
pub open spec fn checkpoint_fits<E>(w: Checkpoint<E>, cfg: &KalmConfig, sizes: Sizes) -> bool {
    &&& fits_together(cfg)
    &&& sizes.vocab >= 0
    &&& sizes.encoder_inner >= 0
    &&& sizes.decoder_inner >= 0
    &&& forall|side: Side, slot: Slot|
        #![trigger weight_extents(cfg, sizes, side, slot)]
        weight_extents(cfg, sizes, side, slot) is Some ==> (w.at)(
            WeightKey { stack: Stack::Kalm(side), slot },
        ).shape == weight_extents(cfg, sizes, side, slot)->0
    &&& forall|side: Side, lt: LayerType| #[trigger]
        (w.freqs)(side, lt).shape == seq![cfg.hd as int / 2]
}

/// The tokens of padded rows as an array.
pub open spec fn ids_array<E>(ar: Arithmetic<E>, rows: Seq<Seq<u32>>) -> Val<E> {
    let (b, s) = (rows.len() as int, padded_width(rows));
    batch_array(ar, padded_ids(rows, s, (b * s) as nat), b, s)
}

/// The mask of padded rows as an array of reals.
pub open spec fn mask_array<E>(ar: Arithmetic<E>, rows: Seq<Seq<u32>>) -> Val<E> {
    let (b, s) = (rows.len() as int, padded_width(rows));
    let list = batch_array(ar, padded_mask(rows, s, (b * s) as nat), b, s);
    Val { shape: list.shape, elem: Elem::F32, at: list.at }
}

/// The arrays that the program over padded batches and a prompt starts from.
pub open spec fn score_inputs<E>(
    ar: Arithmetic<E>,
    w: Checkpoint<E>,
    batches: Seq<Seq<Seq<u32>>>,
    prompt: Seq<i32>,
) -> spec_fn(Kind) -> Val<E> {
    |kind: Kind|
        match kind {
            Kind::Ids(k) if k < batches.len() => ids_array(ar, batches[k as int]),
            Kind::Mask(k) if k < batches.len() => mask_array(ar, batches[k as int]),
            Kind::Weight(key) => (w.at)(key),
            Kind::InvFreq(side, lt) => (w.freqs)(side, lt),
            _ => batch_array(ar, prompt, 1, prompt.len() as int),
        }
}

/// The rows and the width of every padded batch.
pub open spec fn padded_dims(batches: Seq<Seq<Seq<u32>>>) -> Seq<(i32, i32)> {
    Seq::new(
        batches.len(),
        |k: int| (batches[k].len() as i32, padded_width(batches[k]) as i32),
    )
}

/// Whether batches can be scored: none is empty, and all rows can be counted.
pub open spec fn can_be_scored(batches: Seq<Seq<Seq<u32>>>) -> bool {
    &&& 0 < batches.len() <= i32::MAX
    &&& forall|k: int| 0 <= k < batches.len() ==> 0 < (#[trigger] batches[k]).len() <= i32::MAX
    &&& total_rows(padded_dims(batches)) <= i32::MAX
}

/// Both programs, for batches and for one row of them.
pub open spec fn beside<E>(
    ar: Arithmetic<E>,
    w: Checkpoint<E>,
    batches: Seq<Seq<Seq<u32>>>,
    prompt: Seq<i32>,
    row: Seq<u32>,
) -> Pair<E> {
    Pair {
        ar,
        e1: score_inputs(ar, w, batches, prompt),
        e2: score_inputs(ar, w, seq![seq![row]], prompt),
    }
}

/// Two programs on the same checkpoint share its weights.
pub proof fn lemma_share_checkpoint<E>(
    p: Pair<E>,
    w: Checkpoint<E>,
    cfg: &KalmConfig,
    sizes: Sizes,
)
    requires
        checkpoint_fits(w, cfg, sizes),
        forall|key: WeightKey| #[trigger] (p.e1)(Kind::Weight(key)) == (w.at)(key),
        forall|key: WeightKey| #[trigger] (p.e2)(Kind::Weight(key)) == (w.at)(key),
        forall|side: Side, lt: LayerType| #[trigger]
            (p.e1)(Kind::InvFreq(side, lt)) == (w.freqs)(side, lt),
        forall|side: Side, lt: LayerType| #[trigger]
            (p.e2)(Kind::InvFreq(side, lt)) == (w.freqs)(side, lt),
    ensures
        share_weights(p, cfg, sizes),
{
    assert forall|side: Side, slot: Slot|
        #![trigger weight(side, slot)]
        weight_extents(cfg, sizes, side, slot) is Some implies is_shared(
        p,
        weight(side, slot),
        weight(side, slot),
        weight_extents(cfg, sizes, side, slot)->0,
    ) by {
        let s = weight_extents(cfg, sizes, side, slot)->0;
        let (n, d, h) = (cfg.nh as int, cfg.hd as int, cfg.h as int);
        assert(0 <= n * d) by (nonlinear_arith)
            requires
                0 < n,
                0 < d,
        ;
        assert(0 <= cfg.nkv * cfg.hd) by (nonlinear_arith)
            requires
                cfg.nkv == 1,
                0 < cfg.hd,
        ;
        assert(are_extents(s));
        shared_leaf(p, Kind::Weight(WeightKey { stack: Stack::Kalm(side), slot }), s);
    }
    assert forall|side: Side, lt: LayerType|
        #![trigger leaf(Kind::InvFreq(side, lt))]
        is_shared(
        p,
        leaf(Kind::InvFreq(side, lt)),
        leaf(Kind::InvFreq(side, lt)),
        seq![cfg.hd as int / 2],
    ) by {
        assert((w.freqs)(side, lt).shape == seq![cfg.hd as int / 2]);
        shared_leaf(p, Kind::InvFreq(side, lt), seq![cfg.hd as int / 2]);
    }
}

/// Both programs share a checkpoint.
pub proof fn lemma_share<E>(
    ar: Arithmetic<E>,
    w: Checkpoint<E>,
    cfg: &KalmConfig,
    sizes: Sizes,
    batches: Seq<Seq<Seq<u32>>>,
    prompt: Seq<i32>,
    row: Seq<u32>,
)
    requires
        checkpoint_fits(w, cfg, sizes),
    ensures
        share_weights(beside(ar, w, batches, prompt, row), cfg, sizes),
{
    lemma_share_checkpoint(beside(ar, w, batches, prompt, row), w, cfg, sizes);
}

/// A row of a batch, by itself, is a part of the batch.
proof fn lemma_tokens<E>(
    ar: Arithmetic<E>,
    w: Checkpoint<E>,
    batches: Seq<Seq<Seq<u32>>>,
    prompt: Seq<i32>,
    k: int,
    q: int,
)
    requires
        0 <= k < batches.len() <= i32::MAX,
        0 <= q < batches[k].len() <= i32::MAX,
    ensures
        ({
            let p = beside(ar, w, batches, prompt, batches[k][q]);
            let (b, s) = (batches[k].len() as int, padded_width(batches[k]));
            let v = padded_width(seq![batches[k][q]]);
            &&& 0 < v <= s <= MAX_LEN
            &&& is_part(
                p,
                leaf(Kind::Ids(k as usize)),
                leaf(Kind::Ids(0)),
                seq![b, s],
                seq![1, v],
                seq![q, 0],
            )
            &&& is_part(
                p,
                leaf(Kind::Mask(k as usize)),
                leaf(Kind::Mask(0)),
                seq![b, s],
                seq![1, v],
                seq![q, 0],
            )
            &&& marks_end(p, leaf(Kind::Mask(k as usize)), q, v, s)
        }),
{
    reveal(is_part);
    let (rows, row) = (batches[k], batches[k][q]);
    let own = seq![row];
    let p = beside(ar, w, batches, prompt, row);
    let (b, s, v) = (rows.len() as int, padded_width(rows), padded_width(own));
    lemma_padded_width_bounds(rows);
    lemma_padded_width_bounds(own);
    assert(own.drop_last() =~= seq![]);
    reveal_with_fuel(padded_width, 2);
    let (ids1, mask1) = (leaf(Kind::Ids(k as usize)), leaf(Kind::Mask(k as usize)));
    let (ids2, mask2) = (leaf(Kind::Ids(0)), leaf(Kind::Mask(0)));
    assert(seq![own][0] == own);
    lemma_value0(p.ar, p.e1, Kind::Ids(k as usize));
    lemma_value0(p.ar, p.e2, Kind::Ids(0));
    lemma_value0(p.ar, p.e1, Kind::Mask(k as usize));
    lemma_value0(p.ar, p.e2, Kind::Mask(0));
    let (s1, s2) = (seq![b, s], seq![1, v]);
    let off = seq![q, 0];
    assert forall|i: Seq<int>| #[trigger] in_range(i, s2) implies (first(p, ids1).at)(
        shifted(i, off),
    ) == (second(p, ids2).at)(i) && (first(p, mask1).at)(shifted(i, off)) == (second(p, mask2).at)(
        i,
    ) by {
        assert(0 <= i[0] < s2[0] && 0 <= i[1] < s2[1]);
        law_padding_keeps_tokens(rows, q, i[1]);
        law_padding_keeps_tokens(own, 0, i[1]);
    }
    assert forall|c: int| v <= c < s implies (first(p, mask1).at)(#[trigger] seq_at(q, c)) == zero(
        ar,
    ) by {
        law_padding_keeps_tokens(rows, q, c);
    }
}

/// The pooled states of a row, in a batch and by itself.
proof fn lemma_pools<E>(
    ar: Arithmetic<E>,
    w: Checkpoint<E>,
    cfg: &KalmConfig,
    sizes: Sizes,
    batches: Seq<Seq<Seq<u32>>>,
    prompt: Seq<i32>,
    k: int,
    q: int,
)
    requires
        ignores_padding(ar),
        checkpoint_fits(w, cfg, sizes),
        0 <= k < batches.len() <= i32::MAX,
        0 <= q < batches[k].len() <= i32::MAX,
    ensures
        ({
            let p = beside(ar, w, batches, prompt, batches[k][q]);
            let (b, s) = (batches[k].len() as i32, padded_width(batches[k]) as i32);
            let v = padded_width(seq![batches[k][q]]) as i32;
            let (n, m) = (chunk_count(s as int), chunk_count(v as int));
            &&& 0 < v <= s <= MAX_LEN
            &&& 0 < m <= n
            &&& are_pools(
                p,
                pool_term(cfg, k as usize, b, s),
                pool_term(cfg, 0, 1, v),
                b as int,
                n,
                m,
                cfg.h as int,
                q,
            )
            &&& are_pool_marks(
                p,
                pool_mask_term(k as usize, b, s),
                pool_mask_term(0, 1, v),
                b as int,
                n,
                m,
                q,
            )
        }),
{
    let p = beside(ar, w, batches, prompt, batches[k][q]);
    let (b, s) = (batches[k].len() as i32, padded_width(batches[k]) as i32);
    let v = padded_width(seq![batches[k][q]]) as i32;
    lemma_share(ar, w, cfg, sizes, batches, prompt, batches[k][q]);
    lemma_tokens(ar, w, batches, prompt, k, q);
    let (ids1, mask1) = (leaf(Kind::Ids(k as usize)), leaf(Kind::Mask(k as usize)));
    let (ids2, mask2) = (leaf(Kind::Ids(0)), leaf(Kind::Mask(0)));
    row_encoder_states(p, cfg, sizes, ids1, ids2, mask1, mask2, b, s, v, q);
    row_pool(
        p,
        cfg,
        encoder_states_term(cfg, ids1, mask1, b, s),
        encoder_states_term(cfg, ids2, mask2, 1, v),
        mask1,
        mask2,
        b,
        s,
        v,
        q,
    );
    row_pool_marks(p, mask1, mask2, b, s, v, q);
}

/// Pooled states filled to a common number of groups: a part of them stays one.
proof fn row_even<E>(
    p: Pair<E>,
    x1: Term,
    x2: Term,
    m1: Term,
    m2: Term,
    b: i32,
    n: int,
    m: int,
    ne: int,
    h: i32,
    r: int,
)
    requires
        are_pools(p, x1, x2, b as int, n, m, h as int, r),
        are_pool_marks(p, m1, m2, b as int, n, m, r),
        0 < b,
        0 < m <= n <= ne <= MAX_LEN,
        0 < h,
        0 <= r < b,
    ensures
        are_pools(
            p,
            filled_term(x1, ne - n, Dims::D3(b, (ne - n) as i32, h)),
            x2,
            b as int,
            ne,
            m,
            h as int,
            r,
        ),
        are_pool_marks(
            p,
            filled_term(m1, ne - n, Dims::D2(b, (ne - n) as i32)),
            m2,
            b as int,
            ne,
            m,
            r,
        ),
{
    reveal(is_part);
    let d = ne - n;
    let (dx, dm) = (Dims::D3(b, d as i32, h), Dims::D2(b, d as i32));
    let (sx, sm) = (seq![b as int, n, h as int], seq![b as int, n]);
    assert(extents(dx) =~= sx.update(1, d) && extents(dm) =~= sm.update(1, d));
    lemma_filled(p.ar, p.e1, x1, sx, d, dx);
    lemma_filled(p.ar, p.e1, m1, sm, d, dm);
    let (zx, zm) = (seq![b as int, ne, h as int], seq![b as int, ne]);
    assert(sx.update(1, n + d) =~= zx && sm.update(1, n + d) =~= zm);
    let (tx, tm) = (seq![1, m, h as int], seq![1, m]);
    let (ox, om) = (seq![r, 0, 0], seq![r, 0]);
    let (fx, fm) = (filled_term(x1, d, dx), filled_term(m1, d, dm));
    assert forall|i: Seq<int>| #[trigger] in_range(i, tx) implies (first(p, fx).at)(
        shifted(i, ox),
    ) == (second(p, x2).at)(i) by {
        assert(0 <= i[0] < tx[0] && 0 <= i[1] < tx[1] && 0 <= i[2] < tx[2]);
        assert(in_range(shifted(i, ox), zx));
    }
    assert forall|i: Seq<int>| #[trigger] in_range(i, tm) implies (first(p, fm).at)(
        shifted(i, om),
    ) == (second(p, m2).at)(i) by {
        assert(0 <= i[0] < tm[0] && 0 <= i[1] < tm[1]);
        assert(in_range(shifted(i, om), zm));
    }
    assert forall|c: int| m <= c < ne implies (first(p, fm).at)(#[trigger] seq_at(r, c)) == zero(
        p.ar,
    ) by {
        assert(in_range(seq_at(r, c), zm));
    }
    assert(lies_in(tx, zx, ox));
    assert(lies_in(tm, zm, om));
}

/// The rows of the first batches.
pub proof fn lemma_rows_counted<E>(
    ar: Arithmetic<E>,
    env: spec_fn(Kind) -> Val<E>,
    args: Seq<Term>,
    dims: Seq<(i32, i32)>,
    k: int,
)
    requires
        args.len() == dims.len(),
        0 <= k <= dims.len(),
        forall|j: int|
            0 <= j < args.len() ==> value(ar, env, #[trigger] args[j]).shape[0] == dims[j].0,
    ensures
        extent_before(values(ar, env, args).take(k), 0) == total_rows(dims.take(k)),
    decreases k,
{
    let vals = values(ar, env, args);
    lemma_values(ar, env, args);
    if k > 0 {
        lemma_rows_counted(ar, env, args, dims, k - 1);
        assert(vals.take(k).drop_last() =~= vals.take(k - 1));
        assert(dims.take(k).drop_last() =~= dims.take(k - 1));
        assert(vals.take(k).last() == vals[k - 1]);
        assert(vals[k - 1] == value(ar, env, args[k - 1]));
    }
}

/// The extents and the type of one batch's pooled states and marks, filled to the
/// common number of groups.
proof fn lemma_even<E>(
    ar: Arithmetic<E>,
    w: Checkpoint<E>,
    cfg: &KalmConfig,
    sizes: Sizes,
    batches: Seq<Seq<Seq<u32>>>,
    prompt: Seq<i32>,
    k: int,
    q: int,
)
    requires
        ignores_padding(ar),
        checkpoint_fits(w, cfg, sizes),
        can_be_scored(batches),
        0 <= k < batches.len(),
        0 <= q < batches[k].len(),
    ensures
        ({
            let p = beside(ar, w, batches, prompt, batches[k][q]);
            let dims = padded_dims(batches);
            let ne = max_chunks(dims);
            let v = padded_width(seq![batches[k][q]]) as i32;
            let m = chunk_count(v as int);
            let (x, y) = (even_pool_term(cfg, dims, k), even_mask_term(dims, k));
            &&& 0 < m <= ne <= MAX_LEN
            &&& 0 < v <= MAX_LEN
            &&& are_pools(
                p,
                x,
                pool_term(cfg, 0, 1, v),
                batches[k].len() as int,
                ne,
                m,
                cfg.h as int,
                q,
            )
            &&& are_pool_marks(p, y, pool_mask_term(0, 1, v), batches[k].len() as int, ne, m, q)
            &&& first(p, x).shape == seq![batches[k].len() as int, ne, cfg.h as int]
            &&& first(p, y).shape == seq![batches[k].len() as int, ne]
            &&& first(p, x).elem == Elem::Bf16
            &&& first(p, y).elem == Elem::F32
        }),
{
    let p = beside(ar, w, batches, prompt, batches[k][q]);
    let dims = padded_dims(batches);
    let ne = max_chunks(dims);
    let (b, s) = (batches[k].len() as i32, padded_width(batches[k]) as i32);
    let v = padded_width(seq![batches[k][q]]) as i32;
    let (n, m) = (chunk_count(s as int), chunk_count(v as int));
    assert forall|j: int| 0 <= j < dims.len() implies 1 <= (#[trigger] dims[j]).1 <= MAX_LEN by {
        lemma_padded_width_bounds(batches[j]);
    }
    lemma_max_chunks(dims);
    assert(dims[k] == (b, s));
    lemma_pools(ar, w, cfg, sizes, batches, prompt, k, q);
    let (x1, x2) = (pool_term(cfg, k as usize, b, s), pool_term(cfg, 0, 1, v));
    let (m1, m2) = (pool_mask_term(k as usize, b, s), pool_mask_term(0, 1, v));
    row_even(p, x1, x2, m1, m2, b, n, m, ne, cfg.h, q);
    let d = ne - n;
    let (sx, sm) = (seq![b as int, n, cfg.h as int], seq![b as int, n]);
    let (dx, dm) = (Dims::D3(b, d as i32, cfg.h), Dims::D2(b, d as i32));
    assert(extents(dx) =~= sx.update(1, d) && extents(dm) =~= sm.update(1, d));
    reveal(is_part);
    lemma_filled(p.ar, p.e1, x1, sx, d, dx);
    lemma_filled(p.ar, p.e1, m1, sm, d, dm);
    lemma_cast_elem(p.ar, p.e1, Ty::Bf16, x1.args[0]);
    lemma_cast_elem(p.ar, p.e1, Ty::F32, m1.args[0]);
    assert(x1 == unary(Kind::Cast(Ty::Bf16), x1.args[0]));
    assert(m1 == unary(Kind::Cast(Ty::F32), m1.args[0]));
}

proof fn lemma_cast_elem<E>(ar: Arithmetic<E>, env: spec_fn(Kind) -> Val<E>, ty: Ty, t: Term)
    ensures
        value(ar, env, unary(Kind::Cast(ty), t)).elem == elem_of(ty),
{
    lemma_value1(ar, env, Kind::Cast(ty), t);
    lemma_result1(ar, env, Kind::Cast(ty), value(ar, env, t));
}

/// The pooled states and marks of one row by itself.
proof fn lemma_own_terms(cfg: &KalmConfig, row: Seq<u32>)
    ensures
        ({
            let own = padded_dims(seq![seq![row]]);
            let v = padded_width(seq![row]) as i32;
            let kind = Kind::Concat { axis: 0 };
            &&& max_chunks(own) == chunk_count(v as int)
            &&& all_pools_term(cfg, own) == (Term { kind, args: seq![pool_term(cfg, 0, 1, v)] })
            &&& all_masks_term(own) == (Term { kind, args: seq![pool_mask_term(0, 1, v)] })
        }),
{
    let own = padded_dims(seq![seq![row]]);
    let v = padded_width(seq![row]) as i32;
    lemma_padded_width_bounds(seq![row]);
    assert(own =~= seq![(1i32, v)]);
    assert(own.drop_last() =~= seq![]);
    assert(max_chunks(own.drop_last()) == 0);
    assert(max_chunks(own) == chunk_count(v as int));
    assert(even_pool_term(cfg, own, 0) == pool_term(cfg, 0, 1, v));
    assert(even_mask_term(own, 0) == pool_mask_term(0, 1, v));
    assert(all_pools_term(cfg, own).args =~= seq![pool_term(cfg, 0, 1, v)]);
    assert(all_masks_term(own).args =~= seq![pool_mask_term(0, 1, v)]);
}

/// Whether arrays can be joined along their first axis to the rows of all batches.
spec fn are_listed<E>(
    ar: Arithmetic<E>,
    env: spec_fn(Kind) -> Val<E>,
    args: Seq<Term>,
    dims: Seq<(i32, i32)>,
    tail: Seq<int>,
    e: Elem,
) -> bool {
    &&& args.len() == dims.len()
    &&& forall|j: int|
        0 <= j < args.len() ==> {
            let v = value(ar, env, #[trigger] args[j]);
            &&& v.shape == rows_of_extents(v.shape[0], tail)
            &&& v.elem == e
            &&& 0 <= v.shape[0]
            &&& v.shape[0] == dims[j].0
        }
}

proof fn lemma_listed<E>(
    ar: Arithmetic<E>,
    w: Checkpoint<E>,
    cfg: &KalmConfig,
    sizes: Sizes,
    batches: Seq<Seq<Seq<u32>>>,
    prompt: Seq<i32>,
)
    requires
        ignores_padding(ar),
        checkpoint_fits(w, cfg, sizes),
        can_be_scored(batches),
    ensures
        ({
            let dims = padded_dims(batches);
            let env = score_inputs(ar, w, batches, prompt);
            let ne = max_chunks(dims);
            let (tx, tm) = (seq![ne, cfg.h as int], seq![ne]);
            &&& are_listed(ar, env, all_pools_term(cfg, dims).args, dims, tx, Elem::Bf16)
            &&& are_listed(ar, env, all_masks_term(dims).args, dims, tm, Elem::F32)
        }),
{
    let dims = padded_dims(batches);
    let env = score_inputs(ar, w, batches, prompt);
    let ne = max_chunks(dims);
    let (tx, tm) = (seq![ne, cfg.h as int], seq![ne]);
    let pools = all_pools_term(cfg, dims).args;
    let marks = all_masks_term(dims).args;
    assert forall|j: int| 0 <= j < pools.len() implies {
        let v = value(ar, env, #[trigger] pools[j]);
        &&& v.shape == rows_of_extents(v.shape[0], tx)
        &&& v.elem == Elem::Bf16
        &&& 0 <= v.shape[0]
        &&& v.shape[0] == dims[j].0
    } by {
        lemma_even(ar, w, cfg, sizes, batches, prompt, j, 0);
        let b = batches[j].len() as int;
        assert(rows_of_extents(b, tx) =~= seq![b, ne, cfg.h as int]);
    }
    assert forall|j: int| 0 <= j < marks.len() implies {
        let v = value(ar, env, #[trigger] marks[j]);
        &&& v.shape == rows_of_extents(v.shape[0], tm)
        &&& v.elem == Elem::F32
        &&& 0 <= v.shape[0]
        &&& v.shape[0] == dims[j].0
    } by {
        lemma_even(ar, w, cfg, sizes, batches, prompt, j, 0);
        let b = batches[j].len() as int;
        assert(rows_of_extents(b, tm) =~= seq![b, ne]);
    }
}

/// The rows before a batch and all rows, where arrays are joined.
proof fn lemma_counts<E>(
    ar: Arithmetic<E>,
    env: spec_fn(Kind) -> Val<E>,
    args: Seq<Term>,
    dims: Seq<(i32, i32)>,
    tail: Seq<int>,
    e: Elem,
    k: int,
)
    requires
        are_listed(ar, env, args, dims, tail, e),
        0 <= k < dims.len(),
    ensures
        extent_before(values(ar, env, args).take(k), 0) == total_rows(dims.take(k)),
        extent_before(values(ar, env, args), 0) == total_rows(dims),
        0 <= total_rows(dims.take(k)),
        total_rows(dims.take(k)) + dims[k].0 <= total_rows(dims),
{
    let vals = values(ar, env, args);
    lemma_values(ar, env, args);
    lemma_rows_counted(ar, env, args, dims, k);
    lemma_rows_counted(ar, env, args, dims, dims.len() as int);
    assert(vals.take(dims.len() as int) =~= vals);
    assert(dims.take(dims.len() as int) =~= dims);
    assert forall|j: int| 0 <= j < vals.len() implies 0 <= (#[trigger] vals[j]).shape[0] by {
        assert(vals[j] == value(ar, env, args[j]));
    }
    lemma_rows_before(vals, k);
    assert(vals[k] == value(ar, env, args[k]));
}

/// The pooled states of all batches: those of a row by itself are a part.
pub proof fn row_all_pools<E>(
    ar: Arithmetic<E>,
    w: Checkpoint<E>,
    cfg: &KalmConfig,
    sizes: Sizes,
    batches: Seq<Seq<Seq<u32>>>,
    prompt: Seq<i32>,
    k: int,
    q: int,
)
    requires
        ignores_padding(ar),
        checkpoint_fits(w, cfg, sizes),
        can_be_scored(batches),
        0 <= k < batches.len(),
        0 <= q < batches[k].len(),
    ensures
        ({
            let row = batches[k][q];
            let p = beside(ar, w, batches, prompt, row);
            let (dims, own) = (padded_dims(batches), padded_dims(seq![seq![row]]));
            let (ne, m) = (max_chunks(dims), max_chunks(own));
            let (n, r) = (total_rows(dims), total_rows(dims.take(k)) + q);
            &&& 0 < m <= ne <= MAX_LEN
            &&& 0 <= r < n
            &&& are_pools(
                p,
                all_pools_term(cfg, dims),
                all_pools_term(cfg, own),
                n,
                ne,
                m,
                cfg.h as int,
                r,
            )
        }),
{
    let row = batches[k][q];
    let p = beside(ar, w, batches, prompt, row);
    let dims = padded_dims(batches);
    let ne = max_chunks(dims);
    let h = cfg.h as int;
    let v = padded_width(seq![row]) as i32;
    let m = chunk_count(v as int);
    lemma_even(ar, w, cfg, sizes, batches, prompt, k, q);
    lemma_own_terms(cfg, row);
    lemma_listed(ar, w, cfg, sizes, batches, prompt);
    let x2 = pool_term(cfg, 0, 1, v);
    let pools = all_pools_term(cfg, dims).args;
    let tx = seq![ne, h];
    lemma_counts(p.ar, p.e1, pools, dims, tx, Elem::Bf16, k);
    let (n, before) = (total_rows(dims), total_rows(dims.take(k)));
    let r = before + q;
    let b = batches[k].len() as int;
    let ux = seq![m, h];
    let ox = seq![0int, 0];
    assert(rows_of_extents(b, tx) =~= seq![b, ne, h]);
    assert(rows_of_extents(n, tx) =~= seq![n, ne, h]);
    assert(rows_of_extents(1, ux) =~= seq![1, m, h]);
    assert(rows_of_extents(q, ox) =~= seq![q, 0, 0]);
    assert(rows_of_extents(r, ox) =~= seq![r, 0, 0]);
    assert(pools[k] == even_pool_term(cfg, dims, k));
    row_joined(p, pools, x2, k, q, tx, ux, Elem::Bf16, ox, before, n);
}

/// The marks of all batches: those of a row by itself are a part, with zeros behind.
pub proof fn row_all_marks<E>(
    ar: Arithmetic<E>,
    w: Checkpoint<E>,
    cfg: &KalmConfig,
    sizes: Sizes,
    batches: Seq<Seq<Seq<u32>>>,
    prompt: Seq<i32>,
    k: int,
    q: int,
)
    requires
        ignores_padding(ar),
        checkpoint_fits(w, cfg, sizes),
        can_be_scored(batches),
        0 <= k < batches.len(),
        0 <= q < batches[k].len(),
    ensures
        ({
            let row = batches[k][q];
            let p = beside(ar, w, batches, prompt, row);
            let (dims, own) = (padded_dims(batches), padded_dims(seq![seq![row]]));
            let (ne, m) = (max_chunks(dims), max_chunks(own));
            let (n, r) = (total_rows(dims), total_rows(dims.take(k)) + q);
            are_pool_marks(p, all_masks_term(dims), all_masks_term(own), n, ne, m, r)
        }),
{
    let row = batches[k][q];
    let p = beside(ar, w, batches, prompt, row);
    let dims = padded_dims(batches);
    let ne = max_chunks(dims);
    let v = padded_width(seq![row]) as i32;
    let m = chunk_count(v as int);
    lemma_even(ar, w, cfg, sizes, batches, prompt, k, q);
    lemma_own_terms(cfg, row);
    lemma_listed(ar, w, cfg, sizes, batches, prompt);
    let y2 = pool_mask_term(0, 1, v);
    let marks = all_masks_term(dims).args;
    let tm = seq![ne];
    lemma_counts(p.ar, p.e1, marks, dims, tm, Elem::F32, k);
    let (n, before) = (total_rows(dims), total_rows(dims.take(k)));
    let r = before + q;
    let b = batches[k].len() as int;
    let um = seq![m];
    let om = seq![0int];
    assert(rows_of_extents(b, tm) =~= seq![b, ne]);
    assert(rows_of_extents(n, tm) =~= seq![n, ne]);
    assert(rows_of_extents(1, um) =~= seq![1, m]);
    assert(rows_of_extents(q, om) =~= seq![q, 0]);
    assert(rows_of_extents(r, om) =~= seq![r, 0]);
    assert(marks[k] == even_mask_term(dims, k));
    row_joined(p, marks, y2, k, q, tm, um, Elem::F32, om, before, n);
    assert forall|c: int| m <= c < ne implies (first(p, all_masks_term(dims)).at)(
        #[trigger] seq_at(r, c),
    ) == zero(ar) by {
        assert(seq_at(r, c).update(0, q) =~= seq_at(q, c));
    }
}

} // verus!
