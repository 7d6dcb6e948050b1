//! What the encoder-decoder's answer is made of: the mask of the merged attention, the
//! joined passages, and the probability of yes.

use crate::batch::MAX_LEN;
use crate::graph::{binary, dec, leaf, literal, ternary, unary, Dims, Kind, Side, Slot, Stack, Term};
use crate::graph::{Ty, WeightKey};
use crate::kalm::{chunk_count, decode_term, embedding, encoder_states_term, hide_zeros_term};
use crate::kalm::{pooled_mask_term, pooled_term};
use crate::kalm_config::KalmConfig;
use crate::kalm_joined::{lemma_joined_at, lemma_joined_extents, lemma_rows_counted};
use crate::kalm_joined::rows_of_extents;
use crate::kalm_layer_values::holds_checkpoint;
use crate::kalm_pools::lemma_filled;
use crate::kalm_score::{all_masks_term, all_pools_term, answer_term, causal_term, cross_term};
use crate::kalm_score::{even_mask_term, even_pool_term, last_position, lemma_max_chunks};
use crate::kalm_score::{max_chunks, merged_mask_term, pool_mask_term, pool_term, score_term};
use crate::kalm_score::widths_are_read;
use crate::kalm_score_values::law_chunks_are_pooled_by_their_marks;
use crate::kalm_score_values::law_decoder_ends_in_its_final_norm;
use crate::kalm_score_values::law_encoder_ends_in_its_final_norm;
use crate::kalm_shapes::{have_rows, total_rows, weight_extents, Sizes};
use crate::kalm_values::{lemma_in_place, weight_at};
use crate::links::{at1, at2, at3, at4};
use crate::meaning::{counts, in_range, lemma_value0, lemma_value1, lemma_value2, lemma_value3};
use crate::meaning::{lemma_values, line, project, value, values, zero, Arithmetic, Val};
use crate::shapes::{extents, lemma_product, lemma_reshaped, lemma_stretched_into};
use crate::shapes::lemma_stretched_scalar;
use crate::types::Elem;
use crate::values::{leaf_at, linear2_at, number_at, row2, row3, times, weight_of};
use crate::window_moves::{lemma_flat, lemma_reshape_at};
use crate::windows::{lemma_result1, lemma_result2, lemma_result3, lemma_result_concat};
use vstd::prelude::*;

verus! {

/// A choice by a condition between a large negative number and zero.
proof fn hidden_at<E>(
    ar: Arithmetic<E>,
    env: spec_fn(Kind) -> Val<E>,
    c: Term,
    s: Seq<int>,
)
    requires
        value(ar, env, c).shape == s,
    ensures
        ({
            let y = value(ar, env, ternary(Kind::Which, c, literal(-1, 30), literal(0, 0)));
            &&& y.shape == s
            &&& forall|i: Seq<int>| #[trigger]
                in_range(i, s) ==> (y.at)(i) == if (ar.holds)((value(ar, env, c).at)(i)) {
                    (ar.num)(dec(-1, 30))
                } else {
                    (ar.num)(dec(0, 0))
                }
        }),
{
    let (neg, nil) = (literal(-1, 30), literal(0, 0));
    number_at(ar, env, dec(-1, 30));
    number_at(ar, env, dec(0, 0));
    lemma_value3(ar, env, Kind::Which, c, neg, nil);
    lemma_result3(
        ar,
        env,
        Kind::Which,
        value(ar, env, c),
        value(ar, env, neg),
        value(ar, env, nil),
    );
    lemma_stretched_scalar(seq![]);
    lemma_stretched_scalar(s);
    assert forall|i: Seq<int>| #[trigger] in_range(i, s) implies project(i, s) == i by {
        lemma_in_place(i, s);
    }
}

/// An element-wise comparison with zero.
proof fn compared_at<E>(
    ar: Arithmetic<E>,
    env: spec_fn(Kind) -> Val<E>,
    kind: Kind,
    t: Term,
    s: Seq<int>,
)
    requires
        kind is Greater || kind is Equal,
        value(ar, env, t).shape == s,
    ensures
        ({
            let y = value(ar, env, binary(kind, t, literal(0, 0)));
            &&& y.shape == s
            &&& forall|i: Seq<int>| #[trigger]
                in_range(i, s) ==> (y.at)(i) == (ar.bin)(
                    kind,
                    (value(ar, env, t).at)(i),
                    (ar.num)(dec(0, 0)),
                )
        }),
{
    let nil = literal(0, 0);
    number_at(ar, env, dec(0, 0));
    lemma_value2(ar, env, kind, t, nil);
    lemma_result2(ar, env, kind, value(ar, env, t), value(ar, env, nil));
    lemma_stretched_scalar(s);
    assert forall|i: Seq<int>| #[trigger] in_range(i, s) implies project(i, s) == i by {
        lemma_in_place(i, s);
    }
}

proof fn causal_at<E>(ar: Arithmetic<E>, env: spec_fn(Kind) -> Val<E>, n: i32, td: i32)
    requires
        0 < n,
        0 < td,
    ensures
        ({
            let y = value(ar, env, causal_term(n, td));
            &&& y.shape == seq![n as int, 1, td as int, td as int]
            &&& forall|r: int, q: int, c: int|
                0 <= r < n && 0 <= q < td && 0 <= c < td ==> #[trigger] at4(y, r, 0, q, c)
                    == if (ar.holds)(
                    (ar.bin)(
                        Kind::Greater,
                        if q < c {
                            (ar.whole)(1)
                        } else {
                            (ar.whole)(0)
                        },
                        (ar.num)(dec(0, 0)),
                    ),
                ) {
                    (ar.num)(dec(-1, 30))
                } else {
                    (ar.num)(dec(0, 0))
                }
        }),
{
    let t = td as int;
    let square = seq![t, t];
    let ones = leaf(Kind::Ones(Dims::D2(td, td)));
    lemma_value0(ar, env, Kind::Ones(Dims::D2(td, td)));
    assert(extents(Dims::D2(td, td)) =~= square);
    let upper = unary(Kind::Triu(1), ones);
    lemma_value1(ar, env, Kind::Triu(1), ones);
    lemma_result1(ar, env, Kind::Triu(1), value(ar, env, ones));
    let later = binary(Kind::Greater, upper, literal(0, 0));
    compared_at(ar, env, Kind::Greater, upper, square);
    let hidden = ternary(Kind::Which, later, literal(-1, 30), literal(0, 0));
    hidden_at(ar, env, later, square);
    let (d1, four) = (Dims::D4(1, 1, td, td), seq![1, 1, t, t]);
    let shaped = unary(Kind::Reshape(d1), hidden);
    lemma_value1(ar, env, Kind::Reshape(d1), hidden);
    assert(extents(d1) =~= four);
    lemma_product(t, t, 1, 1);
    lemma_product(1, 1, t, t);
    assert(1 * 1 * t * t == t * t) by (nonlinear_arith);
    lemma_reshaped(square, four);
    lemma_result1(ar, env, Kind::Reshape(d1), value(ar, env, hidden));
    let (d2, own) = (Dims::D4(n, 1, td, td), seq![n as int, 1, t, t]);
    lemma_value1(ar, env, Kind::Broadcast(d2), shaped);
    assert(extents(d2) =~= own);
    lemma_stretched_into(own, four);
    lemma_result1(ar, env, Kind::Broadcast(d2), value(ar, env, shaped));
    let y = value(ar, env, causal_term(n, td));
    assert forall|r: int, q: int, c: int|
        0 <= r < n && 0 <= q < td && 0 <= c < td implies #[trigger] at4(y, r, 0, q, c) == if (ar.holds)(
        (ar.bin)(
            Kind::Greater,
            if q < c {
                (ar.whole)(1)
            } else {
                (ar.whole)(0)
            },
            (ar.num)(dec(0, 0)),
        ),
    ) {
        (ar.num)(dec(-1, 30))
    } else {
        (ar.num)(dec(0, 0))
    } by {
        let (i, j, k) = (seq![r, 0, q, c], seq![0, 0, q, c], seq![q, c]);
        assert(project(i, four) =~= j);
        assert(in_range(k, square));
        lemma_flat(j, four);
        lemma_flat(k, square);
        assert(((0 * 1 + 0) * t + q) * t + c == q * t + c) by (nonlinear_arith);
        lemma_reshape_at(ar, env, d1, value(ar, env, hidden), four, j, k);
        assert((value(ar, env, upper).at)(k) == if q < c {
            (ar.whole)(1)
        } else {
            (ar.whole)(0)
        });
    }
}

proof fn cross_at<E>(
    ar: Arithmetic<E>,
    env: spec_fn(Kind) -> Val<E>,
    pmask: Term,
    n: i32,
    td: i32,
    ne: i32,
)
    requires
        0 < n,
        0 < td,
        0 < ne,
        value(ar, env, pmask).shape == seq![n as int, ne as int],
    ensures
        ({
            let y = value(ar, env, cross_term(pmask, n, td, ne));
            &&& y.shape == seq![n as int, 1, td as int, ne as int]
            &&& forall|r: int, q: int, c: int|
                0 <= r < n && 0 <= q < td && 0 <= c < ne ==> #[trigger] at4(y, r, 0, q, c)
                    == if (ar.holds)(
                    (ar.bin)(
                        Kind::Equal,
                        at2(value(ar, env, pmask), r, c),
                        (ar.num)(dec(0, 0)),
                    ),
                ) {
                    (ar.num)(dec(-1, 30))
                } else {
                    (ar.num)(dec(0, 0))
                }
        }),
{
    let m = value(ar, env, pmask);
    let (d1, four) = (Dims::D4(n, 1, 1, ne), seq![n as int, 1, 1, ne as int]);
    let k4 = unary(Kind::Reshape(d1), pmask);
    lemma_value1(ar, env, Kind::Reshape(d1), pmask);
    assert(extents(d1) =~= four);
    lemma_product(n as int, ne as int, 1, 1);
    lemma_product(n as int, 1, 1, ne as int);
    assert(n * 1 * 1 * ne == n * ne) by (nonlinear_arith);
    lemma_reshaped(m.shape, four);
    lemma_result1(ar, env, Kind::Reshape(d1), m);
    let same = binary(Kind::Equal, k4, literal(0, 0));
    compared_at(ar, env, Kind::Equal, k4, four);
    hidden_at(ar, env, same, four);
    let hidden = hide_zeros_term(k4);
    let (d2, own) = (Dims::D4(n, 1, td, ne), seq![n as int, 1, td as int, ne as int]);
    lemma_value1(ar, env, Kind::Broadcast(d2), hidden);
    assert(extents(d2) =~= own);
    lemma_stretched_into(own, four);
    lemma_result1(ar, env, Kind::Broadcast(d2), value(ar, env, hidden));
    let y = value(ar, env, cross_term(pmask, n, td, ne));
    assert forall|r: int, q: int, c: int|
        0 <= r < n && 0 <= q < td && 0 <= c < ne implies #[trigger] at4(y, r, 0, q, c) == if (ar.holds)((ar.bin)(Kind::Equal, at2(m, r, c), (ar.num)(dec(0, 0)))) {
        (ar.num)(dec(-1, 30))
    } else {
        (ar.num)(dec(0, 0))
    } by {
        let (i, j, k) = (seq![r, 0, q, c], seq![r, 0, 0, c], seq![r, c]);
        assert(project(i, four) =~= j);
        assert(in_range(j, four));
        assert(in_range(k, m.shape));
        lemma_flat(j, four);
        lemma_flat(k, m.shape);
        assert((r * 1 + 0) * 1 + 0 == r);
        lemma_reshape_at(ar, env, d1, m, four, j, k);
    }
}

/// The mask of the merged attention: of a token of the prompt it says ten to the
/// thirtieth below zero to every earlier query, and zero to its own and to later ones;
/// behind the prompt it says the same of every pooled state whose mark equals zero, and
/// zero of the others, to every query.
pub proof fn law_merged_mask_hides_later_tokens_and_empty_chunks<E>(
    ar: Arithmetic<E>,
    env: spec_fn(Kind) -> Val<E>,
    pmask: Term,
    n: i32,
    td: i32,
    ne: i32,
)
    requires
        0 < n,
        0 < td,
        0 < ne,
        value(ar, env, pmask).shape == seq![n as int, ne as int],
    ensures
        ({
            let y = value(ar, env, merged_mask_term(pmask, n, td, ne));
            let far = (ar.cast)(Elem::Bf16, (ar.num)(dec(-1, 30)));
            let near = (ar.cast)(Elem::Bf16, (ar.num)(dec(0, 0)));
            let nil = (ar.num)(dec(0, 0));
            &&& y.shape == seq![n as int, 1, td as int, td + ne]
            &&& forall|r: int, q: int, c: int|
                0 <= r < n && 0 <= q < td && q < c < td && (ar.holds)(
                    (ar.bin)(Kind::Greater, (ar.whole)(1), nil),
                ) ==> #[trigger] at4(y, r, 0, q, c) == far
            &&& forall|r: int, q: int, c: int|
                0 <= r < n && 0 <= q < td && 0 <= c <= q && !(ar.holds)(
                    (ar.bin)(Kind::Greater, (ar.whole)(0), nil),
                ) ==> #[trigger] at4(y, r, 0, q, c) == near
            &&& forall|r: int, q: int, c: int|
                0 <= r < n && 0 <= q < td && td <= c < td + ne ==> #[trigger] at4(y, r, 0, q, c)
                    == if (ar.holds)(
                    (ar.bin)(Kind::Equal, at2(value(ar, env, pmask), r, c - td), nil),
                ) {
                    far
                } else {
                    near
                }
        }),
{
    causal_at(ar, env, n, td);
    cross_at(ar, env, pmask, n, td, ne);
    let (a, b) = (causal_term(n, td), cross_term(pmask, n, td, ne));
    let kind = Kind::Concat { axis: -1i32 };
    let both = binary(kind, a, b);
    lemma_value2(ar, env, kind, a, b);
    let s = seq![n as int, 1, td as int, td + ne];
    lemma_result_concat(ar, env, -1i32, value(ar, env, a), value(ar, env, b), s);
    let cast = Kind::Cast(Ty::Bf16);
    lemma_value1(ar, env, cast, both);
    lemma_result1(ar, env, cast, value(ar, env, both));
    let y = value(ar, env, merged_mask_term(pmask, n, td, ne));
    assert forall|r: int, q: int, c: int|
        0 <= r < n && 0 <= q < td && 0 <= c < td + ne implies #[trigger] at4(y, r, 0, q, c) == (
    ar.cast)(
        Elem::Bf16,
        if c < td {
            at4(value(ar, env, a), r, 0, q, c)
        } else {
            at4(value(ar, env, b), r, 0, q, c - td)
        },
    ) by {
        let i = seq![r, 0, q, c];
        if c >= td {
            assert(i.update(3, c - td) =~= seq![r, 0, q, c - td]);
        }
    }
}

/// The states of the last position, one row for each document.
proof fn last_at<E>(
    ar: Arithmetic<E>,
    env: spec_fn(Kind) -> Val<E>,
    cfg: &KalmConfig,
    states: Term,
    n: i32,
    td: i32,
)
    requires
        counts(ar),
        0 < n,
        0 < td,
        0 < cfg.h,
        value(ar, env, states).shape == seq![n as int, td as int, cfg.h as int],
    ensures
        ({
            let last = unary(
                Kind::Reshape(Dims::D2(n, cfg.h)),
                binary(Kind::Take { axis: 1 }, states, leaf(Kind::Int(last_position(td)))),
            );
            let y = value(ar, env, last);
            &&& y.shape == seq![n as int, cfg.h as int]
            &&& forall|r: int|
                0 <= r < n ==> #[trigger] row2(y, r) == row3(value(ar, env, states), r, td - 1)
        }),
{
    let x = value(ar, env, states);
    let h = cfg.h as int;
    let number = leaf(Kind::Int(last_position(td)));
    lemma_value0(ar, env, Kind::Int(last_position(td)));
    let vn = value(ar, env, number);
    assert(vn.shape =~= Seq::<int>::empty());
    let take = Kind::Take { axis: 1 };
    let picked = binary(take, states, number);
    lemma_value2(ar, env, take, states, number);
    lemma_result2(ar, env, take, x, vn);
    let two = seq![n as int, h];
    assert(x.shape.take(1) + vn.shape + x.shape.skip(2) =~= two);
    let vp = value(ar, env, picked);
    let dims = Dims::D2(n, cfg.h);
    let last = unary(Kind::Reshape(dims), picked);
    lemma_value1(ar, env, Kind::Reshape(dims), picked);
    assert(extents(dims) =~= two);
    lemma_reshaped(two, two);
    lemma_result1(ar, env, Kind::Reshape(dims), vp);
    let y = value(ar, env, last);
    assert forall|r: int| 0 <= r < n implies #[trigger] row2(y, r) == row3(x, r, td - 1) by {
        assert forall|j: int| 0 <= j < h implies #[trigger] row2(y, r)[j] == row3(
            x,
            r,
            td - 1,
        )[j] by {
            let i = seq![r, j];
            assert(in_range(i, two));
            lemma_reshape_at(ar, env, dims, vp, two, i, i);
            assert(i.subrange(1, 1) =~= Seq::<int>::empty());
            let k = (ar.index)((vn.at)(Seq::<int>::empty()));
            assert((ar.index)((ar.whole)(td - 1)) == td - 1);
            assert(i.take(1).push(k) + i.skip(1) =~= seq![r, td - 1, j]);
        }
        assert(row2(y, r) =~= row3(x, r, td - 1));
    }
}

/// The score of a document is the softmax, over the logits of yes and of no, at yes: a
/// logit is the product of the decoder's state at the last position of the prompt with
/// the row of the encoder's embedding weight that the answer's token names.
pub proof fn law_score_is_the_probability_of_yes<E>(
    ar: Arithmetic<E>,
    env: spec_fn(Kind) -> Val<E>,
    cfg: &KalmConfig,
    states: Term,
    vocab: int,
    n: i32,
    td: i32,
    yes: i32,
    no: i32,
)
    requires
        counts(ar),
        0 < n,
        0 < td,
        0 < cfg.h,
        0 <= yes < vocab,
        0 <= no < vocab,
        value(ar, env, states).shape == seq![n as int, td as int, cfg.h as int],
        weight_of(env, Stack::Kalm(Side::Encoder), Slot::Embedding).shape == seq![
            vocab,
            cfg.h as int,
        ],
    ensures
        ({
            let table = env(
                Kind::Weight(
                    WeightKey { stack: Stack::Kalm(Side::Encoder), slot: Slot::Embedding },
                ),
            );
            let logit = |r: int, token: i32|
                (ar.dot)(row3(value(ar, env, states), r, td - 1), row2(table, token as int));
            let y = value(ar, env, answer_term(cfg, states, n, td, yes, no));
            &&& y.shape == seq![n as int]
            &&& forall|r: int|
                0 <= r < n ==> #[trigger] at1(y, r) == (ar.soft)(
                    seq![logit(r, yes), logit(r, no)],
                    0,
                )
        }),
{
    let h = cfg.h as int;
    last_at(ar, env, cfg, states, n, td);
    let last = unary(
        Kind::Reshape(Dims::D2(n, cfg.h)),
        binary(Kind::Take { axis: 1 }, states, leaf(Kind::Int(last_position(td)))),
    );
    weight_at(ar, env, Side::Encoder, Slot::Embedding);
    linear2_at(ar, env, last, embedding(), n as int, h, vocab);
    let logits = binary(Kind::Matmul, last, unary(Kind::Transpose, embedding()));
    let vl = value(ar, env, logits);
    let ids = leaf(Kind::IntPair(yes, no));
    lemma_value0(ar, env, Kind::IntPair(yes, no));
    let vi = value(ar, env, ids);
    assert(vi.shape =~= seq![2int]);
    let take = Kind::Take { axis: 1 };
    let pair = binary(take, logits, ids);
    lemma_value2(ar, env, take, logits, ids);
    lemma_result2(ar, env, take, vl, vi);
    let two = seq![n as int, 2];
    assert(vl.shape.take(1) + vi.shape + vl.shape.skip(2) =~= two);
    let vp = value(ar, env, pair);
    let soft = Kind::Softmax { axis: 1 };
    let both = unary(soft, pair);
    lemma_value1(ar, env, soft, pair);
    lemma_result1(ar, env, soft, vp);
    let vb = value(ar, env, both);
    let zeroth = leaf(Kind::Int(0));
    lemma_value0(ar, env, Kind::Int(0));
    let vz = value(ar, env, zeroth);
    assert(vz.shape =~= Seq::<int>::empty());
    let picked = binary(take, both, zeroth);
    lemma_value2(ar, env, take, both, zeroth);
    lemma_result2(ar, env, take, vb, vz);
    let one = seq![n as int];
    assert(vb.shape.take(1) + vz.shape + vb.shape.skip(2) =~= one);
    let vk = value(ar, env, picked);
    let dims = Dims::D1(n);
    lemma_value1(ar, env, Kind::Reshape(dims), picked);
    assert(extents(dims) =~= one);
    lemma_reshaped(one, one);
    lemma_result1(ar, env, Kind::Reshape(dims), vk);
    let y = value(ar, env, answer_term(cfg, states, n, td, yes, no));
    let table = weight_of(env, Stack::Kalm(Side::Encoder), Slot::Embedding);
    let logit = |r: int, token: i32|
        (ar.dot)(row3(value(ar, env, states), r, td - 1), row2(table, token as int));
    assert forall|r: int| 0 <= r < n implies #[trigger] at1(y, r) == (ar.soft)(
        seq![logit(r, yes), logit(r, no)],
        0,
    ) by {
        let i = seq![r];
        assert(in_range(i, one));
        lemma_reshape_at(ar, env, dims, vk, one, i, i);
        assert(i.subrange(1, 1) =~= Seq::<int>::empty());
        let o = seq![r, 0];
        assert((ar.index)((ar.whole)(0)) == 0);
        assert(i.take(1).push(0) + i.skip(1) =~= o);
        let want = seq![logit(r, yes), logit(r, no)];
        assert forall|c: int| 0 <= c < 2 implies #[trigger] line(vp, 1, o)[c] == want[c] by {
            let k = seq![r, c];
            assert(o.update(1, c) =~= k);
            assert(k.subrange(1, 2) =~= seq![c]);
            let token = if c == 0 {
                yes
            } else {
                no
            };
            assert((vi.at)(seq![c]) == (ar.whole)(token as int));
            assert((ar.index)((ar.whole)(token as int)) == token);
            assert(k.take(1).push(token as int) + k.skip(2) =~= seq![r, token as int]);
            assert((vp.at)(k) == at2(vl, r, token as int));
            assert(row2(vl, r)[token as int] == at2(vl, r, token as int));
            assert(row2(vl, r) == times(ar, row2(value(ar, env, last), r), table));
        }
        assert(line(vp, 1, o) =~= want);
    }
}

/// Whether the softmax of two numbers at the first of them grows with that one and falls
/// with the other.
pub open spec fn prefers<E>(ar: Arithmetic<E>, less: spec_fn(E, E) -> bool) -> bool {
    &&& forall|a: E, b: E, c: E| less(a, b) ==> less(
        #[trigger] (ar.soft)(seq_of(a, c), 0),
        #[trigger] (ar.soft)(seq_of(b, c), 0),
    )
    &&& forall|a: E, b: E, c: E| less(a, b) ==> less(
        #[trigger] (ar.soft)(seq_of(c, b), 0),
        #[trigger] (ar.soft)(seq_of(c, a), 0),
    )
}

/// A list of two numbers.
pub open spec fn seq_of<E>(a: E, b: E) -> Seq<E> {
    seq![a, b]
}

/// A greater logit of yes makes a greater score, and a greater logit of no a smaller
/// one: of two programs whose states give one answer the same logit, the one with more
/// for yes, or with less for no, scores the document higher.
pub proof fn law_yes_raises_and_no_lowers_the_score<E>(
    ar: Arithmetic<E>,
    less: spec_fn(E, E) -> bool,
    e1: spec_fn(Kind) -> Val<E>,
    e2: spec_fn(Kind) -> Val<E>,
    cfg: &KalmConfig,
    states: Term,
    vocab: int,
    n: i32,
    td: i32,
    yes: i32,
    no: i32,
    r: int,
)
    requires
        counts(ar),
        prefers(ar, less),
        0 <= r < n,
        0 < td,
        0 < cfg.h,
        0 <= yes < vocab,
        0 <= no < vocab,
        value(ar, e1, states).shape == seq![n as int, td as int, cfg.h as int],
        value(ar, e2, states).shape == seq![n as int, td as int, cfg.h as int],
        weight_of(e1, Stack::Kalm(Side::Encoder), Slot::Embedding).shape == seq![
            vocab,
            cfg.h as int,
        ],
        weight_of(e2, Stack::Kalm(Side::Encoder), Slot::Embedding).shape == seq![
            vocab,
            cfg.h as int,
        ],
    ensures
        ({
            let logit = |env: spec_fn(Kind) -> Val<E>, token: i32|
                (ar.dot)(
                    row3(value(ar, env, states), r, td - 1),
                    row2(
                        env(
                            Kind::Weight(
                                WeightKey {
                                    stack: Stack::Kalm(Side::Encoder),
                                    slot: Slot::Embedding,
                                },
                            ),
                        ),
                        token as int,
                    ),
                );
            let score = |env: spec_fn(Kind) -> Val<E>|
                at1(value(ar, env, answer_term(cfg, states, n, td, yes, no)), r);
            &&& less(logit(e1, yes), logit(e2, yes)) && logit(e1, no) == logit(e2, no) ==> less(
                score(e1),
                score(e2),
            )
            &&& less(logit(e1, no), logit(e2, no)) && logit(e1, yes) == logit(e2, yes) ==> less(
                score(e2),
                score(e1),
            )
        }),
{
    law_score_is_the_probability_of_yes(ar, e1, cfg, states, vocab, n, td, yes, no);
    law_score_is_the_probability_of_yes(ar, e2, cfg, states, vocab, n, td, yes, no);
    let logit = |env: spec_fn(Kind) -> Val<E>, token: i32|
        (ar.dot)(
            row3(value(ar, env, states), r, td - 1),
            row2(weight_of(env, Stack::Kalm(Side::Encoder), Slot::Embedding), token as int),
        );
    let (s1, s2) = (
        at1(value(ar, e1, answer_term(cfg, states, n, td, yes, no)), r),
        at1(value(ar, e2, answer_term(cfg, states, n, td, yes, no)), r),
    );
    assert(s1 == (ar.soft)(seq_of(logit(e1, yes), logit(e1, no)), 0));
    assert(s2 == (ar.soft)(seq_of(logit(e2, yes), logit(e2, no)), 0));
}

/// Whether row `p` of the joined batches is one of batch `k`.
pub open spec fn is_row_of(dims: Seq<(i32, i32)>, k: int, p: int) -> bool {
    total_rows(dims.take(k)) <= p < total_rows(dims.take(k)) + dims[k].0
}

/// The rows of arrays joined along their first axis.
proof fn joined_rows<E>(
    ar: Arithmetic<E>,
    env: spec_fn(Kind) -> Val<E>,
    args: Seq<Term>,
    dims: Seq<(i32, i32)>,
    tail: Seq<int>,
)
    requires
        args.len() == dims.len(),
        dims.len() > 0,
        have_rows(dims),
        forall|k: int|
            0 <= k < args.len() ==> value(ar, env, #[trigger] args[k]).shape == rows_of_extents(
                dims[k].0 as int,
                tail,
            ),
    ensures
        ({
            let y = value(ar, env, Term { kind: Kind::Concat { axis: 0 }, args });
            &&& y.shape == rows_of_extents(total_rows(dims), tail)
            &&& forall|k: int, i: Seq<int>|
                0 <= k < args.len() && i.len() > 0 && is_row_of(dims, k, i[0])
                    ==> #[trigger] (y.at)(i) == (value(ar, env, #[trigger] args[k]).at)(
                    i.update(0, i[0] - total_rows(dims.take(k))),
                )
        }),
{
    reveal(value);
    let parts = values(ar, env, args);
    lemma_values(ar, env, args);
    assert forall|k: int| 0 <= k < parts.len() implies (#[trigger] parts[k]).shape
        == rows_of_extents(parts[k].shape[0], tail) && parts[k].shape[0] == dims[k].0
        && 0 <= parts[k].shape[0] by {
        assert(parts[k] == value(ar, env, args[k]));
        assert(0 < dims[k].0);
    }
    lemma_joined_extents(parts, tail);
    lemma_rows_counted(ar, env, args, dims, dims.len() as int);
    assert(parts.take(parts.len() as int) =~= parts);
    assert(dims.take(dims.len() as int) =~= dims);
    let y = value(ar, env, Term { kind: Kind::Concat { axis: 0 }, args });
    assert forall|k: int, i: Seq<int>|
        0 <= k < args.len() && i.len() > 0 && is_row_of(dims, k, i[0]) implies #[trigger] (y.at)(i)
        == (value(ar, env, #[trigger] args[k]).at)(
        i.update(0, i[0] - total_rows(dims.take(k))),
    ) by {
        lemma_rows_counted(ar, env, args, dims, k);
        lemma_joined_at(parts, k, i[0] - total_rows(dims.take(k)), i);
        assert(parts[k] == value(ar, env, args[k]));
    }
}

/// The pooled states of all batches stand below one another, in the order of the
/// batches, and so do their marks: row `r` of a batch stands as many rows further down
/// as the batches before it have, and behind its own chunks it is filled with zeros, up to
/// the chunks of the longest.
pub proof fn law_batches_are_joined_in_order<E>(
    ar: Arithmetic<E>,
    env: spec_fn(Kind) -> Val<E>,
    cfg: &KalmConfig,
    sizes: Sizes,
    dims: Seq<(i32, i32)>,
)
    requires
        holds_checkpoint(env, cfg, sizes),
        0 < dims.len() <= usize::MAX,
        widths_are_read(dims),
        have_rows(dims),
        holds_batches(env, dims),
    ensures
        ({
            let ne = max_chunks(dims);
            let x = value(ar, env, all_pools_term(cfg, dims));
            let m = value(ar, env, all_masks_term(dims));
            let pools = |k: int|
                {
                    let (ids, am) = (leaf(Kind::Ids(k as usize)), leaf(Kind::Mask(k as usize)));
                    let (b, w) = dims[k];
                    value(
                        ar,
                        env,
                        pooled_term(cfg, encoder_states_term(cfg, ids, am, b, w), am, b, w),
                    )
                };
            let marks = |k: int|
                value(
                    ar,
                    env,
                    pooled_mask_term(leaf(Kind::Mask(k as usize)), dims[k].0, dims[k].1),
                );
            &&& x.shape == seq![total_rows(dims), ne, cfg.h as int]
            &&& m.shape == seq![total_rows(dims), ne]
            &&& forall|k: int| 0 <= k < dims.len() ==> ((#[trigger] dims[k]).1 + 3) / 4 <= ne
            &&& exists|k: int| 0 <= k < dims.len() && ((#[trigger] dims[k]).1 + 3) / 4 == ne
            &&& forall|k: int, p: int, c: int, j: int|
                0 <= k < dims.len() && #[trigger] is_row_of(dims, k, p) && 0 <= c < ne && 0 <= j
                    < cfg.h ==> #[trigger] at3(x, p, c, j) == if c < (dims[k].1 + 3) / 4 {
                    at3(pools(k), p - total_rows(dims.take(k)), c, j)
                } else {
                    zero(ar)
                }
            &&& forall|k: int, p: int, c: int|
                0 <= k < dims.len() && #[trigger] is_row_of(dims, k, p) && 0 <= c < ne
                    ==> #[trigger] at2(m, p, c) == if c < (dims[k].1 + 3) / 4 {
                    at2(marks(k), p - total_rows(dims.take(k)), c)
                } else {
                    zero(ar)
                }
        }),
{
    lemma_max_chunks(dims);
    assert forall|k: int| 0 <= k < dims.len() implies chunk_count((#[trigger] dims[k]).1 as int)
        == (dims[k].1 + 3) / 4 by {}
    let k = choose|k: int|
        0 <= k < dims.len() && max_chunks(dims) == chunk_count((#[trigger] dims[k]).1 as int);
    assert((dims[k].1 + 3) / 4 == max_chunks(dims));
    pools_joined(ar, env, cfg, sizes, dims);
    marks_joined(ar, env, cfg, sizes, dims);
}

/// Whether the arrays that a program reads hold the tokens of batches of `(rows, width)`.
pub open spec fn holds_batches<E>(env: spec_fn(Kind) -> Val<E>, dims: Seq<(i32, i32)>) -> bool {
    forall|k: int|
        0 <= k < dims.len() ==> {
            let (b, w) = #[trigger] dims[k];
            &&& env(Kind::Ids(k as usize)).shape == seq![b as int, w as int]
            &&& env(Kind::Mask(k as usize)).shape == seq![b as int, w as int]
        }
}

proof fn pools_joined<E>(
    ar: Arithmetic<E>,
    env: spec_fn(Kind) -> Val<E>,
    cfg: &KalmConfig,
    sizes: Sizes,
    dims: Seq<(i32, i32)>,
)
    requires
        holds_checkpoint(env, cfg, sizes),
        0 < dims.len() <= usize::MAX,
        widths_are_read(dims),
        have_rows(dims),
        holds_batches(env, dims),
    ensures
        ({
            let x = value(ar, env, all_pools_term(cfg, dims));
            &&& x.shape == seq![total_rows(dims), max_chunks(dims), cfg.h as int]
            &&& forall|k: int, p: int, c: int, j: int|
                0 <= k < dims.len() && #[trigger] is_row_of(dims, k, p) && 0 <= c < max_chunks(dims)
                    && 0 <= j < cfg.h ==> #[trigger] at3(x, p, c, j) == if c < (dims[k].1 + 3)
                    / 4 {
                    at3(
                        value(ar, env, pool_term(cfg, k as usize, dims[k].0, dims[k].1)),
                        p - total_rows(dims.take(k)),
                        c,
                        j,
                    )
                } else {
                    zero(ar)
                }
        }),
{
    let ne = max_chunks(dims);
    let h = cfg.h as int;
    let xs = Seq::new(dims.len(), |k: int| even_pool_term(cfg, dims, k));
    let tail = seq![ne, h];
    assert forall|k: int| 0 <= k < dims.len() implies value(ar, env, #[trigger] xs[k]).shape
        == rows_of_extents(dims[k].0 as int, tail) by {
        even_at(ar, env, cfg, sizes, dims, k);
        assert(rows_of_extents(dims[k].0 as int, tail) =~= seq![dims[k].0 as int, ne, h]);
    }
    joined_rows(ar, env, xs, dims, tail);
    let x = value(ar, env, all_pools_term(cfg, dims));
    assert(rows_of_extents(total_rows(dims), tail) =~= seq![total_rows(dims), ne, h]);
    assert forall|k: int, p: int, c: int, j: int|
        0 <= k < dims.len() && #[trigger] is_row_of(dims, k, p) && 0 <= c < ne && 0 <= j
            < h implies #[trigger] at3(x, p, c, j) == if c < (dims[k].1 + 3) / 4 {
        at3(
            value(ar, env, pool_term(cfg, k as usize, dims[k].0, dims[k].1)),
            p - total_rows(dims.take(k)),
            c,
            j,
        )
    } else {
        zero(ar)
    } by {
        even_at(ar, env, cfg, sizes, dims, k);
        let r = p - total_rows(dims.take(k));
        let i = seq![p, c, j];
        assert(xs[k] == even_pool_term(cfg, dims, k));
        assert(i.update(0, r) =~= seq![r, c, j]);
        assert((x.at)(i) == at3(value(ar, env, xs[k]), r, c, j));
    }
}

proof fn marks_joined<E>(
    ar: Arithmetic<E>,
    env: spec_fn(Kind) -> Val<E>,
    cfg: &KalmConfig,
    sizes: Sizes,
    dims: Seq<(i32, i32)>,
)
    requires
        holds_checkpoint(env, cfg, sizes),
        0 < dims.len() <= usize::MAX,
        widths_are_read(dims),
        have_rows(dims),
        holds_batches(env, dims),
    ensures
        ({
            let m = value(ar, env, all_masks_term(dims));
            &&& m.shape == seq![total_rows(dims), max_chunks(dims)]
            &&& forall|k: int, p: int, c: int|
                0 <= k < dims.len() && #[trigger] is_row_of(dims, k, p) && 0 <= c < max_chunks(dims)
                    ==> #[trigger] at2(m, p, c) == if c < (dims[k].1 + 3) / 4 {
                    at2(
                        value(ar, env, pool_mask_term(k as usize, dims[k].0, dims[k].1)),
                        p - total_rows(dims.take(k)),
                        c,
                    )
                } else {
                    zero(ar)
                }
        }),
{
    let ne = max_chunks(dims);
    let ms = Seq::new(dims.len(), |k: int| even_mask_term(dims, k));
    let tail = seq![ne];
    assert forall|k: int| 0 <= k < dims.len() implies value(ar, env, #[trigger] ms[k]).shape
        == rows_of_extents(dims[k].0 as int, tail) by {
        even_at(ar, env, cfg, sizes, dims, k);
        assert(rows_of_extents(dims[k].0 as int, tail) =~= seq![dims[k].0 as int, ne]);
    }
    joined_rows(ar, env, ms, dims, tail);
    let m = value(ar, env, all_masks_term(dims));
    assert(rows_of_extents(total_rows(dims), tail) =~= seq![total_rows(dims), ne]);
    assert forall|k: int, p: int, c: int|
        0 <= k < dims.len() && #[trigger] is_row_of(dims, k, p) && 0 <= c
            < ne implies #[trigger] at2(m, p, c) == if c < (dims[k].1 + 3) / 4 {
        at2(
            value(ar, env, pool_mask_term(k as usize, dims[k].0, dims[k].1)),
            p - total_rows(dims.take(k)),
            c,
        )
    } else {
        zero(ar)
    } by {
        even_at(ar, env, cfg, sizes, dims, k);
        let r = p - total_rows(dims.take(k));
        let i = seq![p, c];
        assert(ms[k] == even_mask_term(dims, k));
        assert(i.update(0, r) =~= seq![r, c]);
        assert((m.at)(i) == at2(value(ar, env, ms[k]), r, c));
    }
}

/// The pooled states and marks of one batch, filled up to the chunks of the longest.
proof fn even_at<E>(
    ar: Arithmetic<E>,
    env: spec_fn(Kind) -> Val<E>,
    cfg: &KalmConfig,
    sizes: Sizes,
    dims: Seq<(i32, i32)>,
    k: int,
)
    requires
        holds_checkpoint(env, cfg, sizes),
        dims.len() <= usize::MAX,
        widths_are_read(dims),
        have_rows(dims),
        0 <= k < dims.len(),
        env(Kind::Ids(k as usize)).shape == seq![dims[k].0 as int, dims[k].1 as int],
        env(Kind::Mask(k as usize)).shape == seq![dims[k].0 as int, dims[k].1 as int],
    ensures
        ({
            let ne = max_chunks(dims);
            let (b, w) = dims[k];
            let x = value(ar, env, even_pool_term(cfg, dims, k));
            let m = value(ar, env, even_mask_term(dims, k));
            &&& x.shape == seq![b as int, ne, cfg.h as int]
            &&& m.shape == seq![b as int, ne]
            &&& forall|r: int, c: int, j: int|
                0 <= r < b && 0 <= c < ne && 0 <= j < cfg.h ==> #[trigger] at3(x, r, c, j) == if c
                    < (w + 3) / 4 {
                    at3(value(ar, env, pool_term(cfg, k as usize, b, w)), r, c, j)
                } else {
                    zero(ar)
                }
            &&& forall|r: int, c: int|
                0 <= r < b && 0 <= c < ne ==> #[trigger] at2(m, r, c) == if c < (w + 3) / 4 {
                    at2(value(ar, env, pool_mask_term(k as usize, b, w)), r, c)
                } else {
                    zero(ar)
                }
        }),
{
    let (b, w) = dims[k];
    let (ids, am) = (leaf(Kind::Ids(k as usize)), leaf(Kind::Mask(k as usize)));
    assert(0 < dims[k].0 && 1 <= dims[k].1 <= MAX_LEN);
    leaf_at(ar, env, Kind::Ids(k as usize));
    leaf_at(ar, env, Kind::Mask(k as usize));
    law_encoder_ends_in_its_final_norm(ar, env, cfg, sizes, ids, am, b, w);
    let states = encoder_states_term(cfg, ids, am, b, w);
    law_chunks_are_pooled_by_their_marks(ar, env, cfg, states, am, b, w);
    lemma_max_chunks(dims);
    let n = chunk_count(w as int);
    assert(n == (w + 3) / 4);
    let d = max_chunks(dims) - n;
    let (sx, sm) = (seq![b as int, n, cfg.h as int], seq![b as int, n]);
    let (dx, dm) = (Dims::D3(b, d as i32, cfg.h), Dims::D2(b, d as i32));
    assert(extents(dx) =~= sx.update(1, d) && extents(dm) =~= sm.update(1, d));
    lemma_filled(ar, env, pool_term(cfg, k as usize, b, w), sx, d, dx);
    lemma_filled(ar, env, pool_mask_term(k as usize, b, w), sm, d, dm);
    let (zx, zm) = (seq![b as int, n + d, cfg.h as int], seq![b as int, n + d]);
    assert(sx.update(1, n + d) =~= zx && sm.update(1, n + d) =~= zm);
    let x = value(ar, env, even_pool_term(cfg, dims, k));
    let m = value(ar, env, even_mask_term(dims, k));
    assert forall|r: int, c: int, j: int|
        0 <= r < b && 0 <= c < n + d && 0 <= j < cfg.h implies #[trigger] at3(x, r, c, j) == if c
        < (w + 3) / 4 {
        at3(value(ar, env, pool_term(cfg, k as usize, b, w)), r, c, j)
    } else {
        zero(ar)
    } by {
        assert(in_range(seq![r, c, j], zx));
    }
    assert forall|r: int, c: int|
        0 <= r < b && 0 <= c < n + d implies #[trigger] at2(m, r, c) == if c < (w + 3) / 4 {
        at2(value(ar, env, pool_mask_term(k as usize, b, w)), r, c)
    } else {
        zero(ar)
    } by {
        assert(in_range(seq![r, c], zm));
    }
}

/// The score of every document of a query, from what the pieces of the program compute:
/// each row of the decoder reads the same prompt, the pooled states of its own document
/// and the mask of the merged attention over that document's marks; and the score is
/// that of yes against no at the prompt's end, the two tokens that were loaded for these
/// words.
pub proof fn law_every_row_asks_the_same_prompt<E>(
    ar: Arithmetic<E>,
    env: spec_fn(Kind) -> Val<E>,
    cfg: &KalmConfig,
    sizes: Sizes,
    dims: Seq<(i32, i32)>,
    n: i32,
    td: i32,
    yes: i32,
    no: i32,
)
    requires
        counts(ar),
        holds_checkpoint(env, cfg, sizes),
        0 < dims.len() <= usize::MAX,
        widths_are_read(dims),
        have_rows(dims),
        n == total_rows(dims),
        0 < n,
        0 < td,
        0 < max_chunks(dims),
        0 <= yes < sizes.vocab,
        0 <= no < sizes.vocab,
        env(Kind::Prompt).shape == seq![1, td as int],
        holds_batches(env, dims),
    ensures
        ({
            let ne = max_chunks(dims) as i32;
            let dids = unary(Kind::Repeat { count: n, axis: 0 }, leaf(Kind::Prompt));
            let mm = merged_mask_term(all_masks_term(dims), n, td, ne);
            let states = value(
                ar,
                env,
                decode_term(cfg, dids, all_pools_term(cfg, dims), mm, n, td, ne),
            );
            let table = env(
                Kind::Weight(
                    WeightKey { stack: Stack::Kalm(Side::Encoder), slot: Slot::Embedding },
                ),
            );
            let logit = |r: int, token: i32|
                (ar.dot)(row3(states, r, td - 1), row2(table, token as int));
            let y = value(ar, env, score_term(cfg, dims, n, td, yes, no));
            &&& value(ar, env, dids).shape == seq![n as int, td as int]
            &&& forall|r: int, q: int|
                0 <= r < n && 0 <= q < td ==> #[trigger] at2(value(ar, env, dids), r, q) == at2(
                    env(Kind::Prompt),
                    0,
                    q,
                )
            &&& y.shape == seq![n as int]
            &&& forall|r: int|
                0 <= r < n ==> #[trigger] at1(y, r) == (ar.soft)(
                    seq![logit(r, yes), logit(r, no)],
                    0,
                )
        }),
{
    let ne = max_chunks(dims) as i32;
    lemma_max_chunks(dims);
    law_batches_are_joined_in_order(ar, env, cfg, sizes, dims);
    let (pools, marks) = (all_pools_term(cfg, dims), all_masks_term(dims));
    law_merged_mask_hides_later_tokens_and_empty_chunks(ar, env, marks, n, td, ne);
    let mm = merged_mask_term(marks, n, td, ne);
    let repeat = Kind::Repeat { count: n, axis: 0 };
    let prompt = leaf(Kind::Prompt);
    let dids = unary(repeat, prompt);
    leaf_at(ar, env, Kind::Prompt);
    let v = value(ar, env, prompt);
    lemma_value1(ar, env, repeat, prompt);
    lemma_result1(ar, env, repeat, v);
    assert(v.shape.update(0, 1 * n) =~= seq![n as int, td as int]);
    assert forall|r: int, q: int| 0 <= r < n && 0 <= q < td implies #[trigger] at2(
        value(ar, env, dids),
        r,
        q,
    ) == at2(v, 0, q) by {
        assert(r / n as int == 0) by (nonlinear_arith)
            requires
                0 <= r < n,
        ;
        assert(seq![r, q].update(0, 0) =~= seq![0, q]);
    }
    law_decoder_ends_in_its_final_norm(ar, env, cfg, sizes, dids, pools, mm, n, td, ne);
    let states = decode_term(cfg, dids, pools, mm, n, td, ne);
    assert(weight_extents(cfg, sizes, Side::Encoder, Slot::Embedding) is Some);
    law_score_is_the_probability_of_yes(ar, env, cfg, states, sizes.vocab, n, td, yes, no);
}

} // verus!
