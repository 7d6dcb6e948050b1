//! What the cross-encoder computes: every step by the weights that it reads.

use crate::graph::{binary, dec, leaf, quaternary, unary, Dims, Kind, Part, REST, Slot, Stack, Term};
use crate::graph::{Turn, Ty, WeightKey};
use crate::links::{at1, at2, at3, at4};
use crate::meaning::{lemma_value1, line, total, value, Arithmetic, Key, Val};
use crate::nemotron::{attend_term, attention_term, embedded_term, forward_term, layer_term};
use crate::nemotron::{layers_term, linear_term, mean_pool_term, mlp_term, padding_mask_term};
use crate::nemotron::{rms_norm_term, rope_term, split_heads_term, weight};
use crate::nemotron_links::{padding_mask_at, pool_at, pool_of, score_at};
use crate::nemotron_rows::lemma_side_by_side;
use crate::nemotron_shapes::weight_extents;
use crate::types::elem_of;
use crate::values::{attention_rows, each, each_at, embedded_rows, head_of, heads_at, joined_at};
use crate::values::{leaf_at, lemma_seen, linear_at, list, normed, pairs_at, pairwise, rms_at, row2};
use crate::values::{row3, row4, seen, times, turned, turned_rows, weight_of};
use crate::windows::lemma_result1;
use vstd::prelude::*;

verus! {

/// Whether the arrays that a program starts from hold weights of the model's extents.
pub open spec fn holds_model<E>(env: spec_fn(Kind) -> Val<E>, vocab: int, inner: int) -> bool {
    &&& vocab >= 0
    &&& inner >= 0
    &&& env(Kind::Freqs).shape == seq![32int]
    &&& forall|slot: Slot|
        #![trigger weight_extents(slot, vocab, inner)]
        weight_extents(slot, vocab, inner) is Some ==> weight_of(env, Stack::Nemotron, slot).shape
            == weight_extents(slot, vocab, inner)->0
}

/// The array of a slot is the one that the program is given for it.
proof fn weight_at<E>(ar: Arithmetic<E>, env: spec_fn(Kind) -> Val<E>, slot: Slot)
    ensures
        ({
            let (x, w) = (value(ar, env, weight(slot)), weight_of(env, Stack::Nemotron, slot));
            &&& x.shape == w.shape
            &&& list(x) == list(w)
            &&& forall|c: int| #[trigger] row2(x, c) == row2(w, c)
            &&& forall|v: Seq<E>| #[trigger] times(ar, v, x) == times(ar, v, w)
        }),
{
    let key = WeightKey { stack: Stack::Nemotron, slot };
    leaf_at(ar, env, Kind::Weight(key));
    let (x, w) = (value(ar, env, weight(slot)), weight_of(env, Stack::Nemotron, slot));
    assert(list(x) =~= list(w));
    assert forall|c: int| #[trigger] row2(x, c) == row2(w, c) by {
        assert(row2(x, c) =~= row2(w, c));
    }
    assert forall|v: Seq<E>| #[trigger] times(ar, v, x) == times(ar, v, w) by {
        assert forall|c: int| 0 <= c < times(ar, v, x).len() implies #[trigger] times(ar, v, x)[c]
            == times(ar, v, w)[c] by {
            assert(row2(x, c) == row2(w, c));
        }
        assert(times(ar, v, x) =~= times(ar, v, w));
    }
}

/// A linear step multiplies every row by the weight of its slot, and by no other.
pub proof fn law_linear_multiplies_by_its_weight<E>(
    ar: Arithmetic<E>,
    env: spec_fn(Kind) -> Val<E>,
    x: Term,
    slot: Slot,
    a: int,
    b: int,
    from: int,
    to: int,
)
    requires
        0 <= a,
        0 <= b,
        0 <= from,
        0 <= to,
        value(ar, env, x).shape == seq![a, b, from],
        weight_of(env, Stack::Nemotron, slot).shape == seq![to, from],
    ensures
        value(ar, env, linear_term(x, slot)).shape == seq![a, b, to],
        forall|r: int, q: int|
            0 <= r < a && 0 <= q < b ==> #[trigger] row3(value(ar, env, linear_term(x, slot)), r, q)
                == times(
                ar,
                row3(value(ar, env, x), r, q),
                env(Kind::Weight(WeightKey { stack: Stack::Nemotron, slot })),
            ),
{
    weight_at(ar, env, slot);
    linear_at(ar, env, x, weight(slot), a, b, from, to);
}

/// A normalisation takes every row by itself, with an epsilon of a hundred-thousandth,
/// and scales it by the weight of its slot.
pub proof fn law_norm_scales_by_its_weight<E>(
    ar: Arithmetic<E>,
    env: spec_fn(Kind) -> Val<E>,
    x: Term,
    slot: Slot,
    a: int,
    b: int,
    n: int,
)
    requires
        0 <= a,
        0 <= b,
        0 <= n,
        value(ar, env, x).shape == seq![a, b, n],
        weight_of(env, Stack::Nemotron, slot).shape == seq![n],
    ensures
        value(ar, env, rms_norm_term(x, slot)).shape == seq![a, b, n],
        forall|r: int, q: int|
            0 <= r < a && 0 <= q < b ==> #[trigger] row3(
                value(ar, env, rms_norm_term(x, slot)),
                r,
                q,
            ) == normed(
                ar,
                dec(1, -5),
                row3(value(ar, env, x), r, q),
                list(env(Kind::Weight(WeightKey { stack: Stack::Nemotron, slot }))),
            ),
{
    weight_at(ar, env, slot);
    rms_at(ar, env, dec(1, -5), x, weight(slot), a, b, n);
}

/// The rotary embedding turns every head by its position in the row, counted from zero,
/// with the model's frequencies; numbers half a head apart are turned together.
pub proof fn law_rope_turns_by_position<E>(
    ar: Arithmetic<E>,
    env: spec_fn(Kind) -> Val<E>,
    x: Term,
    b: i32,
    heads: i32,
    s: i32,
)
    requires
        0 < b,
        0 < heads,
        0 < s,
        value(ar, env, x).shape == seq![b as int, heads as int, s as int, 64],
        env(Kind::Freqs).shape == seq![32int],
    ensures
        value(ar, env, rope_term(x, b, heads, s)).shape == seq![
            b as int,
            heads as int,
            s as int,
            64,
        ],
        forall|r: int, h: int, q: int|
            0 <= r < b && 0 <= h < heads && 0 <= q < s ==> #[trigger] row4(
                value(ar, env, rope_term(x, b, heads, s)),
                r,
                h,
                q,
            ) == turned(
                ar,
                Turn {
                    dims: 64,
                    neighbours: false,
                    by_base: false,
                    scale: dec(1, 0),
                    offset: 0,
                },
                q,
                row4(value(ar, env, x), r, h, q),
                list(env(Kind::Freqs)),
            ),
{
    leaf_at(ar, env, Kind::Freqs);
    let f = value(ar, env, leaf(Kind::Freqs));
    assert(list(f) =~= list(env(Kind::Freqs)));
    turned_rows(ar, env, x, leaf(Kind::Freqs), b, heads, s, 64);
}

/// The attention half of a layer, by the layer's own weights: queries, keys and values
/// are the normalised rows times the weights of those names, queries and keys are turned
/// by their positions, four query heads share one key head, every query gathers from
/// the keys that the mask does not hide, scaled by an eighth, and the heads side by side
/// go through the output weight.
pub proof fn law_attention_reads_its_weights<E>(
    ar: Arithmetic<E>,
    env: spec_fn(Kind) -> Val<E>,
    h: Term,
    mask: Term,
    i: usize,
    b: i32,
    s: i32,
    vocab: int,
    inner: int,
)
    requires
        holds_model(env, vocab, inner),
        0 < b,
        0 < s,
        value(ar, env, h).shape == seq![b as int, s as int, 2048],
        value(ar, env, mask).shape == seq![b as int, 1, 1, s as int],
    ensures
        value(ar, env, attention_term(h, mask, i, b, s)).shape == seq![b as int, s as int, 2048],
        ({
            let slot = |part: Part|
                env(Kind::Weight(WeightKey { stack: Stack::Nemotron, slot: Slot::Layer(i, part) }));
            let how = Turn {
                dims: 64,
                neighbours: false,
                by_base: false,
                scale: dec(1, 0),
                offset: 0,
            };
            let freqs = list(env(Kind::Freqs));
            let x = |r: int, u: int|
                normed(
                    ar,
                    dec(1, -5),
                    row3(value(ar, env, h), r, u),
                    list(slot(Part::InputNorm)),
                );
            let head = |r: int, u: int, part: Part, g: int|
                head_of(times(ar, x(r, u), slot(part)), g, 64);
            forall|r: int, q: int|
                0 <= r < b && 0 <= q < s ==> #[trigger] row3(
                    value(ar, env, attention_term(h, mask, i, b, s)),
                    r,
                    q,
                ) == times(
                    ar,
                    Seq::new(
                        2048,
                        |e: int|
                            (ar.attend)(
                                dec(125, -3),
                                turned(ar, how, q, head(r, q, Part::QProj, e / 64), freqs),
                                seen(
                                    ar,
                                    s as int,
                                    |u: int|
                                        Key {
                                            key: turned(
                                                ar,
                                                how,
                                                u,
                                                head(r, u, Part::KProj, e / 64 / 4),
                                                freqs,
                                            ),
                                            value: head(r, u, Part::VProj, e / 64 / 4),
                                            mask: at4(value(ar, env, mask), r, 0, 0, u),
                                        },
                                ),
                                e % 64,
                            ),
                    ),
                    slot(Part::OProj),
                )
        }),
{
    let (np, qp) = (Slot::Layer(i, Part::InputNorm), Slot::Layer(i, Part::QProj));
    let (kp, vp) = (Slot::Layer(i, Part::KProj), Slot::Layer(i, Part::VProj));
    let op = Slot::Layer(i, Part::OProj);
    assert(weight_extents(np, vocab, inner) is Some && weight_extents(qp, vocab, inner) is Some);
    assert(weight_extents(kp, vocab, inner) is Some && weight_extents(vp, vocab, inner) is Some);
    assert(weight_extents(op, vocab, inner) is Some);
    let (bb, ss) = (b as int, s as int);
    law_norm_scales_by_its_weight(ar, env, h, np, bb, ss, 2048);
    let xt = rms_norm_term(h, np);
    law_linear_multiplies_by_its_weight(ar, env, xt, qp, bb, ss, 2048, 2048);
    law_linear_multiplies_by_its_weight(ar, env, xt, kp, bb, ss, 2048, 512);
    law_linear_multiplies_by_its_weight(ar, env, xt, vp, bb, ss, 2048, 512);
    let (lq, lk, lv) = (linear_term(xt, qp), linear_term(xt, kp), linear_term(xt, vp));
    heads_at(ar, env, lq, b, s, 32, 64);
    heads_at(ar, env, lk, b, s, 8, 64);
    heads_at(ar, env, lv, b, s, 8, 64);
    let sq = split_heads_term(lq, b, s, 32);
    let sk = split_heads_term(lk, b, s, 8);
    let sv = split_heads_term(lv, b, s, 8);
    law_rope_turns_by_position(ar, env, sq, b, 32, s);
    law_rope_turns_by_position(ar, env, sk, b, 8, s);
    let (rq, rk) = (rope_term(sq, b, 32, s), rope_term(sk, b, 8, s));
    let num = dec(125, -3);
    attention_rows(ar, env, num, rq, rk, sv, mask, bb, 32, 8, ss, ss, 64);
    let o = quaternary(Kind::Attention(num), rq, rk, sv, mask);
    lemma_side_by_side(b, s);
    joined_at(ar, env, Dims::D3(b, s, REST), o, b, s, 32, 64);
    let at = attend_term(lq, lk, lv, mask, b, s);
    law_linear_multiplies_by_its_weight(ar, env, at, op, bb, ss, 2048, 2048);
    let slot = |part: Part|
        env(Kind::Weight(WeightKey { stack: Stack::Nemotron, slot: Slot::Layer(i, part) }));
    let how = Turn { dims: 64, neighbours: false, by_base: false, scale: dec(1, 0), offset: 0 };
    let freqs = list(env(Kind::Freqs));
    let x = |r: int, u: int|
        normed(ar, dec(1, -5), row3(value(ar, env, h), r, u), list(slot(Part::InputNorm)));
    let head = |r: int, u: int, part: Part, g: int|
        head_of(times(ar, x(r, u), slot(part)), g, 64);
    let va = value(ar, env, at);
    assert forall|r: int, q: int| 0 <= r < b && 0 <= q < s implies #[trigger] row3(va, r, q)
        == Seq::new(
        2048,
        |e: int|
            (ar.attend)(
                dec(125, -3),
                turned(ar, how, q, head(r, q, Part::QProj, e / 64), freqs),
                seen(
                    ar,
                    s as int,
                    |u: int|
                        Key {
                            key: turned(ar, how, u, head(r, u, Part::KProj, e / 64 / 4), freqs),
                            value: head(r, u, Part::VProj, e / 64 / 4),
                            mask: at4(value(ar, env, mask), r, 0, 0, u),
                        },
                ),
                e % 64,
            ),
    ) by {
        let list2 = Seq::new(
            2048,
            |e: int|
                (ar.attend)(
                    dec(125, -3),
                    turned(ar, how, q, head(r, q, Part::QProj, e / 64), freqs),
                    seen(
                        ar,
                        s as int,
                        |u: int|
                            Key {
                                key: turned(ar, how, u, head(r, u, Part::KProj, e / 64 / 4), freqs),
                                value: head(r, u, Part::VProj, e / 64 / 4),
                                mask: at4(value(ar, env, mask), r, 0, 0, u),
                            },
                    ),
                    e % 64,
                ),
        );
        assert forall|e: int| 0 <= e < 2048 implies #[trigger] row3(va, r, q)[e] == list2[e] by {
            let (g, k) = (e / 64, e / 64 / 4);
            assert(0 <= g < 32 && 0 <= k < 8 && 0 <= e % 64 < 64);
            assert(at3(va, r, q, e) == at4(value(ar, env, o), r, g, q, e % 64));
            assert(row3(value(ar, env, xt), r, q) == x(r, q));
            assert(row3(value(ar, env, lq), r, q) == times(ar, x(r, q), slot(Part::QProj)));
            assert(row4(value(ar, env, sq), r, g, q) == head(r, q, Part::QProj, g));
            assert(row4(value(ar, env, rq), r, g, q) == turned(
                ar,
                how,
                q,
                head(r, q, Part::QProj, g),
                freqs,
            ));
            let mine = |u: int|
                Key {
                    key: turned(ar, how, u, head(r, u, Part::KProj, k), freqs),
                    value: head(r, u, Part::VProj, k),
                    mask: at4(value(ar, env, mask), r, 0, 0, u),
                };
            let vm = value(ar, env, mask);
            let theirs = |c: int|
                Key {
                    key: row4(value(ar, env, rk), r, g / (32int / 8), c),
                    value: row4(value(ar, env, sv), r, g / (32int / 8), c),
                    mask: at4(
                        vm,
                        r,
                        0,
                        if vm.shape[2] == 1 {
                            0
                        } else {
                            q
                        },
                        c,
                    ),
                };
            assert forall|u: int| 0 <= u < s implies #[trigger] theirs(u) == mine(u) by {
                assert(row3(value(ar, env, xt), r, u) == x(r, u));
                assert(row3(value(ar, env, lk), r, u) == times(ar, x(r, u), slot(Part::KProj)));
                assert(row3(value(ar, env, lv), r, u) == times(ar, x(r, u), slot(Part::VProj)));
                assert(row4(value(ar, env, sk), r, k, u) == head(r, u, Part::KProj, k));
                assert(row4(value(ar, env, sv), r, k, u) == head(r, u, Part::VProj, k));
                assert(row4(value(ar, env, rk), r, k, u) == turned(
                    ar,
                    how,
                    u,
                    head(r, u, Part::KProj, k),
                    freqs,
                ));
            }
            lemma_seen(ar, s as int, theirs, mine);
            assert(at4(value(ar, env, o), r, g, q, e % 64) == (ar.attend)(
                num,
                row4(value(ar, env, rq), r, g, q),
                seen(ar, s as int, theirs),
                e % 64,
            ));
        }
        assert(row3(va, r, q) =~= list2);
    }
}

/// Rows are cut into heads in order: number `j` of head `g` of a position is number
/// `64 g + j` of its row.
pub proof fn law_heads_are_cut_in_order<E>(
    ar: Arithmetic<E>,
    env: spec_fn(Kind) -> Val<E>,
    x: Term,
    b: i32,
    s: i32,
    heads: i32,
)
    requires
        0 < b,
        0 < s,
        0 < heads,
        value(ar, env, x).shape == seq![b as int, s as int, heads * 64],
    ensures
        value(ar, env, split_heads_term(x, b, s, heads)).shape == seq![
            b as int,
            heads as int,
            s as int,
            64,
        ],
        forall|r: int, g: int, q: int, j: int|
            0 <= r < b && 0 <= g < heads && 0 <= q < s && 0 <= j < 64 ==> #[trigger] at4(
                value(ar, env, split_heads_term(x, b, s, heads)),
                r,
                g,
                q,
                j,
            ) == at3(value(ar, env, x), r, q, 64 * g + j),
{
    heads_at(ar, env, x, b, s, heads, 64);
    let (v, y) = (value(ar, env, x), value(ar, env, split_heads_term(x, b, s, heads)));
    assert forall|r: int, g: int, q: int, j: int|
        0 <= r < b && 0 <= g < heads && 0 <= q < s && 0 <= j < 64 implies #[trigger] at4(
        y,
        r,
        g,
        q,
        j,
    ) == at3(v, r, q, 64 * g + j) by {
        assert(row4(y, r, g, q)[j] == at4(y, r, g, q, j));
        assert(head_of(row3(v, r, q), g, 64)[j] == row3(v, r, q)[g * 64 + j]);
    }
}

/// The feed-forward half of a layer, by the layer's own weights: the activation is taken
/// of the products with `gate_proj`, times the products with `up_proj`, and the result goes
/// through `down_proj`.
pub proof fn law_mlp_gates_the_up_projection<E>(
    ar: Arithmetic<E>,
    env: spec_fn(Kind) -> Val<E>,
    h: Term,
    i: usize,
    b: int,
    s: int,
    vocab: int,
    inner: int,
)
    requires
        holds_model(env, vocab, inner),
        0 <= b,
        0 <= s,
        value(ar, env, h).shape == seq![b, s, 2048],
    ensures
        value(ar, env, mlp_term(h, i)).shape == seq![b, s, 2048],
        ({
            let slot = |part: Part|
                env(Kind::Weight(WeightKey { stack: Stack::Nemotron, slot: Slot::Layer(i, part) }));
            forall|r: int, q: int|
                0 <= r < b && 0 <= q < s ==> #[trigger] row3(value(ar, env, mlp_term(h, i)), r, q)
                    == ({
                    let x = normed(
                        ar,
                        dec(1, -5),
                        row3(value(ar, env, h), r, q),
                        list(slot(Part::PostAttentionNorm)),
                    );
                    let gate = each(ar, Kind::Silu, times(ar, x, slot(Part::GateProj)));
                    let up = times(ar, x, slot(Part::UpProj));
                    times(ar, pairwise(ar, Kind::Multiply, gate, up), slot(Part::DownProj))
                })
        }),
{
    let np = Slot::Layer(i, Part::PostAttentionNorm);
    let (gp, up) = (Slot::Layer(i, Part::GateProj), Slot::Layer(i, Part::UpProj));
    let dp = Slot::Layer(i, Part::DownProj);
    assert(weight_extents(np, vocab, inner) is Some && weight_extents(gp, vocab, inner) is Some);
    assert(weight_extents(up, vocab, inner) is Some && weight_extents(dp, vocab, inner) is Some);
    law_norm_scales_by_its_weight(ar, env, h, np, b, s, 2048);
    let x = rms_norm_term(h, np);
    law_linear_multiplies_by_its_weight(ar, env, x, gp, b, s, 2048, inner);
    law_linear_multiplies_by_its_weight(ar, env, x, up, b, s, 2048, inner);
    let (lg, lu) = (linear_term(x, gp), linear_term(x, up));
    each_at(ar, env, Kind::Silu, lg, b, s, inner);
    let act = unary(Kind::Silu, lg);
    pairs_at(ar, env, Kind::Multiply, act, lu, b, s, inner);
    let both = binary(Kind::Multiply, act, lu);
    law_linear_multiplies_by_its_weight(ar, env, both, dp, b, s, inner, 2048);
    assert forall|r: int, q: int| 0 <= r < b && 0 <= q < s implies #[trigger] row3(
        value(ar, env, mlp_term(h, i)),
        r,
        q,
    ) == ({
        let slot = |part: Part|
            env(Kind::Weight(WeightKey { stack: Stack::Nemotron, slot: Slot::Layer(i, part) }));
        let x = normed(
            ar,
            dec(1, -5),
            row3(value(ar, env, h), r, q),
            list(slot(Part::PostAttentionNorm)),
        );
        let gate = each(ar, Kind::Silu, times(ar, x, slot(Part::GateProj)));
        let up = times(ar, x, slot(Part::UpProj));
        times(ar, pairwise(ar, Kind::Multiply, gate, up), slot(Part::DownProj))
    }) by {
        let vx = row3(value(ar, env, x), r, q);
        let vg = row3(value(ar, env, lg), r, q);
        let vu = row3(value(ar, env, lu), r, q);
        let va = row3(value(ar, env, act), r, q);
        let vb = row3(value(ar, env, both), r, q);
    }
}

/// Whether sums go through a product: with a row in its first or its second place, and
/// through a multiplication in its second place.
pub open spec fn distributes<E>(ar: Arithmetic<E>) -> bool {
    &&& forall|x: Seq<E>, a: Seq<E>, b: Seq<E>|
        a.len() == b.len() ==> #[trigger] (ar.dot)(x, pairwise(ar, Kind::Add, a, b)) == (ar.bin)(
            Kind::Add,
            (ar.dot)(x, a),
            (ar.dot)(x, b),
        )
    &&& forall|x: Seq<E>, a: Seq<E>, b: Seq<E>|
        a.len() == b.len() ==> #[trigger] (ar.dot)(pairwise(ar, Kind::Add, a, b), x) == (ar.bin)(
            Kind::Add,
            (ar.dot)(a, x),
            (ar.dot)(b, x),
        )
    &&& forall|x: E, a: E, b: E| #[trigger]
        (ar.bin)(Kind::Multiply, x, (ar.bin)(Kind::Add, a, b)) == (ar.bin)(
            Kind::Add,
            (ar.bin)(Kind::Multiply, x, a),
            (ar.bin)(Kind::Multiply, x, b),
        )
}

/// Where sums go through products, the feed-forward half is linear in the up weight: the
/// sum of two such weights gives the sum of the two results, all else equal.
pub proof fn law_mlp_is_linear_in_its_up_weight<E>(
    ar: Arithmetic<E>,
    e1: spec_fn(Kind) -> Val<E>,
    e2: spec_fn(Kind) -> Val<E>,
    e3: spec_fn(Kind) -> Val<E>,
    h: Term,
    i: usize,
    b: int,
    s: int,
    vocab: int,
    inner: int,
    r: int,
    q: int,
)
    requires
        distributes(ar),
        holds_model(e1, vocab, inner),
        holds_model(e2, vocab, inner),
        holds_model(e3, vocab, inner),
        0 <= r < b,
        0 <= q < s,
        value(ar, e1, h).shape == seq![b, s, 2048],
        value(ar, e2, h).shape == seq![b, s, 2048],
        value(ar, e3, h).shape == seq![b, s, 2048],
        row3(value(ar, e1, h), r, q) == row3(value(ar, e3, h), r, q),
        row3(value(ar, e2, h), r, q) == row3(value(ar, e3, h), r, q),
        ({
            let up = WeightKey { stack: Stack::Nemotron, slot: Slot::Layer(i, Part::UpProj) };
            &&& forall|key: WeightKey| #![trigger e3(Kind::Weight(key))]
                key != up ==> e1(Kind::Weight(key)) == e3(Kind::Weight(key)) && e2(
                    Kind::Weight(key),
                ) == e3(Kind::Weight(key))
            &&& forall|u: int|
                0 <= u < inner ==> #[trigger] row2(e3(Kind::Weight(up)), u) == pairwise(
                    ar,
                    Kind::Add,
                    row2(e1(Kind::Weight(up)), u),
                    row2(e2(Kind::Weight(up)), u),
                )
        }),
    ensures
        row3(value(ar, e3, mlp_term(h, i)), r, q) == pairwise(
            ar,
            Kind::Add,
            row3(value(ar, e1, mlp_term(h, i)), r, q),
            row3(value(ar, e2, mlp_term(h, i)), r, q),
        ),
{
    law_mlp_gates_the_up_projection(ar, e1, h, i, b, s, vocab, inner);
    law_mlp_gates_the_up_projection(ar, e2, h, i, b, s, vocab, inner);
    law_mlp_gates_the_up_projection(ar, e3, h, i, b, s, vocab, inner);
    let key = |part: Part| WeightKey { stack: Stack::Nemotron, slot: Slot::Layer(i, part) };
    let up = key(Part::UpProj);
    assert(weight_extents(Slot::Layer(i, Part::UpProj), vocab, inner) is Some);
    assert(weight_extents(Slot::Layer(i, Part::GateProj), vocab, inner) is Some);
    assert(weight_extents(Slot::Layer(i, Part::DownProj), vocab, inner) is Some);
    let (w1, w2, w3) = (e1(Kind::Weight(up)), e2(Kind::Weight(up)), e3(Kind::Weight(up)));
    let down = e3(Kind::Weight(key(Part::DownProj)));
    assert(e1(Kind::Weight(key(Part::DownProj))) == down);
    let gates = e3(Kind::Weight(key(Part::GateProj)));
    assert(e1(Kind::Weight(key(Part::GateProj))) == gates);
    let scale = e3(Kind::Weight(key(Part::PostAttentionNorm)));
    assert(e1(Kind::Weight(key(Part::PostAttentionNorm))) == scale);
    let x = normed(ar, dec(1, -5), row3(value(ar, e3, h), r, q), list(scale));
    let gate = each(ar, Kind::Silu, times(ar, x, gates));
    let (u1, u2, u3) = (times(ar, x, w1), times(ar, x, w2), times(ar, x, w3));
    assert(u3 =~= pairwise(ar, Kind::Add, u1, u2)) by {
        assert forall|u: int| 0 <= u < inner implies #[trigger] u3[u] == pairwise(
            ar,
            Kind::Add,
            u1,
            u2,
        )[u] by {
            assert(row2(w3, u) == pairwise(ar, Kind::Add, row2(w1, u), row2(w2, u)));
        }
    }
    let mul = Kind::Multiply;
    let (p1, p2, p3) = (
        pairwise(ar, mul, gate, u1),
        pairwise(ar, mul, gate, u2),
        pairwise(ar, mul, gate, u3),
    );
    assert(p3 =~= pairwise(ar, Kind::Add, p1, p2)) by {
        assert forall|u: int| 0 <= u < inner implies #[trigger] p3[u] == pairwise(
            ar,
            Kind::Add,
            p1,
            p2,
        )[u] by {
            assert(u3[u] == (ar.bin)(Kind::Add, u1[u], u2[u]));
        }
    }
    let (o1, o2, o3) = (times(ar, p1, down), times(ar, p2, down), times(ar, p3, down));
    assert(row3(value(ar, e1, mlp_term(h, i)), r, q) == o1);
    assert(row3(value(ar, e2, mlp_term(h, i)), r, q) == o2);
    assert(row3(value(ar, e3, mlp_term(h, i)), r, q) == o3);
    assert(o3 =~= pairwise(ar, Kind::Add, o1, o2));
}

/// A layer adds its attention half to the states, and its feed-forward half, computed
/// from that sum, to the sum.
pub proof fn law_layer_adds_both_halves<E>(
    ar: Arithmetic<E>,
    env: spec_fn(Kind) -> Val<E>,
    h: Term,
    mask: Term,
    i: usize,
    b: i32,
    s: i32,
    vocab: int,
    inner: int,
)
    requires
        holds_model(env, vocab, inner),
        0 < b,
        0 < s,
        value(ar, env, h).shape == seq![b as int, s as int, 2048],
        value(ar, env, mask).shape == seq![b as int, 1, 1, s as int],
    ensures
        value(ar, env, layer_term(h, mask, i, b, s)).shape == seq![b as int, s as int, 2048],
        ({
            let slot = |part: Part|
                env(Kind::Weight(WeightKey { stack: Stack::Nemotron, slot: Slot::Layer(i, part) }));
            forall|r: int, q: int|
                0 <= r < b && 0 <= q < s ==> #[trigger] row3(
                    value(ar, env, layer_term(h, mask, i, b, s)),
                    r,
                    q,
                ) == ({
                    let mid = pairwise(
                        ar,
                        Kind::Add,
                        row3(value(ar, env, h), r, q),
                        row3(value(ar, env, attention_term(h, mask, i, b, s)), r, q),
                    );
                    let x = normed(ar, dec(1, -5), mid, list(slot(Part::PostAttentionNorm)));
                    let gate = each(ar, Kind::Silu, times(ar, x, slot(Part::GateProj)));
                    let up = times(ar, x, slot(Part::UpProj));
                    pairwise(
                        ar,
                        Kind::Add,
                        mid,
                        times(ar, pairwise(ar, Kind::Multiply, gate, up), slot(Part::DownProj)),
                    )
                })
        }),
{
    let (bb, ss) = (b as int, s as int);
    law_attention_reads_its_weights(ar, env, h, mask, i, b, s, vocab, inner);
    let a = attention_term(h, mask, i, b, s);
    pairs_at(ar, env, Kind::Add, h, a, bb, ss, 2048);
    let mid = binary(Kind::Add, h, a);
    law_mlp_gates_the_up_projection(ar, env, mid, i, bb, ss, vocab, inner);
    pairs_at(ar, env, Kind::Add, mid, mlp_term(mid, i), bb, ss, 2048);
    assert forall|r: int, q: int| 0 <= r < b && 0 <= q < s implies #[trigger] row3(
        value(ar, env, layer_term(h, mask, i, b, s)),
        r,
        q,
    ) == pairwise(
        ar,
        Kind::Add,
        row3(value(ar, env, mid), r, q),
        row3(value(ar, env, mlp_term(mid, i)), r, q),
    ) && row3(value(ar, env, mid), r, q) == pairwise(
        ar,
        Kind::Add,
        row3(value(ar, env, h), r, q),
        row3(value(ar, env, a), r, q),
    ) by {}
}

/// Layers follow one another in the order of their numbers, from layer zero.
pub proof fn law_layers_run_in_order(h: Term, mask: Term, n: nat, b: i32, s: i32)
    ensures
        layers_term(h, mask, 0, b, s) == h,
        layers_term(h, mask, n + 1, b, s) == layer_term(
            layers_term(h, mask, n, b, s),
            mask,
            n as usize,
            b,
            s,
        ),
{
}

/// Hidden states begin as the rows of the embedding weight that the ids name.
pub proof fn law_states_begin_as_embeddings<E>(
    ar: Arithmetic<E>,
    env: spec_fn(Kind) -> Val<E>,
    b: i32,
    s: i32,
    vocab: int,
    inner: int,
)
    requires
        holds_model(env, vocab, inner),
        0 < b,
        0 < s,
        env(Kind::Ids(0)).shape == seq![b as int, s as int],
    ensures
        value(ar, env, embedded_term(b, s)).shape == seq![b as int, s as int, 2048],
        forall|r: int, q: int|
            0 <= r < b && 0 <= q < s ==> #[trigger] row3(value(ar, env, embedded_term(b, s)), r, q)
                == row2(
                env(Kind::Weight(WeightKey { stack: Stack::Nemotron, slot: Slot::Embedding })),
                (ar.index)(at2(env(Kind::Ids(0)), r, q)),
            ),
{
    assert(weight_extents(Slot::Embedding, vocab, inner) is Some);
    weight_at(ar, env, Slot::Embedding);
    leaf_at(ar, env, Kind::Ids(0));
    embedded_rows(ar, env, leaf(Kind::Ids(0)), weight(Slot::Embedding), vocab, b, s, 2048);
    assert forall|r: int, q: int| 0 <= r < b && 0 <= q < s implies #[trigger] row3(
        value(ar, env, embedded_term(b, s)),
        r,
        q,
    ) == row2(
        env(Kind::Weight(WeightKey { stack: Stack::Nemotron, slot: Slot::Embedding })),
        (ar.index)(at2(env(Kind::Ids(0)), r, q)),
    ) by {
        assert(at2(value(ar, env, leaf(Kind::Ids(0))), r, q) == at2(env(Kind::Ids(0)), r, q));
    }
}

/// The padding mask says sixty thousand below zero of a token whose mask equals zero,
/// and zero of every other, to every query alike.
pub proof fn law_padding_mask_marks_zeros<E>(
    ar: Arithmetic<E>,
    env: spec_fn(Kind) -> Val<E>,
    b: i32,
    s: i32,
)
    requires
        0 < b,
        0 < s,
        env(Kind::Mask(0)).shape == seq![b as int, s as int],
    ensures
        value(ar, env, padding_mask_term(b, s)).shape == seq![b as int, 1, 1, s as int],
        forall|r: int, c: int|
            0 <= r < b && 0 <= c < s ==> #[trigger] at4(
                value(ar, env, padding_mask_term(b, s)),
                r,
                0,
                0,
                c,
            ) == ({
                let short = |x: E| (ar.cast)(elem_of(Ty::F16), x);
                let nil = short((ar.num)(dec(0, 0)));
                if (ar.holds)((ar.bin)(Kind::Equal, short(at2(env(Kind::Mask(0)), r, c)), nil)) {
                    short(short((ar.num)(dec(-6, 4))))
                } else {
                    short(nil)
                }
            }),
{
    leaf_at(ar, env, Kind::Mask(0));
    padding_mask_at(ar, env, b, s);
    let m = value(ar, env, leaf(Kind::Mask(0)));
    assert forall|r: int, c: int| #[trigger] at2(m, r, c) == at2(env(Kind::Mask(0)), r, c) by {}
}

/// The score of a row, from the states behind sixteen layers: they are normalised by the
/// final weight, summed over the row's tokens, each times its mask, divided by the sum
/// of the mask, and multiplied by the one row of the score head.
pub proof fn law_score_is_read_from_the_mean<E>(
    ar: Arithmetic<E>,
    env: spec_fn(Kind) -> Val<E>,
    b: i32,
    s: i32,
    vocab: int,
    inner: int,
)
    requires
        holds_model(env, vocab, inner),
        0 < b,
        0 < s,
        env(Kind::Ids(0)).shape == seq![b as int, s as int],
        env(Kind::Mask(0)).shape == seq![b as int, s as int],
    ensures
        ({
            let slot = |slot: Slot| env(Kind::Weight(WeightKey { stack: Stack::Nemotron, slot }));
            let deep = value(
                ar,
                env,
                layers_term(embedded_term(b, s), padding_mask_term(b, s), 16, b, s),
            );
            let keep = |r: int, q: int|
                (ar.cast)(elem_of(Ty::F16), at2(env(Kind::Mask(0)), r, q));
            let state = |r: int, q: int|
                normed(ar, dec(1, -5), row3(deep, r, q), list(slot(Slot::FinalNorm)));
            forall|r: int|
                0 <= r < b ==> #[trigger] at1(value(ar, env, forward_term(b, s)), r) == (ar.dot)(
                    Seq::new(
                        2048,
                        |j: int|
                            (ar.bin)(
                                Kind::Divide,
                                total(
                                    ar,
                                    Seq::new(
                                        s as nat,
                                        |q: int|
                                            (ar.bin)(
                                                Kind::Multiply,
                                                state(r, q)[j],
                                                keep(r, q),
                                            ),
                                    ),
                                ),
                                total(ar, Seq::new(s as nat, |q: int| keep(r, q))),
                            ),
                    ),
                    row2(slot(Slot::ScoreHead), 0),
                )
        }),
{
    let (bb, ss) = (b as int, s as int);
    law_states_begin_as_embeddings(ar, env, b, s, vocab, inner);
    law_padding_mask_marks_zeros(ar, env, b, s);
    let (x, m) = (embedded_term(b, s), padding_mask_term(b, s));
    lemma_layers_shape(ar, env, x, m, 16, b, s, vocab, inner);
    let deep = layers_term(x, m, 16, b, s);
    assert(weight_extents(Slot::FinalNorm, vocab, inner) is Some);
    assert(weight_extents(Slot::ScoreHead, vocab, inner) is Some);
    law_norm_scales_by_its_weight(ar, env, deep, Slot::FinalNorm, bb, ss, 2048);
    let n = rms_norm_term(deep, Slot::FinalNorm);
    leaf_at(ar, env, Kind::Mask(0));
    pool_at(ar, env, n, b, s);
    let pooled = mean_pool_term(n, b, s);
    weight_at(ar, env, Slot::ScoreHead);
    let head = weight(Slot::ScoreHead);
    lemma_value1(ar, env, Kind::Transpose, head);
    lemma_result1(ar, env, Kind::Transpose, value(ar, env, head));
    let wt = value(ar, env, unary(Kind::Transpose, head));
    assert(value(ar, env, head).shape.reverse() =~= seq![2048int, 1]);
    score_at(ar, env, pooled, b);
    let o = seq![0int, 0];
    assert(line(wt, 0, o) =~= row2(weight_of(env, Stack::Nemotron, Slot::ScoreHead), 0)) by {
        assert forall|j: int| 0 <= j < 2048 implies #[trigger] line(wt, 0, o)[j] == row2(
            value(ar, env, head),
            0,
        )[j] by {
            assert(o.update(0, j).reverse() =~= seq![0, j]);
        }
        assert(row2(value(ar, env, head), 0) == row2(
            weight_of(env, Stack::Nemotron, Slot::ScoreHead),
            0,
        ));
    }
    let slot = |slot: Slot| env(Kind::Weight(WeightKey { stack: Stack::Nemotron, slot }));
    let vd = value(ar, env, deep);
    let vm = value(ar, env, leaf(Kind::Mask(0)));
    let keep = |r: int, q: int| (ar.cast)(elem_of(Ty::F16), at2(env(Kind::Mask(0)), r, q));
    let state = |r: int, q: int|
        normed(ar, dec(1, -5), row3(vd, r, q), list(slot(Slot::FinalNorm)));
    assert forall|r: int| 0 <= r < b implies #[trigger] at1(value(ar, env, forward_term(b, s)), r)
        == (ar.dot)(
        Seq::new(
            2048,
            |j: int|
                (ar.bin)(
                    Kind::Divide,
                    total(
                        ar,
                        Seq::new(
                            s as nat,
                            |q: int| (ar.bin)(Kind::Multiply, state(r, q)[j], keep(r, q)),
                        ),
                    ),
                    total(ar, Seq::new(s as nat, |q: int| keep(r, q))),
                ),
        ),
        row2(slot(Slot::ScoreHead), 0),
    ) by {
        let mine = Seq::new(
            2048,
            |j: int|
                (ar.bin)(
                    Kind::Divide,
                    total(
                        ar,
                        Seq::new(
                            s as nat,
                            |q: int| (ar.bin)(Kind::Multiply, state(r, q)[j], keep(r, q)),
                        ),
                    ),
                    total(ar, Seq::new(s as nat, |q: int| keep(r, q))),
                ),
        );
        let theirs = Seq::new(2048, |j: int| at2(value(ar, env, pooled), r, j));
        assert forall|j: int| 0 <= j < 2048 implies #[trigger] theirs[j] == mine[j] by {
            assert(at2(value(ar, env, pooled), r, j) == pool_of(
                ar,
                value(ar, env, n),
                vm,
                ss,
                r,
                j,
            ));
            let short = elem_of(Ty::F16);
            let p = Seq::new(
                s as nat,
                |c: int|
                    (ar.bin)(
                        Kind::Multiply,
                        at3(value(ar, env, n), r, c, j),
                        (ar.cast)(short, at2(vm, r, c)),
                    ),
            );
            let w = Seq::new(
                s as nat,
                |q: int| (ar.bin)(Kind::Multiply, state(r, q)[j], keep(r, q)),
            );
            assert forall|q: int| 0 <= q < s implies #[trigger] p[q] == w[q] by {
                assert(row3(value(ar, env, n), r, q) == state(r, q));
                assert(row3(value(ar, env, n), r, q)[j] == at3(value(ar, env, n), r, q, j));
                assert(at2(vm, r, q) == at2(env(Kind::Mask(0)), r, q));
            }
            assert(p =~= w);
            let d1 = Seq::new(s as nat, |c: int| (ar.cast)(short, at2(vm, r, c)));
            let d2 = Seq::new(s as nat, |q: int| keep(r, q));
            assert forall|q: int| 0 <= q < s implies #[trigger] d1[q] == d2[q] by {
                assert(at2(vm, r, q) == at2(env(Kind::Mask(0)), r, q));
            }
            assert(d1 =~= d2);
        }
        assert(theirs =~= mine);
    }
}

proof fn lemma_layers_shape<E>(
    ar: Arithmetic<E>,
    env: spec_fn(Kind) -> Val<E>,
    x: Term,
    m: Term,
    n: nat,
    b: i32,
    s: i32,
    vocab: int,
    inner: int,
)
    requires
        holds_model(env, vocab, inner),
        0 < b,
        0 < s,
        value(ar, env, x).shape == seq![b as int, s as int, 2048],
        value(ar, env, m).shape == seq![b as int, 1, 1, s as int],
    ensures
        value(ar, env, layers_term(x, m, n, b, s)).shape == seq![b as int, s as int, 2048],
    decreases n,
{
    if n > 0 {
        let j = (n - 1) as nat;
        lemma_layers_shape(ar, env, x, m, j, b, s, vocab, inner);
        let y = layers_term(x, m, j, b, s);
        law_layer_adds_both_halves(ar, env, y, m, (n - 1) as usize, b, s, vocab, inner);
    }
}

} // verus!
