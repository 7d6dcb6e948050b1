//! Windows of what terms compute, operation by operation.

use crate::graph::{binary, leaf, quaternary, ternary, turn, unary};
use crate::graph::{Dims, Kind, Num, Term, Ty, REST};
use crate::meaning::{ignores_padding, in_range, project, value, Arithmetic, Val};
use crate::types::elem_of;
use crate::meaning::{lemma_value0, lemma_value1, lemma_value2, lemma_value3, lemma_value4};
use crate::shapes::{are_extents, axis_of, extents, is_axis, lemma_product, lemma_reshaped};
use crate::shapes::{lemma_stretched_into, lemma_stretched_scalar, reshaped, rule0, stretched};
use crate::window_folds::{drop_column, fold_column, fold_heads, fold_keys, fold_rows, join_last};
use crate::window_folds::{split_last, unfold_heads, unfold_rows};
use crate::window_moves::{lemma_flat, lemma_reshape_at, window_concat, window_permute};
use crate::window_moves::{window_repeat, window_slice_last, window_take_rows};
use crate::window_sums::{fades, is_hidden, window_attention, window_sum};
use crate::windows::{is_map, is_same, is_window, is_zip, lemma_project, lemma_result1};
use crate::windows::{lemma_result2, lemma_result3, lemma_result_concat, lies_in, shifted, stretches};
use crate::windows::{window_cast_like, window_map, window_matmul, window_rms, window_rope};
use crate::windows::{window_mean_last, window_which, window_zip};
use vstd::prelude::*;

verus! {

/// Two programs in one arithmetic, with the arrays that each starts from.
#[verifier::reject_recursive_types(E)]
pub struct Pair<E> {
    pub ar: Arithmetic<E>,
    pub e1: spec_fn(Kind) -> Val<E>,
    pub e2: spec_fn(Kind) -> Val<E>,
}

/// What a term of the first program computes.
pub open spec fn first<E>(p: Pair<E>, t: Term) -> Val<E> {
    value(p.ar, p.e1, t)
}

/// What a term of the second program computes.
pub open spec fn second<E>(p: Pair<E>, t: Term) -> Val<E> {
    value(p.ar, p.e2, t)
}

/// Whether the second term computes the part of what the first computes that begins at
/// `off`; `s1` and `s2` are their extents.
#[verifier::opaque]
pub open spec fn is_part<E>(
    p: Pair<E>,
    t1: Term,
    t2: Term,
    s1: Seq<int>,
    s2: Seq<int>,
    off: Seq<int>,
) -> bool {
    &&& is_window(first(p, t1), second(p, t2), off)
    &&& first(p, t1).shape == s1
    &&& second(p, t2).shape == s2
}

/// Whether both terms compute the same array, of extents `s`.
#[verifier::opaque]
pub open spec fn is_shared<E>(p: Pair<E>, t1: Term, t2: Term, s: Seq<int>) -> bool {
    &&& is_same(first(p, t1), second(p, t2))
    &&& second(p, t2).shape == s
}

/// An array that both programs start from.
pub proof fn shared_leaf<E>(p: Pair<E>, kind: Kind, s: Seq<int>)
    requires
        !(kind is Concat),
        (p.e1)(kind) == (p.e2)(kind),
        rule0(kind, |k: Kind| Some((p.e1)(k).shape)) == Some(s),
        are_extents(s),
    ensures
        is_shared(p, leaf(kind), leaf(kind), s),
{
    reveal(is_shared);
    lemma_value0(p.ar, p.e1, kind);
    lemma_value0(p.ar, p.e2, kind);
}

/// An element-wise operation on a shared array.
pub proof fn shared_map<E>(p: Pair<E>, kind: Kind, t1: Term, t2: Term, s: Seq<int>)
    requires
        is_map(kind),
        is_shared(p, t1, t2, s),
    ensures
        is_shared(p, unary(kind, t1), unary(kind, t2), s),
{
    reveal(is_shared);
    lemma_value1(p.ar, p.e1, kind, t1);
    lemma_value1(p.ar, p.e2, kind, t2);
    lemma_result1(p.ar, p.e1, kind, first(p, t1));
    lemma_result1(p.ar, p.e2, kind, second(p, t2));
}

/// A shared matrix, its axes exchanged.
pub proof fn shared_transpose<E>(p: Pair<E>, t1: Term, t2: Term, a: int, b: int)
    requires
        is_shared(p, t1, t2, seq![a, b]),
    ensures
        is_shared(p, unary(Kind::Transpose, t1), unary(Kind::Transpose, t2), seq![b, a]),
{
    reveal(is_shared);
    lemma_value1(p.ar, p.e1, Kind::Transpose, t1);
    lemma_value1(p.ar, p.e2, Kind::Transpose, t2);
    lemma_result1(p.ar, p.e1, Kind::Transpose, first(p, t1));
    lemma_result1(p.ar, p.e2, Kind::Transpose, second(p, t2));
    let s = seq![a, b];
    assert(s.reverse() =~= seq![b, a]);
    assert(0 <= s[0] && 0 <= s[1]);
}

/// A shared array is a window of itself.
pub proof fn part_shared<E>(p: Pair<E>, t1: Term, t2: Term, s: Seq<int>, off: Seq<int>)
    requires
        is_shared(p, t1, t2, s),
        off.len() == s.len(),
        forall|a: int| 0 <= a < off.len() ==> #[trigger] off[a] == 0,
    ensures
        is_part(p, t1, t2, s, s, off),
{
    reveal(is_shared);
    reveal(is_part);
    assert forall|i: Seq<int>| #[trigger] in_range(i, s) implies shifted(i, off) == i by {
        assert(shifted(i, off) =~= i);
    }
    assert forall|a: int| 0 <= a < off.len() implies 0 <= #[trigger] off[a] && 0 <= s[a] && off[a]
        + s[a] <= s[a] by {}
}

/// An element-wise operation.
pub proof fn part_map<E>(
    p: Pair<E>,
    kind: Kind,
    t1: Term,
    t2: Term,
    s1: Seq<int>,
    s2: Seq<int>,
    off: Seq<int>,
)
    requires
        is_map(kind),
        is_part(p, t1, t2, s1, s2, off),
    ensures
        is_part(p, unary(kind, t1), unary(kind, t2), s1, s2, off),
{
    reveal(is_part);
    lemma_value1(p.ar, p.e1, kind, t1);
    lemma_value1(p.ar, p.e2, kind, t2);
    window_map(p.ar, p.e1, p.e2, kind, first(p, t1), second(p, t2), off);
}

/// A cast to the type of another array.
pub proof fn part_cast_like<E>(
    p: Pair<E>,
    t1: Term,
    t2: Term,
    s1: Seq<int>,
    s2: Seq<int>,
    off: Seq<int>,
    l1: Term,
    l2: Term,
    sl1: Seq<int>,
    sl2: Seq<int>,
    ol: Seq<int>,
)
    requires
        is_part(p, t1, t2, s1, s2, off),
        is_part(p, l1, l2, sl1, sl2, ol),
    ensures
        is_part(p, binary(Kind::CastLike, t1, l1), binary(Kind::CastLike, t2, l2), s1, s2, off),
{
    reveal(is_part);
    lemma_value2(p.ar, p.e1, Kind::CastLike, t1, l1);
    lemma_value2(p.ar, p.e2, Kind::CastLike, t2, l2);
    window_cast_like(
        p.ar,
        p.e1,
        p.e2,
        first(p, t1),
        second(p, t2),
        off,
        first(p, l1),
        second(p, l2),
    );
}

/// An element-wise operation on two arrays, the second of which may be stretched.
pub proof fn part_zip<E>(
    p: Pair<E>,
    kind: Kind,
    t1: Term,
    t2: Term,
    s1: Seq<int>,
    s2: Seq<int>,
    off: Seq<int>,
    u1: Term,
    u2: Term,
    z1: Seq<int>,
    z2: Seq<int>,
    oz: Seq<int>,
)
    requires
        is_zip(kind),
        is_part(p, t1, t2, s1, s2, off),
        is_part(p, u1, u2, z1, z2, oz),
        stretches(z1, z2, oz, s1, s2, off),
    ensures
        is_part(p, binary(kind, t1, u1), binary(kind, t2, u2), s1, s2, off),
        is_part(p, binary(kind, u1, t1), binary(kind, u2, t2), s1, s2, off),
{
    reveal(is_part);
    lemma_value2(p.ar, p.e1, kind, t1, u1);
    lemma_value2(p.ar, p.e2, kind, t2, u2);
    lemma_value2(p.ar, p.e1, kind, u1, t1);
    lemma_value2(p.ar, p.e2, kind, u2, t2);
    window_zip(
        p.ar,
        p.e1,
        p.e2,
        kind,
        first(p, t1),
        second(p, t2),
        off,
        first(p, u1),
        second(p, u2),
        oz,
    );
}

/// An element-wise operation on two arrays of the same extents.
pub proof fn part_zip_same<E>(
    p: Pair<E>,
    kind: Kind,
    t1: Term,
    t2: Term,
    u1: Term,
    u2: Term,
    s1: Seq<int>,
    s2: Seq<int>,
    off: Seq<int>,
)
    requires
        is_zip(kind),
        is_part(p, t1, t2, s1, s2, off),
        is_part(p, u1, u2, s1, s2, off),
    ensures
        is_part(p, binary(kind, t1, u1), binary(kind, t2, u2), s1, s2, off),
{
    part_zip(p, kind, t1, t2, s1, s2, off, u1, u2, s1, s2, off);
}

/// An element-wise operation with a shared number.
pub proof fn part_zip_number<E>(
    p: Pair<E>,
    kind: Kind,
    t1: Term,
    t2: Term,
    s1: Seq<int>,
    s2: Seq<int>,
    off: Seq<int>,
    u1: Term,
    u2: Term,
)
    requires
        is_zip(kind),
        is_part(p, t1, t2, s1, s2, off),
        is_shared(p, u1, u2, seq![]),
    ensures
        is_part(p, binary(kind, t1, u1), binary(kind, t2, u2), s1, s2, off),
        is_part(p, binary(kind, u1, t1), binary(kind, u2, t2), s1, s2, off),
{
    part_shared(p, u1, u2, seq![], seq![]);
    part_zip(p, kind, t1, t2, s1, s2, off, u1, u2, seq![], seq![], seq![]);
}

/// A choice between two shared numbers.
pub proof fn part_which<E>(
    p: Pair<E>,
    c1: Term,
    c2: Term,
    s1: Seq<int>,
    s2: Seq<int>,
    off: Seq<int>,
    yes: Term,
    no: Term,
)
    requires
        is_part(p, c1, c2, s1, s2, off),
        is_shared(p, yes, yes, seq![]),
        is_shared(p, no, no, seq![]),
    ensures
        is_part(
            p,
            ternary(Kind::Which, c1, yes, no),
            ternary(Kind::Which, c2, yes, no),
            s1,
            s2,
            off,
        ),
        ({
            let r = first(p, ternary(Kind::Which, c1, yes, no));
            forall|i: Seq<int>| #[trigger]
                (r.at)(i) == if (p.ar.holds)((first(p, c1).at)(project(i, s1))) {
                    (first(p, yes).at)(seq![])
                } else {
                    (first(p, no).at)(seq![])
                }
        }),
{
    reveal(is_part);
    reveal(is_shared);
    lemma_value3(p.ar, p.e1, Kind::Which, c1, yes, no);
    lemma_value3(p.ar, p.e2, Kind::Which, c2, yes, no);
    window_which(
        p.ar,
        p.e1,
        p.e2,
        first(p, c1),
        second(p, c2),
        off,
        first(p, yes),
        second(p, yes),
        first(p, no),
        second(p, no),
    );
}

/// A shared number, and what it is.
pub proof fn shared_number<E>(p: Pair<E>, num: Num)
    ensures
        is_shared(p, leaf(Kind::Const(num)), leaf(Kind::Const(num)), seq![]),
        (first(p, leaf(Kind::Const(num))).at)(seq![]) == (p.ar.num)(num),
{
    reveal(is_shared);
    lemma_value0(p.ar, p.e1, Kind::Const(num));
    lemma_value0(p.ar, p.e2, Kind::Const(num));
}

/// Elements of a cast.
pub proof fn lemma_cast_at<E>(p: Pair<E>, ty: Ty, t: Term)
    ensures
        ({
            let r = first(p, unary(Kind::Cast(ty), t));
            &&& r.shape == first(p, t).shape
            &&& forall|i: Seq<int>| #[trigger]
                (r.at)(i) == (p.ar.cast)(elem_of(ty), (first(p, t).at)(i))
        }),
{
    lemma_value1(p.ar, p.e1, Kind::Cast(ty), t);
    lemma_result1(p.ar, p.e1, Kind::Cast(ty), first(p, t));
}

/// Elements of an element-wise operation on two arrays.
pub proof fn lemma_zip_at<E>(p: Pair<E>, kind: Kind, t: Term, u: Term)
    requires
        is_zip(kind),
    ensures
        ({
            let r = first(p, binary(kind, t, u));
            forall|i: Seq<int>| #[trigger]
                (r.at)(i) == (p.ar.bin)(
                    kind,
                    (first(p, t).at)(project(i, first(p, t).shape)),
                    (first(p, u).at)(project(i, first(p, u).shape)),
                )
        }),
{
    lemma_value2(p.ar, p.e1, kind, t, u);
    lemma_result2(p.ar, p.e1, kind, first(p, t), first(p, u));
}

/// A product with the transpose of a shared matrix.
pub proof fn part_linear<E>(
    p: Pair<E>,
    t1: Term,
    t2: Term,
    s1: Seq<int>,
    s2: Seq<int>,
    off: Seq<int>,
    w: Term,
    from: int,
    to: int,
)
    requires
        is_part(p, t1, t2, s1.push(from), s2.push(from), off),
        is_shared(p, w, w, seq![to, from]),
        off.len() >= 2,
        off.last() == 0,
        to >= 0,
    ensures
        ({
            let wt = unary(Kind::Transpose, w);
            is_part(
                p,
                binary(Kind::Matmul, t1, wt),
                binary(Kind::Matmul, t2, wt),
                s1.push(to),
                s2.push(to),
                off,
            )
        }),
{
    let wt = unary(Kind::Transpose, w);
    shared_transpose(p, w, w, to, from);
    reveal(is_part);
    reveal(is_shared);
    lemma_value2(p.ar, p.e1, Kind::Matmul, t1, wt);
    lemma_value2(p.ar, p.e2, Kind::Matmul, t2, wt);
    window_matmul(
        p.ar,
        p.e1,
        p.e2,
        first(p, t1),
        second(p, t2),
        off,
        first(p, wt),
        second(p, wt),
        from,
        to,
    );
    assert(s1.push(from).drop_last() =~= s1);
    assert(s2.push(from).drop_last() =~= s2);
}

/// A normalisation with shared weights.
pub proof fn part_rms<E>(
    p: Pair<E>,
    kind: Kind,
    t1: Term,
    t2: Term,
    s1: Seq<int>,
    s2: Seq<int>,
    off: Seq<int>,
    w: Term,
)
    requires
        kind is FastRmsNorm,
        is_part(p, t1, t2, s1, s2, off),
        off.len() >= 1,
        off.last() == 0,
        s1.last() == s2.last(),
        is_shared(p, w, w, seq![s2.last()]),
    ensures
        is_part(p, binary(kind, t1, w), binary(kind, t2, w), s1, s2, off),
{
    reveal(is_part);
    reveal(is_shared);
    lemma_value2(p.ar, p.e1, kind, t1, w);
    lemma_value2(p.ar, p.e2, kind, t2, w);
    window_rms(
        p.ar,
        p.e1,
        p.e2,
        kind,
        first(p, t1),
        second(p, t2),
        off,
        first(p, w),
        second(p, w),
    );
}

/// The embeddings of rows of tokens, from a shared table.
pub proof fn part_embedded<E>(
    p: Pair<E>,
    t1: Term,
    t2: Term,
    table: Term,
    vocab: int,
    b: i32,
    s: i32,
    w: i32,
    h: i32,
    r: int,
)
    requires
        0 < b,
        0 < w <= s,
        0 < h,
        0 <= r < b,
        is_part(p, t1, t2, seq![b as int, s as int], seq![1, w as int], seq![r, 0]),
        is_shared(p, table, table, seq![vocab, h as int]),
    ensures
        ({
            let flat = Kind::Reshape(Dims::D1(REST));
            let take = Kind::Take { axis: 0 };
            is_part(
                p,
                unary(Kind::Reshape(Dims::D3(b, s, h)), binary(take, table, unary(flat, t1))),
                unary(Kind::Reshape(Dims::D3(1, w, h)), binary(take, table, unary(flat, t2))),
                seq![b as int, s as int, h as int],
                seq![1, w as int, h as int],
                seq![r, 0, 0],
            )
        }),
{
    reveal(is_part);
    reveal(is_shared);
    let flat = Kind::Reshape(Dims::D1(REST));
    let take = Kind::Take { axis: 0 };
    let (f1, f2) = (unary(flat, t1), unary(flat, t2));
    lemma_value1(p.ar, p.e1, flat, t1);
    lemma_value1(p.ar, p.e2, flat, t2);
    fold_rows(p.ar, p.e1, p.e2, first(p, t1), second(p, t2), b, s, w, r);
    let (g1, g2) = (binary(take, table, f1), binary(take, table, f2));
    lemma_value2(p.ar, p.e1, take, table, f1);
    lemma_value2(p.ar, p.e2, take, table, f2);
    window_take_rows(
        p.ar,
        p.e1,
        p.e2,
        first(p, table),
        second(p, table),
        first(p, f1),
        second(p, f2),
        seq![r * s],
        vocab,
        h as int,
    );
    lemma_value1(p.ar, p.e1, Kind::Reshape(Dims::D3(b, s, h)), g1);
    lemma_value1(p.ar, p.e2, Kind::Reshape(Dims::D3(1, w, h)), g2);
    unfold_rows(p.ar, p.e1, p.e2, first(p, g1), second(p, g2), b, s, w, h, r);
}

/// `[b, s, n * d]` as `[b, n, s, d]`.
pub proof fn part_split_heads<E>(
    p: Pair<E>,
    t1: Term,
    t2: Term,
    b: i32,
    s: i32,
    w: i32,
    n: i32,
    d: i32,
    r: int,
)
    requires
        0 < b,
        0 < w <= s,
        0 < n,
        0 < d,
        0 <= r < b,
        is_part(p, t1, t2, seq![b as int, s as int, n * d], seq![1, w as int, n * d], seq![r, 0, 0]),
    ensures
        ({
            let swap = Kind::Permute(Dims::D4(0, 2, 1, 3));
            is_part(
                p,
                unary(swap, unary(Kind::Reshape(Dims::D4(b, s, n, d)), t1)),
                unary(swap, unary(Kind::Reshape(Dims::D4(1, w, n, d)), t2)),
                seq![b as int, n as int, s as int, d as int],
                seq![1, n as int, w as int, d as int],
                seq![r, 0, 0, 0],
            )
        }),
{
    reveal(is_part);
    let (k1, k2) = (Kind::Reshape(Dims::D4(b, s, n, d)), Kind::Reshape(Dims::D4(1, w, n, d)));
    let (f1, f2) = (unary(k1, t1), unary(k2, t2));
    lemma_value1(p.ar, p.e1, k1, t1);
    lemma_value1(p.ar, p.e2, k2, t2);
    split_last(p.ar, p.e1, p.e2, first(p, t1), second(p, t2), b, s, w, n, d, r);
    let swap = Kind::Permute(Dims::D4(0, 2, 1, 3));
    lemma_value1(p.ar, p.e1, swap, f1);
    lemma_value1(p.ar, p.e2, swap, f2);
    window_permute(p.ar, p.e1, p.e2, first(p, f1), second(p, f2), seq![r, 0, 0, 0]);
}

/// `[b, n, s, d]` as `[b, s, n * d]`.
pub proof fn part_join_heads<E>(
    p: Pair<E>,
    d1: Dims,
    d2: Dims,
    t1: Term,
    t2: Term,
    b: i32,
    s: i32,
    w: i32,
    n: i32,
    d: i32,
    r: int,
)
    requires
        0 < b,
        0 < w <= s,
        0 < n,
        0 < d,
        0 <= r < b,
        is_part(
            p,
            t1,
            t2,
            seq![b as int, n as int, s as int, d as int],
            seq![1, n as int, w as int, d as int],
            seq![r, 0, 0, 0],
        ),
        reshaped(seq![b as int, s as int, n as int, d as int], extents(d1)) == Some(
            seq![b as int, s as int, n * d],
        ),
        reshaped(seq![1, w as int, n as int, d as int], extents(d2)) == Some(
            seq![1, w as int, n * d],
        ),
    ensures
        ({
            let swap = Kind::Permute(Dims::D4(0, 2, 1, 3));
            is_part(
                p,
                unary(Kind::Reshape(d1), unary(swap, t1)),
                unary(Kind::Reshape(d2), unary(swap, t2)),
                seq![b as int, s as int, n * d],
                seq![1, w as int, n * d],
                seq![r, 0, 0],
            )
        }),
{
    reveal(is_part);
    let swap = Kind::Permute(Dims::D4(0, 2, 1, 3));
    let (f1, f2) = (unary(swap, t1), unary(swap, t2));
    lemma_value1(p.ar, p.e1, swap, t1);
    lemma_value1(p.ar, p.e2, swap, t2);
    window_permute(p.ar, p.e1, p.e2, first(p, t1), second(p, t2), seq![r, 0, 0, 0]);
    lemma_value1(p.ar, p.e1, Kind::Reshape(d1), f1);
    lemma_value1(p.ar, p.e2, Kind::Reshape(d2), f2);
    join_last(p.ar, p.e1, p.e2, first(p, f1), second(p, f2), d1, d2, b, s, w, n, d, r);
}

/// A rotation of every head, its rows laid end to end for the call.
pub proof fn part_rope<E>(
    p: Pair<E>,
    t1: Term,
    t2: Term,
    freqs: Term,
    b: i32,
    n: i32,
    s: i32,
    w: i32,
    d: i32,
    r: int,
)
    requires
        0 < b,
        0 < w <= s,
        0 < n,
        0 < d,
        d as int % 2 == 0,
        0 <= r < b,
        is_part(
            p,
            t1,
            t2,
            seq![b as int, n as int, s as int, d as int],
            seq![1, n as int, w as int, d as int],
            seq![r, 0, 0, 0],
        ),
        is_shared(p, freqs, freqs, seq![d as int / 2]),
    ensures
        ({
            let turn = turn(d);
            let (f1, f2) = (
                unary(Kind::Reshape(Dims::D3(REST, s, d)), t1),
                unary(Kind::Reshape(Dims::D3(REST, w, d)), t2),
            );
            is_part(
                p,
                unary(Kind::Reshape(Dims::D4(b, n, s, d)), binary(turn, f1, freqs)),
                unary(Kind::Reshape(Dims::D4(1, n, w, d)), binary(turn, f2, freqs)),
                seq![b as int, n as int, s as int, d as int],
                seq![1, n as int, w as int, d as int],
                seq![r, 0, 0, 0],
            )
        }),
{
    reveal(is_part);
    reveal(is_shared);
    let turn = turn(d);
    let (k1, k2) = (Kind::Reshape(Dims::D3(REST, s, d)), Kind::Reshape(Dims::D3(REST, w, d)));
    let (f1, f2) = (unary(k1, t1), unary(k2, t2));
    lemma_value1(p.ar, p.e1, k1, t1);
    lemma_value1(p.ar, p.e2, k2, t2);
    fold_heads(p.ar, p.e1, p.e2, first(p, t1), second(p, t2), b, n, s, w, d, r);
    let (g1, g2) = (binary(turn, f1, freqs), binary(turn, f2, freqs));
    lemma_value2(p.ar, p.e1, turn, f1, freqs);
    lemma_value2(p.ar, p.e2, turn, f2, freqs);
    window_rope(
        p.ar,
        p.e1,
        p.e2,
        d,
        first(p, f1),
        second(p, f2),
        seq![r * n, 0, 0],
        first(p, freqs),
        second(p, freqs),
    );
    lemma_value1(p.ar, p.e1, Kind::Reshape(Dims::D4(b, n, s, d)), g1);
    lemma_value1(p.ar, p.e2, Kind::Reshape(Dims::D4(1, n, w, d)), g2);
    unfold_heads(p.ar, p.e1, p.e2, first(p, g1), second(p, g2), b, n, s, w, d, r);
}

/// Attention, with every key behind the window hidden.
pub proof fn part_attention<E>(
    p: Pair<E>,
    num: Num,
    q1: Term,
    q2: Term,
    k1: Term,
    k2: Term,
    v1: Term,
    v2: Term,
    m1: Term,
    m2: Term,
    sq: Seq<int>,
    tq: Seq<int>,
    sk: Seq<int>,
    tk: Seq<int>,
    sm: Seq<int>,
    tm: Seq<int>,
    r: int,
)
    requires
        is_part(p, q1, q2, sq, tq, seq![r, 0, 0, 0]),
        is_part(p, k1, k2, sk, tk, seq![r, 0, 0, 0]),
        is_part(p, v1, v2, sk, tk, seq![r, 0, 0, 0]),
        is_part(p, m1, m2, sm, tm, seq![r, 0, 0, 0]),
        is_hidden(p.ar, first(p, m1), second(p, m2), seq![r, 0, 0, 0], 3),
        sq.len() == 4,
        sk.len() == 4,
        tk.len() == 4,
        tq == seq![1, sq[1], tq[2], sq[3]],
        sk == seq![sq[0], sk[1], sk[2], sq[3]],
        tk == seq![1, sk[1], tk[2], sq[3]],
        sk[1] > 0,
        sq[1] > 0,
        sq[1] % sk[1] == 0,
        tk[2] >= 1,
        sm.len() == 4,
        tm.len() == 4,
        sm[0] == sq[0] && tm[0] == 1,
        sm[1] == 1 && tm[1] == 1,
        sm[2] == 1 && tm[2] == 1 || sm[2] == sq[2] && tm[2] == tq[2],
        sm[3] == sk[2] && tm[3] == tk[2],
    ensures
        ({
            let kind = Kind::Attention(num);
            is_part(
                p,
                quaternary(kind, q1, k1, v1, m1),
                quaternary(kind, q2, k2, v2, m2),
                sq,
                tq,
                seq![r, 0, 0, 0],
            )
        }),
{
    reveal(is_part);
    let kind = Kind::Attention(num);
    lemma_value4(p.ar, p.e1, kind, q1, k1, v1, m1);
    lemma_value4(p.ar, p.e2, kind, q2, k2, v2, m2);
    window_attention(
        p.ar,
        p.e1,
        p.e2,
        num,
        first(p, q1),
        second(p, q2),
        first(p, k1),
        second(p, k2),
        first(p, v1),
        second(p, v2),
        first(p, m1),
        second(p, m2),
        sq,
        tq,
        sk,
        tk,
        r,
    );
}

/// One number for each key of each row, as a mask.
pub proof fn part_keys<E>(
    p: Pair<E>,
    t1: Term,
    t2: Term,
    b: i32,
    s: i32,
    w: i32,
    r: int,
)
    requires
        0 < b,
        0 < w <= s,
        0 <= r < b,
        is_part(p, t1, t2, seq![b as int, s as int], seq![1, w as int], seq![r, 0]),
    ensures
        ({
            let (k1, k2) = (Kind::Reshape(Dims::D4(b, 1, 1, s)), Kind::Reshape(Dims::D4(1, 1, 1, w)));
            &&& is_part(
                p,
                unary(k1, t1),
                unary(k2, t2),
                seq![b as int, 1, 1, s as int],
                seq![1, 1, 1, w as int],
                seq![r, 0, 0, 0],
            )
            &&& forall|i: Seq<int>|
                in_range(i, seq![b as int, 1, 1, s as int]) ==> #[trigger] (first(
                    p,
                    unary(k1, t1),
                ).at)(i) == (first(p, t1).at)(seq![i[0], i[3]])
        }),
{
    reveal(is_part);
    let (k1, k2) = (Kind::Reshape(Dims::D4(b, 1, 1, s)), Kind::Reshape(Dims::D4(1, 1, 1, w)));
    lemma_value1(p.ar, p.e1, k1, t1);
    lemma_value1(p.ar, p.e2, k2, t2);
    fold_keys(p.ar, p.e1, p.e2, first(p, t1), second(p, t2), b, s, w, r);
    let to = seq![b as int, 1, 1, s as int];
    assert(extents(Dims::D4(b, 1, 1, s)) =~= to);
    lemma_product(b as int, s as int, 1, 1);
    lemma_product(b as int, 1, 1, s as int);
    assert(b * 1 * 1 * s == b * s) by (nonlinear_arith);
    lemma_reshaped(seq![b as int, s as int], to);
    assert forall|i: Seq<int>| in_range(i, to) implies #[trigger] (first(p, unary(k1, t1)).at)(i)
        == (first(p, t1).at)(seq![i[0], i[3]]) by {
        let j = seq![i[0], i[3]];
        assert(0 <= i[0] < to[0] && 0 <= i[1] < to[1] && 0 <= i[2] < to[2] && 0 <= i[3] < to[3]);
        lemma_flat(i, to);
        lemma_flat(j, seq![b as int, s as int]);
        let q = i[0];
        assert(((q * 1 + 0) * 1 + 0) * s == q * s) by (nonlinear_arith);
        lemma_reshape_at(p.ar, p.e1, Dims::D4(b, 1, 1, s), first(p, t1), to, i, j);
    }
}

/// One number for each token, as a column.
pub proof fn part_column<E>(
    p: Pair<E>,
    t1: Term,
    t2: Term,
    b: i32,
    s: i32,
    w: i32,
    r: int,
)
    requires
        0 < b,
        0 < w <= s,
        0 <= r < b,
        is_part(p, t1, t2, seq![b as int, s as int], seq![1, w as int], seq![r, 0]),
    ensures
        ({
            let (k1, k2) = (Kind::Reshape(Dims::D3(b, s, 1)), Kind::Reshape(Dims::D3(1, w, 1)));
            &&& is_part(
                p,
                unary(k1, t1),
                unary(k2, t2),
                seq![b as int, s as int, 1],
                seq![1, w as int, 1],
                seq![r, 0, 0],
            )
            &&& forall|i: Seq<int>|
                in_range(i, seq![b as int, s as int, 1]) ==> #[trigger] (first(
                    p,
                    unary(k1, t1),
                ).at)(i) == (first(p, t1).at)(seq![i[0], i[1]])
        }),
{
    reveal(is_part);
    let (k1, k2) = (Kind::Reshape(Dims::D3(b, s, 1)), Kind::Reshape(Dims::D3(1, w, 1)));
    lemma_value1(p.ar, p.e1, k1, t1);
    lemma_value1(p.ar, p.e2, k2, t2);
    fold_column(p.ar, p.e1, p.e2, first(p, t1), second(p, t2), b, s, w, r);
    let to = seq![b as int, s as int, 1];
    assert(extents(Dims::D3(b, s, 1)) =~= to);
    lemma_product(b as int, s as int, 1, 1);
    lemma_reshaped(seq![b as int, s as int], to);
    assert forall|i: Seq<int>| in_range(i, to) implies #[trigger] (first(p, unary(k1, t1)).at)(i)
        == (first(p, t1).at)(seq![i[0], i[1]]) by {
        let j = seq![i[0], i[1]];
        assert(0 <= i[0] < to[0] && 0 <= i[1] < to[1] && 0 <= i[2] < to[2]);
        lemma_flat(i, to);
        lemma_flat(j, seq![b as int, s as int]);
        lemma_reshape_at(p.ar, p.e1, Dims::D3(b, s, 1), first(p, t1), to, i, j);
    }
}

/// A column of one number for each row, as a list.
pub proof fn part_drop_column<E>(p: Pair<E>, t1: Term, t2: Term, b: i32, r: int)
    requires
        0 < b,
        0 <= r < b,
        is_part(p, t1, t2, seq![b as int, 1], seq![1, 1], seq![r, 0]),
    ensures
        is_part(
            p,
            unary(Kind::Reshape(Dims::D1(b)), t1),
            unary(Kind::Reshape(Dims::D1(1)), t2),
            seq![b as int],
            seq![1],
            seq![r],
        ),
{
    reveal(is_part);
    lemma_value1(p.ar, p.e1, Kind::Reshape(Dims::D1(b)), t1);
    lemma_value1(p.ar, p.e2, Kind::Reshape(Dims::D1(1)), t2);
    drop_column(p.ar, p.e1, p.e2, first(p, t1), second(p, t2), b, r);
}

/// A sum along an axis, with zeros behind the window.
pub proof fn part_sum<E>(
    p: Pair<E>,
    axis: i32,
    t1: Term,
    t2: Term,
    s1: Seq<int>,
    s2: Seq<int>,
    off: Seq<int>,
)
    requires
        ignores_padding(p.ar),
        is_part(p, t1, t2, s1, s2, off),
        is_axis(axis, off.len()),
        off[axis_of(axis, off.len())] == 0,
        fades(p.ar, first(p, t1), second(p, t2), off, axis_of(axis, off.len())),
    ensures
        ({
            let kind = Kind::Sum { axis, keep: false };
            let k = axis_of(axis, off.len());
            is_part(p, unary(kind, t1), unary(kind, t2), s1.remove(k), s2.remove(k), off.remove(k))
        }),
{
    reveal(is_part);
    let kind = Kind::Sum { axis, keep: false };
    lemma_value1(p.ar, p.e1, kind, t1);
    lemma_value1(p.ar, p.e2, kind, t2);
    window_sum(p.ar, p.e1, p.e2, axis, first(p, t1), second(p, t2), off);
}

/// An element-wise operation on shared arrays, the second of which may be stretched.
pub proof fn shared_zip_number<E>(p: Pair<E>, kind: Kind, num: Term, t: Term, s: Seq<int>)
    requires
        is_zip(kind),
        is_shared(p, num, num, seq![]),
        is_shared(p, t, t, s),
    ensures
        is_shared(p, binary(kind, num, t), binary(kind, num, t), s),
{
    reveal(is_shared);
    lemma_value2(p.ar, p.e1, kind, num, t);
    lemma_value2(p.ar, p.e2, kind, num, t);
    lemma_result2(p.ar, p.e1, kind, first(p, num), first(p, t));
    lemma_result2(p.ar, p.e2, kind, second(p, num), second(p, t));
    lemma_stretched_scalar(s);
}

/// A mean over the last axis.
pub proof fn part_mean_last<E>(
    p: Pair<E>,
    t1: Term,
    t2: Term,
    s1: Seq<int>,
    s2: Seq<int>,
    off: Seq<int>,
    d: int,
)
    requires
        is_part(p, t1, t2, s1.push(d), s2.push(d), off),
        off.len() >= 1,
        off.last() == 0,
    ensures
        ({
            let kind = Kind::Mean { axis: -1i32, keep: true };
            is_part(p, unary(kind, t1), unary(kind, t2), s1.push(1), s2.push(1), off)
        }),
{
    reveal(is_part);
    let kind = Kind::Mean { axis: -1i32, keep: true };
    lemma_value1(p.ar, p.e1, kind, t1);
    lemma_value1(p.ar, p.e2, kind, t2);
    window_mean_last(p.ar, p.e1, p.e2, first(p, t1), second(p, t2), off);
    assert(s1.push(d).update(s1.len() as int, 1) =~= s1.push(1));
    assert(s2.push(d).update(s2.len() as int, 1) =~= s2.push(1));
}

/// A part of the last axis.
pub proof fn part_slice_last<E>(
    p: Pair<E>,
    from: i32,
    to: i32,
    t1: Term,
    t2: Term,
    s1: Seq<int>,
    s2: Seq<int>,
    off: Seq<int>,
    d: int,
)
    requires
        is_part(p, t1, t2, s1.push(d), s2.push(d), off),
        off.len() >= 1,
        off.last() == 0,
        0 <= from <= to <= d,
    ensures
        ({
            let kind = Kind::SliceLast { from, to };
            is_part(
                p,
                unary(kind, t1),
                unary(kind, t2),
                s1.push(to - from),
                s2.push(to - from),
                off,
            )
        }),
{
    reveal(is_part);
    let kind = Kind::SliceLast { from, to };
    lemma_value1(p.ar, p.e1, kind, t1);
    lemma_value1(p.ar, p.e2, kind, t2);
    window_slice_last(p.ar, p.e1, p.e2, from, to, first(p, t1), second(p, t2), off);
    assert(s1.push(d).drop_last() =~= s1 && s2.push(d).drop_last() =~= s2);
}

/// Two arrays joined along an axis.
pub proof fn part_concat<E>(
    p: Pair<E>,
    axis: i32,
    t1: Term,
    t2: Term,
    s1: Seq<int>,
    s2: Seq<int>,
    u1: Term,
    u2: Term,
    z1: Seq<int>,
    z2: Seq<int>,
    off: Seq<int>,
)
    requires
        is_part(p, t1, t2, s1, s2, off),
        is_part(p, u1, u2, z1, z2, off),
        is_axis(axis, off.len()),
        ({
            let k = axis_of(axis, off.len());
            &&& off[k] == 0
            &&& s1[k] == s2[k]
            &&& forall|a: int|
                0 <= a < off.len() && a != k ==> #[trigger] s1[a] == z1[a] && s2[a] == z2[a]
        }),
    ensures
        ({
            let kind = Kind::Concat { axis };
            let k = axis_of(axis, off.len());
            is_part(
                p,
                binary(kind, t1, u1),
                binary(kind, t2, u2),
                s1.update(k, s1[k] + z1[k]),
                s2.update(k, s2[k] + z2[k]),
                off,
            )
        }),
{
    reveal(is_part);
    let kind = Kind::Concat { axis };
    lemma_value2(p.ar, p.e1, kind, t1, u1);
    lemma_value2(p.ar, p.e2, kind, t2, u2);
    window_concat(
        p.ar,
        p.e1,
        p.e2,
        axis,
        first(p, t1),
        second(p, t2),
        first(p, u1),
        second(p, u2),
        off,
    );
}

/// Elements repeated along an axis.
pub proof fn part_repeat<E>(
    p: Pair<E>,
    count: i32,
    axis: i32,
    t1: Term,
    t2: Term,
    s1: Seq<int>,
    s2: Seq<int>,
    off: Seq<int>,
)
    requires
        is_part(p, t1, t2, s1, s2, off),
        count > 0,
        is_axis(axis, off.len()),
        off[axis_of(axis, off.len())] == 0,
        s1[axis_of(axis, off.len())] == s2[axis_of(axis, off.len())],
    ensures
        ({
            let kind = Kind::Repeat { count, axis };
            let k = axis_of(axis, off.len());
            is_part(
                p,
                unary(kind, t1),
                unary(kind, t2),
                s1.update(k, s1[k] * count),
                s2.update(k, s2[k] * count),
                off,
            )
        }),
{
    reveal(is_part);
    let kind = Kind::Repeat { count, axis };
    lemma_value1(p.ar, p.e1, kind, t1);
    lemma_value1(p.ar, p.e2, kind, t2);
    window_repeat(p.ar, p.e1, p.e2, count, axis, first(p, t1), second(p, t2), off);
}

/// A shared array in other extents.
pub proof fn shared_reshape<E>(p: Pair<E>, d: Dims, t: Term, s: Seq<int>, to: Seq<int>)
    requires
        is_shared(p, t, t, s),
        reshaped(s, extents(d)) == Some(to),
        are_extents(to),
    ensures
        is_shared(p, unary(Kind::Reshape(d), t), unary(Kind::Reshape(d), t), to),
{
    reveal(is_shared);
    lemma_value1(p.ar, p.e1, Kind::Reshape(d), t);
    lemma_value1(p.ar, p.e2, Kind::Reshape(d), t);
    lemma_result1(p.ar, p.e1, Kind::Reshape(d), first(p, t));
    lemma_result1(p.ar, p.e2, Kind::Reshape(d), second(p, t));
}

/// An element-wise operation on two shared arrays.
pub proof fn shared_zip<E>(
    p: Pair<E>,
    kind: Kind,
    t: Term,
    u: Term,
    a: Seq<int>,
    b: Seq<int>,
    s: Seq<int>,
)
    requires
        is_zip(kind),
        is_shared(p, t, t, a),
        is_shared(p, u, u, b),
        stretched(a, b) == Some(s),
        are_extents(s),
    ensures
        is_shared(p, binary(kind, t, u), binary(kind, t, u), s),
{
    reveal(is_shared);
    lemma_value2(p.ar, p.e1, kind, t, u);
    lemma_value2(p.ar, p.e2, kind, t, u);
    lemma_result2(p.ar, p.e1, kind, first(p, t), first(p, u));
    lemma_result2(p.ar, p.e2, kind, second(p, t), second(p, u));
}

/// A choice between two shared numbers by a shared array.
pub proof fn shared_which<E>(p: Pair<E>, c: Term, yes: Term, no: Term, s: Seq<int>)
    requires
        is_shared(p, c, c, s),
        is_shared(p, yes, yes, seq![]),
        is_shared(p, no, no, seq![]),
    ensures
        is_shared(
            p,
            ternary(Kind::Which, c, yes, no),
            ternary(Kind::Which, c, yes, no),
            s,
        ),
{
    reveal(is_shared);
    lemma_value3(p.ar, p.e1, Kind::Which, c, yes, no);
    lemma_value3(p.ar, p.e2, Kind::Which, c, yes, no);
    lemma_result3(p.ar, p.e1, Kind::Which, first(p, c), first(p, yes), first(p, no));
    lemma_result3(p.ar, p.e2, Kind::Which, second(p, c), second(p, yes), second(p, no));
    lemma_stretched_scalar(seq![]);
    lemma_stretched_scalar(s);
}

/// What lies above a diagonal of a shared matrix.
pub proof fn shared_triu<E>(p: Pair<E>, k: i32, t: Term, s: Seq<int>)
    requires
        is_shared(p, t, t, s),
        s.len() == 2,
    ensures
        is_shared(p, unary(Kind::Triu(k), t), unary(Kind::Triu(k), t), s),
{
    reveal(is_shared);
    lemma_value1(p.ar, p.e1, Kind::Triu(k), t);
    lemma_value1(p.ar, p.e2, Kind::Triu(k), t);
    lemma_result1(p.ar, p.e1, Kind::Triu(k), first(p, t));
    lemma_result1(p.ar, p.e2, Kind::Triu(k), second(p, t));
}

/// An array stretched.
pub proof fn part_broadcast<E>(
    p: Pair<E>,
    d1: Dims,
    d2: Dims,
    t1: Term,
    t2: Term,
    s1: Seq<int>,
    s2: Seq<int>,
    off: Seq<int>,
    new: Seq<int>,
)
    requires
        is_part(p, t1, t2, s1, s2, off),
        stretches(s1, s2, off, extents(d1), extents(d2), new),
        lies_in(extents(d2), extents(d1), new),
    ensures
        is_part(
            p,
            unary(Kind::Broadcast(d1), t1),
            unary(Kind::Broadcast(d2), t2),
            extents(d1),
            extents(d2),
            new,
        ),
        ({
            let r = first(p, unary(Kind::Broadcast(d1), t1));
            forall|i: Seq<int>| #[trigger] (r.at)(i) == (first(p, t1).at)(project(i, s1))
        }),
{
    reveal(is_part);
    let (k1, k2) = (Kind::Broadcast(d1), Kind::Broadcast(d2));
    let (z1, z2) = (extents(d1), extents(d2));
    lemma_value1(p.ar, p.e1, k1, t1);
    lemma_value1(p.ar, p.e2, k2, t2);
    lemma_result1(p.ar, p.e1, k1, first(p, t1));
    lemma_result1(p.ar, p.e2, k2, second(p, t2));
    assert forall|a: int| 0 <= a < s1.len() implies #[trigger] s1[a] == 1 || s1[a] == z1[a + (
    z1.len() - s1.len())] by {}
    assert forall|a: int| 0 <= a < s2.len() implies #[trigger] s2[a] == 1 || s2[a] == z2[a + (
    z2.len() - s2.len())] by {
        assert(s1[a] == 1 || s1[a] == z1[a + (z1.len() - s1.len())]);
    }
    lemma_stretched_into(z1, s1);
    lemma_stretched_into(z2, s2);
    assert forall|i: Seq<int>| #[trigger] in_range(i, z2) implies (first(p, t1).at)(
        project(shifted(i, new), s1),
    ) == (second(p, t2).at)(project(i, s2)) by {
        lemma_project(s1, s2, off, z1, z2, new, i);
    }
}

/// Elements of two joined arrays.
pub proof fn lemma_concat_at<E>(
    p: Pair<E>,
    axis: i32,
    t: Term,
    u: Term,
    a: Seq<int>,
    b: Seq<int>,
)
    requires
        first(p, t).shape == a,
        first(p, u).shape == b,
        a.len() == b.len(),
        is_axis(axis, a.len()),
        ({
            let k = axis_of(axis, a.len());
            forall|j: int| 0 <= j < a.len() && j != k ==> #[trigger] a[j] == b[j]
        }),
    ensures
        ({
            let r = first(p, binary(Kind::Concat { axis }, t, u));
            let k = axis_of(axis, a.len());
            &&& r.shape == a.update(k, a[k] + b[k])
            &&& forall|i: Seq<int>| #[trigger]
                (r.at)(i) == if i[k] < a[k] {
                    (first(p, t).at)(i)
                } else {
                    (first(p, u).at)(i.update(k, i[k] - a[k]))
                }
        }),
{
    let k = axis_of(axis, a.len());
    lemma_value2(p.ar, p.e1, Kind::Concat { axis }, t, u);
    lemma_result_concat(
        p.ar,
        p.e1,
        axis,
        first(p, t),
        first(p, u),
        a.update(k, a[k] + b[k]),
    );
}

} // verus!
