//! What a tensor program computes, in any arithmetic.
//!
//! The arithmetic of a machine rounds, and how it does so is not said here: an
//! [`Arithmetic`] is any choice of what the single operations do to elements. The
//! meaning of a program is then fixed by which elements reach which operation.

use crate::graph::{binary, dec, leaf, quaternary, ternary, unary, Kind, Num, Term, Turn};
use crate::shapes::{axis_of, extents, rule};
use crate::types::{elem_of, elem_rule, Elem};
use vstd::prelude::*;

verus! {

/// An array: its extents, the type of its elements, and the element at each index.
pub struct Val<E> {
    pub shape: Seq<int>,
    pub elem: Elem,
    pub at: spec_fn(Seq<int>) -> E,
}

/// What attention reads of one key.
pub struct Key<E> {
    pub key: Seq<E>,
    pub value: Seq<E>,
    pub mask: E,
}

/// What single operations do to elements.
#[verifier::reject_recursive_types(E)]
pub struct Arithmetic<E> {
    /// The numbers of a program.
    pub num: spec_fn(Num) -> E,
    /// Integers.
    pub whole: spec_fn(int) -> E,
    /// The position that an element names.
    pub index: spec_fn(E) -> int,
    /// Element-wise operations on one operand.
    pub un: spec_fn(Kind, E) -> E,
    /// Element-wise operations on two operands.
    pub bin: spec_fn(Kind, E, E) -> E,
    /// An element in another type.
    pub cast: spec_fn(Elem, E) -> E,
    /// Whether an element is a condition that holds.
    pub holds: spec_fn(E) -> bool,
    /// The product of a row and a column.
    pub dot: spec_fn(Seq<E>, Seq<E>) -> E,
    pub mean: spec_fn(Seq<E>) -> E,
    /// One element of a list's softmax.
    pub soft: spec_fn(Seq<E>, int) -> E,
    /// One element of a normalised row, scaled by weights.
    pub rms: spec_fn(Num, Seq<E>, Seq<E>, int) -> E,
    /// One element of a row turned by its position, with frequencies.
    pub rope: spec_fn(Turn, int, Seq<E>, Seq<E>, int) -> E,
    /// Whether a key with this mask gets no weight.
    pub hides: spec_fn(E) -> bool,
    /// One element of what a query gathers from the keys that are not hidden.
    pub attend: spec_fn(Num, Seq<E>, Seq<Key<E>>, int) -> E,
}

/// Zero.
pub open spec fn zero<E>(ar: Arithmetic<E>) -> E {
    (ar.whole)(0)
}

/// Whether an arithmetic ignores padding: zero adds nothing and leaves nothing of a
/// product, it is zero in every type, it is equal to itself and not greater, and the
/// large negative numbers of both models hide a key. The reals of a machine do so
/// while they are finite and a query keeps a key.
pub open spec fn ignores_padding<E>(ar: Arithmetic<E>) -> bool {
    &&& forall|x: E| #[trigger] (ar.bin)(Kind::Add, x, zero(ar)) == x
    &&& forall|x: E| #[trigger] (ar.bin)(Kind::Multiply, x, zero(ar)) == zero(ar)
    &&& forall|e: Elem| #[trigger] (ar.cast)(e, zero(ar)) == zero(ar)
    &&& (ar.num)(dec(0, 0)) == zero(ar)
    &&& (ar.holds)((ar.bin)(Kind::Equal, zero(ar), zero(ar)))
    &&& (ar.cast)(Elem::F32, (ar.bin)(Kind::Greater, zero(ar), zero(ar))) == zero(ar)
    &&& (ar.hides)((ar.cast)(Elem::F16, (ar.cast)(Elem::F16, (ar.num)(dec(-6, 4)))))
    &&& (ar.hides)((ar.cast)(Elem::Bf16, (ar.num)(dec(-1, 30))))
}

/// Whether what a query gathers does not depend on the order of the keys.
pub open spec fn forgets_order<E>(ar: Arithmetic<E>) -> bool {
    forall|n: Num, q: Seq<E>, a: Seq<Key<E>>, b: Seq<Key<E>>, j: int|
        a.to_multiset() == b.to_multiset() ==> #[trigger] (ar.attend)(n, q, a, j)
            == #[trigger] (ar.attend)(n, q, b, j)
}

/// Whether nothing divided is nothing: zero by the greater of zero and one.
pub open spec fn divides_nothing<E>(ar: Arithmetic<E>) -> bool {
    let least = (ar.bin)(Kind::Maximum, zero(ar), (ar.num)(dec(1, 0)));
    (ar.bin)(Kind::Divide, zero(ar), least) == zero(ar)
}

/// Whether integers name the positions that they count.
pub open spec fn counts<E>(ar: Arithmetic<E>) -> bool {
    forall|k: int| 0 <= k ==> (ar.index)(#[trigger] (ar.whole)(k)) == k
}

/// Whole numbers, with negative ones for what is hidden.
pub open spec fn whole_numbers() -> Arithmetic<int> {
    Arithmetic {
        num: |n: Num|
            match n {
                Num::Dec { digits, .. } => digits as int,
                _ => 1,
            },
        whole: |k: int| k,
        index: |x: int| x,
        un: |kind: Kind, x: int| x,
        bin: |kind: Kind, x: int, y: int|
            match kind {
                Kind::Multiply => x * y,
                Kind::Divide => if y == 0 {
                    0
                } else {
                    x / y
                },
                Kind::Equal => if x == y {
                    1
                } else {
                    0
                },
                Kind::Greater => if x > y {
                    1
                } else {
                    0
                },
                _ => x + y,
            },
        cast: |e: Elem, x: int| x,
        holds: |x: int| x != 0,
        dot: |a: Seq<int>, b: Seq<int>| a.len() as int,
        mean: |a: Seq<int>| a.len() as int,
        soft: |a: Seq<int>, i: int| a[i],
        rms: |n: Num, a: Seq<int>, b: Seq<int>, i: int| a[i],
        rope: |turn: Turn, q: int, a: Seq<int>, b: Seq<int>, i: int| a[i],
        hides: |x: int| x < 0,
        attend: |n: Num, q: Seq<int>, keys: Seq<Key<int>>, i: int| keys.len() as int,
    }
}

/// Padding can be ignored: whole numbers do so, they forget the order of keys, they
/// divide nothing, and they count.
pub proof fn law_whole_numbers_ignore_padding()
    ensures
        ignores_padding(whole_numbers()),
        forgets_order(whole_numbers()),
        divides_nothing(whole_numbers()),
        counts(whole_numbers()),
{
    let ar = whole_numbers();
    assert forall|n: Num, q: Seq<int>, a: Seq<Key<int>>, b: Seq<Key<int>>, j: int|
        a.to_multiset() == b.to_multiset() implies #[trigger] (ar.attend)(n, q, a, j)
        == #[trigger] (ar.attend)(n, q, b, j) by {
        a.to_multiset_ensures();
        b.to_multiset_ensures();
    }
    assert forall|x: int| #[trigger] (whole_numbers().bin)(Kind::Multiply, x, 0) == 0 by {
        assert(x * 0 == 0);
    }
}

/// The index of an operand that an element-wise operation reads: extents of one are
/// stretched.
pub open spec fn project(i: Seq<int>, shape: Seq<int>) -> Seq<int> {
    Seq::new(
        shape.len(),
        |a: int|
            if shape[a] == 1 {
                0
            } else {
                i[a + (i.len() - shape.len())]
            },
    )
}

/// The place of an index among all elements, row after row.
pub open spec fn flat(i: Seq<int>, shape: Seq<int>) -> int
    decreases shape.len(),
{
    if shape.len() == 0 {
        0
    } else {
        flat(i.drop_last(), shape.drop_last()) * shape.last() + i.last()
    }
}

/// Whether `i` is an index of an array with these extents.
pub open spec fn in_range(i: Seq<int>, shape: Seq<int>) -> bool {
    i.len() == shape.len() && forall|a: int| 0 <= a < shape.len() ==> 0 <= #[trigger] i[a]
        < shape[a]
}

/// The index with the same place in an array of other extents.
pub open spec fn placed(i: Seq<int>, from: Seq<int>, to: Seq<int>) -> Seq<int> {
    choose|j: Seq<int>| in_range(j, to) && flat(j, to) == flat(i, from)
}

/// The elements along axis `k` through an index.
pub open spec fn line<E>(x: Val<E>, k: int, i: Seq<int>) -> Seq<E> {
    Seq::new(x.shape[k] as nat, |c: int| (x.at)(i.update(k, c)))
}

/// The sum of elements, from the first.
pub open spec fn total<E>(ar: Arithmetic<E>, s: Seq<E>) -> E
    decreases s.len(),
{
    if s.len() == 0 {
        zero(ar)
    } else {
        (ar.bin)(Kind::Add, total(ar, s.drop_last()), s.last())
    }
}

/// The element at `i` of arrays joined along axis `k`.
pub open spec fn joined_at<E>(parts: Seq<Val<E>>, k: int, i: Seq<int>) -> E
    decreases parts.len(),
{
    if parts.len() <= 1 {
        (parts[0].at)(i)
    } else {
        let before = extent_before(parts.drop_last(), k);
        if i[k] < before {
            joined_at(parts.drop_last(), k, i)
        } else {
            (parts.last().at)(i.update(k, i[k] - before))
        }
    }
}

/// The joint extent of arrays along axis `k`.
pub open spec fn extent_before<E>(parts: Seq<Val<E>>, k: int) -> int
    decreases parts.len(),
{
    if parts.len() == 0 {
        0
    } else {
        extent_before(parts.drop_last(), k) + parts.last().shape[k]
    }
}

/// The key at `u` that the query at `i` sees, with heads in groups that share keys.
pub open spec fn key_at<E>(
    k: Val<E>,
    v: Val<E>,
    m: Val<E>,
    group: int,
    i: Seq<int>,
    u: int,
) -> Key<E> {
    let at = seq![i[0], i[1] / group, u, 0];
    Key {
        key: line(k, 3, at),
        value: line(v, 3, at),
        mask: (m.at)(project(seq![i[0], i[1], i[2], u], m.shape)),
    }
}

/// The first `n` keys that the query at `i` sees, without those that are hidden.
pub open spec fn kept_keys<E>(
    ar: Arithmetic<E>,
    k: Val<E>,
    v: Val<E>,
    m: Val<E>,
    group: int,
    i: Seq<int>,
    n: int,
) -> Seq<Key<E>>
    decreases n,
{
    if n <= 0 {
        seq![]
    } else {
        let rest = kept_keys(ar, k, v, m, group, i, n - 1);
        let last = key_at(k, v, m, group, i, n - 1);
        if (ar.hides)(last.mask) {
            rest
        } else {
            rest.push(last)
        }
    }
}

/// The element at `i` of an operation without operands.
pub open spec fn element0<E>(
    ar: Arithmetic<E>,
    env: spec_fn(Kind) -> Val<E>,
    kind: Kind,
    i: Seq<int>,
) -> E {
    match kind {
        Kind::Const(num) => (ar.num)(num),
        Kind::Int(n) => (ar.whole)(n as int),
        Kind::IntPair(a, b) => (ar.whole)(
            if i[0] == 0 {
                a as int
            } else {
                b as int
            },
        ),
        Kind::Arange { step, .. } => (ar.whole)(step * i[0]),
        Kind::Ones(_) => (ar.whole)(1),
        _ => (env(kind).at)(i),
    }
}

/// The element at `i` of an operation on one operand; `shape` is its result's.
pub open spec fn element1<E>(
    ar: Arithmetic<E>,
    kind: Kind,
    x: Val<E>,
    shape: Seq<int>,
    i: Seq<int>,
) -> E {
    match kind {
        Kind::ZerosLike(_) => zero(ar),
        Kind::Cast(ty) => (ar.cast)(elem_of(ty), (x.at)(i)),
        Kind::Reshape(_) => (x.at)(placed(i, shape, x.shape)),
        Kind::Permute(d) => (x.at)(
            Seq::new(
                x.shape.len(),
                |k: int|
                    i[choose|a: int| 0 <= a < x.shape.len() && #[trigger] extents(d)[a] == k],
            ),
        ),
        Kind::Transpose => (x.at)(i.reverse()),
        Kind::Broadcast(_) => (x.at)(project(i, x.shape)),
        Kind::Mean { axis, keep } => {
            let k = axis_of(axis, x.shape.len());
            (ar.mean)(
                line(
                    x,
                    k,
                    if keep {
                        i
                    } else {
                        i.insert(k, 0)
                    },
                ),
            )
        },
        Kind::Sum { axis, keep } => {
            let k = axis_of(axis, x.shape.len());
            total(
                ar,
                line(
                    x,
                    k,
                    if keep {
                        i
                    } else {
                        i.insert(k, 0)
                    },
                ),
            )
        },
        Kind::Softmax { axis } => {
            let k = axis_of(axis, x.shape.len());
            (ar.soft)(line(x, k, i), i[k])
        },
        Kind::SliceLast { from, .. } => (x.at)(i.update(i.len() - 1, i.last() + from)),
        Kind::Repeat { count, axis } => {
            let k = axis_of(axis, x.shape.len());
            (x.at)(i.update(k, i[k] / count as int))
        },
        Kind::Triu(k) => if i[i.len() - 1] - i[i.len() - 2] >= k {
            (x.at)(i)
        } else {
            zero(ar)
        },
        _ => (ar.un)(kind, (x.at)(i)),
    }
}

/// The element at `i` of an operation on two operands.
pub open spec fn element2<E>(
    ar: Arithmetic<E>,
    kind: Kind,
    x: Val<E>,
    y: Val<E>,
    i: Seq<int>,
) -> E {
    match kind {
        Kind::CastLike => (ar.cast)(y.elem, (x.at)(i)),
        Kind::Matmul => (ar.dot)(
            line(x, i.len() - 1, i),
            line(y, 0, seq![0, i.last()]),
        ),
        Kind::Take { axis } => {
            let k = axis_of(axis, x.shape.len());
            let r = y.shape.len() as int;
            (x.at)(
                i.take(k).push((ar.index)((y.at)(i.subrange(k, k + r)))) + i.skip(k + r),
            )
        },
        Kind::FastRmsNorm(num) => (ar.rms)(
            num,
            line(x, i.len() - 1, i),
            line(y, 0, seq![0]),
            i.last(),
        ),
        Kind::FastRope(turn) => (ar.rope)(
            turn,
            i[1],
            line(x, 2, i),
            line(y, 0, seq![0]),
            i[2],
        ),
        _ => (ar.bin)(kind, (x.at)(project(i, x.shape)), (y.at)(project(i, y.shape))),
    }
}

/// The element at `i` of an operation on three operands: a choice.
pub open spec fn element3<E>(
    ar: Arithmetic<E>,
    c: Val<E>,
    x: Val<E>,
    y: Val<E>,
    i: Seq<int>,
) -> E {
    if (ar.holds)((c.at)(project(i, c.shape))) {
        (x.at)(project(i, x.shape))
    } else {
        (y.at)(project(i, y.shape))
    }
}

/// The element at `i` of an operation on four operands: attention.
pub open spec fn element4<E>(
    ar: Arithmetic<E>,
    kind: Kind,
    q: Val<E>,
    k: Val<E>,
    v: Val<E>,
    m: Val<E>,
    i: Seq<int>,
) -> E {
    (ar.attend)(
        kind->Attention_0,
        line(q, 3, i),
        kept_keys(ar, k, v, m, q.shape[1] / k.shape[1], i, k.shape[2]),
        i[3],
    )
}

/// The element at `i` of an operation; `shape` is its result's.
pub open spec fn element<E>(
    ar: Arithmetic<E>,
    env: spec_fn(Kind) -> Val<E>,
    kind: Kind,
    a: Seq<Val<E>>,
    shape: Seq<int>,
    i: Seq<int>,
) -> E {
    if kind is Concat {
        joined_at(a, axis_of(kind->Concat_axis, a[0].shape.len()), i)
    } else if a.len() == 0 {
        element0(ar, env, kind, i)
    } else if a.len() == 1 {
        element1(ar, kind, a[0], shape, i)
    } else if a.len() == 2 {
        element2(ar, kind, a[0], a[1], i)
    } else if a.len() == 3 {
        element3(ar, a[0], a[1], a[2], i)
    } else {
        element4(ar, kind, a[0], a[1], a[2], a[3], i)
    }
}

/// The extents of arrays.
pub open spec fn shapes_in<E>(a: Seq<Val<E>>) -> Seq<Seq<int>> {
    Seq::new(a.len(), |k: int| a[k].shape)
}

/// The element types of arrays.
pub open spec fn elems_in<E>(a: Seq<Val<E>>) -> Seq<Elem> {
    Seq::new(a.len(), |k: int| a[k].elem)
}

/// What an operation makes of its operands.
pub open spec fn result<E>(
    ar: Arithmetic<E>,
    env: spec_fn(Kind) -> Val<E>,
    kind: Kind,
    a: Seq<Val<E>>,
) -> Val<E> {
    let shape = rule(kind, shapes_in(a), |k: Kind| Some(env(k).shape))->0;
    Val {
        shape,
        elem: elem_rule(kind, elems_in(a), |k: Kind| env(k).elem),
        at: |i: Seq<int>| element(ar, env, kind, a, shape, i),
    }
}

/// What a term computes, from the arrays that a program starts from.
#[verifier::opaque]
pub open spec fn value<E>(ar: Arithmetic<E>, env: spec_fn(Kind) -> Val<E>, t: Term) -> Val<E>
    decreases t,
{
    result(ar, env, t.kind, values(ar, env, t.args))
}

/// What a list of terms computes.
pub open spec fn values<E>(
    ar: Arithmetic<E>,
    env: spec_fn(Kind) -> Val<E>,
    args: Seq<Term>,
) -> Seq<Val<E>>
    decreases args,
{
    if args.len() == 0 {
        seq![]
    } else {
        values(ar, env, args.drop_last()).push(value(ar, env, args.last()))
    }
}

/// What a list of terms computes, one by one.
pub proof fn lemma_values<E>(ar: Arithmetic<E>, env: spec_fn(Kind) -> Val<E>, args: Seq<Term>)
    ensures
        values(ar, env, args).len() == args.len(),
        forall|k: int|
            0 <= k < args.len() ==> #[trigger] values(ar, env, args)[k] == value(ar, env, args[k]),
    decreases args.len(),
{
    reveal(value);
    if args.len() > 0 {
        lemma_values(ar, env, args.drop_last());
        assert forall|k: int| 0 <= k < args.len() implies #[trigger] values(ar, env, args)[k]
            == value(ar, env, args[k]) by {
            if k < args.len() - 1 {
                assert(args.drop_last()[k] == args[k]);
                assert(values(ar, env, args.drop_last())[k] == value(ar, env, args[k]));
            }
        }
    }
}

/// What a term without operands computes.
pub proof fn lemma_value0<E>(ar: Arithmetic<E>, env: spec_fn(Kind) -> Val<E>, kind: Kind)
    ensures
        value(ar, env, leaf(kind)) == result(ar, env, kind, seq![]),
{
    reveal(value);
    lemma_values(ar, env, seq![]);
    assert(values(ar, env, seq![]) =~= seq![]);
}

/// What a term with one operand computes.
pub proof fn lemma_value1<E>(
    ar: Arithmetic<E>,
    env: spec_fn(Kind) -> Val<E>,
    kind: Kind,
    a: Term,
)
    ensures
        value(ar, env, unary(kind, a)) == result(ar, env, kind, seq![value(ar, env, a)]),
{
    reveal(value);
    lemma_values(ar, env, seq![a]);
    assert(values(ar, env, seq![a]) =~= seq![value(ar, env, a)]);
}

/// What a term with two operands computes.
pub proof fn lemma_value2<E>(
    ar: Arithmetic<E>,
    env: spec_fn(Kind) -> Val<E>,
    kind: Kind,
    a: Term,
    b: Term,
)
    ensures
        value(ar, env, binary(kind, a, b)) == result(
            ar,
            env,
            kind,
            seq![value(ar, env, a), value(ar, env, b)],
        ),
{
    reveal(value);
    lemma_values(ar, env, seq![a, b]);
    assert(values(ar, env, seq![a, b]) =~= seq![value(ar, env, a), value(ar, env, b)]);
}

/// What a term with three operands computes.
pub proof fn lemma_value3<E>(
    ar: Arithmetic<E>,
    env: spec_fn(Kind) -> Val<E>,
    kind: Kind,
    a: Term,
    b: Term,
    c: Term,
)
    ensures
        value(ar, env, ternary(kind, a, b, c)) == result(
            ar,
            env,
            kind,
            seq![value(ar, env, a), value(ar, env, b), value(ar, env, c)],
        ),
{
    reveal(value);
    lemma_values(ar, env, seq![a, b, c]);
    assert(values(ar, env, seq![a, b, c]) =~= seq![
        value(ar, env, a),
        value(ar, env, b),
        value(ar, env, c),
    ]);
}

/// What a term with four operands computes.
pub proof fn lemma_value4<E>(
    ar: Arithmetic<E>,
    env: spec_fn(Kind) -> Val<E>,
    kind: Kind,
    a: Term,
    b: Term,
    c: Term,
    d: Term,
)
    ensures
        value(ar, env, quaternary(kind, a, b, c, d)) == result(
            ar,
            env,
            kind,
            seq![value(ar, env, a), value(ar, env, b), value(ar, env, c), value(ar, env, d)],
        ),
{
    reveal(value);
    lemma_values(ar, env, seq![a, b, c, d]);
    assert(values(ar, env, seq![a, b, c, d]) =~= seq![
        value(ar, env, a),
        value(ar, env, b),
        value(ar, env, c),
        value(ar, env, d),
    ]);
}

} // verus!
