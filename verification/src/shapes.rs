//! The extents of the arrays that a tensor program computes.
//!
//! [`shape_of`] gives the extents that a term has by the rules of its operations,
//! or none where an operation does not accept its operands.

use crate::graph::{binary, leaf, quaternary, ternary, unary, Dims, Kind, Term};
use vstd::prelude::*;

verus! {

/// Extents as a sequence.
pub open spec fn extents(d: Dims) -> Seq<int> {
    match d {
        Dims::D1(a) => seq![a as int],
        Dims::D2(a, b) => seq![a as int, b as int],
        Dims::D3(a, b, c) => seq![a as int, b as int, c as int],
        Dims::D4(a, b, c, e) => seq![a as int, b as int, c as int, e as int],
    }
}

/// The number of elements of an array with these extents.
pub open spec fn product(s: Seq<int>) -> int
    decreases s.len(),
{
    if s.len() == 0 {
        1
    } else {
        product(s.drop_last()) * s.last()
    }
}

/// Whether all extents are those of an array.
pub open spec fn are_extents(s: Seq<int>) -> bool {
    forall|i: int| 0 <= i < s.len() ==> 0 <= #[trigger] s[i]
}

/// An axis counted from the first; a negative one counts from behind the last.
pub open spec fn axis_of(axis: i32, rank: nat) -> int {
    if axis < 0 {
        rank + axis
    } else {
        axis as int
    }
}

/// Whether `axis` is one of `rank` axes.
pub open spec fn is_axis(axis: i32, rank: nat) -> bool {
    0 <= axis_of(axis, rank) < rank
}

/// Extent `i` of `s`, seen as an array of a greater rank.
pub open spec fn extent_at(s: Seq<int>, rank: nat, i: int) -> int {
    if i < rank - s.len() {
        1
    } else {
        s[i - (rank - s.len())]
    }
}

/// The greater of two ranks.
pub open spec fn joint_rank(a: Seq<int>, b: Seq<int>) -> nat {
    if a.len() < b.len() {
        b.len()
    } else {
        a.len()
    }
}

/// The extents of an element-wise operation: extents of one are stretched.
#[verifier::opaque]
pub open spec fn stretched(a: Seq<int>, b: Seq<int>) -> Option<Seq<int>> {
    let rank = joint_rank(a, b);
    if forall|i: int|
        0 <= i < rank ==> {
            let x = #[trigger] extent_at(a, rank, i);
            let y = extent_at(b, rank, i);
            x == y || x == 1 || y == 1
        } {
        Some(
            Seq::new(
                rank,
                |i: int|
                    if extent_at(a, rank, i) == 1 {
                        extent_at(b, rank, i)
                    } else {
                        extent_at(a, rank, i)
                    },
            ),
        )
    } else {
        None
    }
}

/// Extents with the open one left out of the count.
pub open spec fn known_extents(d: Seq<int>) -> Seq<int> {
    Seq::new(
        d.len(),
        |i: int|
            if d[i] == -1 {
                1
            } else {
                d[i]
            },
    )
}

/// The extents of a reshape to `d`; an open extent takes what the others leave.
#[verifier::opaque]
pub open spec fn reshaped(a: Seq<int>, d: Seq<int>) -> Option<Seq<int>> {
    let known = known_extents(d);
    let count = product(known);
    if !are_extents(known) {
        None
    } else if known == d {
        if product(a) == count {
            Some(d)
        } else {
            None
        }
    } else if count > 0 && product(a) % count == 0 && (forall|i: int, j: int|
        0 <= i < d.len() && 0 <= j < d.len() && d[i] == -1 && d[j] == -1 ==> i == j) {
        Some(
            Seq::new(
                d.len(),
                |i: int|
                    if d[i] == -1 {
                        product(a) / count
                    } else {
                        d[i]
                    },
            ),
        )
    } else {
        None
    }
}

/// The extents of a reduction along one axis.
pub open spec fn reduced(a: Seq<int>, axis: i32, keep: bool) -> Option<Seq<int>> {
    let k = axis_of(axis, a.len());
    if !is_axis(axis, a.len()) {
        None
    } else if keep {
        Some(a.update(k, 1))
    } else {
        Some(a.remove(k))
    }
}

/// The extents of arrays joined along one axis; all others must agree.
#[verifier::opaque]
pub open spec fn joined(parts: Seq<Seq<int>>, axis: i32) -> Option<Seq<int>>
    decreases parts.len(),
{
    if parts.len() == 0 {
        None
    } else if parts.len() == 1 {
        if is_axis(axis, parts[0].len()) {
            Some(parts[0])
        } else {
            None
        }
    } else {
        let last = parts.last();
        let k = axis_of(axis, last.len());
        match joined(parts.drop_last(), axis) {
            Some(rest) => if rest.len() == last.len() && is_axis(axis, last.len()) && rest.update(
                k,
                0,
            ) == last.update(k, 0) {
                Some(rest.update(k, rest[k] + last[k]))
            } else {
                None
            },
            None => None,
        }
    }
}

/// Attention of queries over keys and values: every key head serves the same
/// number of query heads, and the mask stretches to one number for each query
/// and key.
pub open spec fn attended(q: Seq<int>, k: Seq<int>, v: Seq<int>, m: Seq<int>) -> Option<Seq<int>> {
    if q.len() == 4 && k.len() == 4 && v.len() == 4 && q[0] == k[0] && q[0] == v[0] && k[1] == v[1]
        && k[1] > 0 && q[1] % k[1] == 0 && k[2] == v[2] && q[3] == k[3] && stretched(
        m,
        seq![q[0], q[1], q[2], k[2]],
    ) == Some(seq![q[0], q[1], q[2], k[2]]) {
        Some(seq![q[0], q[1], q[2], v[3]])
    } else {
        None
    }
}

/// The extents of an operation without operands, given those of the arrays that
/// a program starts from.
pub open spec fn rule0(kind: Kind, inputs: spec_fn(Kind) -> Option<Seq<int>>) -> Option<Seq<int>> {
    match kind {
        Kind::Const(_) => Some(seq![]),
        Kind::Int(_) => Some(seq![]),
        Kind::IntPair(_, _) => Some(seq![2int]),
        Kind::Arange { stop, step } => if stop >= 0 && step > 0 {
            Some(seq![(stop + step - 1) / step as int])
        } else {
            None
        },
        Kind::Ones(d) => if are_extents(extents(d)) {
            Some(extents(d))
        } else {
            None
        },
        _ => inputs(kind),
    }
}

/// The extents of an operation on one operand.
pub open spec fn rule1(kind: Kind, a: Seq<int>) -> Option<Seq<int>> {
    match kind {
        Kind::ZerosLike(d) => if are_extents(extents(d)) {
            Some(extents(d))
        } else {
            None
        },
        Kind::Cast(_)
        | Kind::Reciprocal
        | Kind::Rsqrt
        | Kind::Tanh
        | Kind::Cos
        | Kind::Sin
        | Kind::Silu => Some(a),
        Kind::Reshape(d) => reshaped(a, extents(d)),
        Kind::Permute(d) => if a.len() == extents(d).len() && extents(d).no_duplicates() && (
        forall|i: int| 0 <= i < a.len() ==> 0 <= #[trigger] extents(d)[i] < a.len()) {
            Some(Seq::new(a.len(), |i: int| a[extents(d)[i]]))
        } else {
            None
        },
        Kind::Transpose => Some(a.reverse()),
        Kind::Broadcast(d) => if stretched(a, extents(d)) == Some(extents(d)) {
            Some(extents(d))
        } else {
            None
        },
        Kind::Mean { axis, keep } => reduced(a, axis, keep),
        Kind::Sum { axis, keep } => reduced(a, axis, keep),
        Kind::Softmax { axis } => if is_axis(axis, a.len()) {
            Some(a)
        } else {
            None
        },
        Kind::SliceLast { from, to } => if a.len() > 0 && 0 <= from <= to <= a.last() {
            Some(a.drop_last().push(to - from))
        } else {
            None
        },
        Kind::Repeat { count, axis } => if count >= 0 && is_axis(axis, a.len()) {
            Some(a.update(axis_of(axis, a.len()), a[axis_of(axis, a.len())] * count))
        } else {
            None
        },
        Kind::Triu(_) => if a.len() >= 2 {
            Some(a)
        } else {
            None
        },
        _ => None,
    }
}

/// The extents of an operation on two operands.
pub open spec fn rule2(kind: Kind, a: Seq<int>, b: Seq<int>) -> Option<Seq<int>> {
    match kind {
        Kind::CastLike => Some(a),
        Kind::Matmul => if a.len() >= 2 && b.len() == 2 && a.last() == b[0] {
            Some(a.drop_last().push(b[1]))
        } else {
            None
        },
        Kind::Add
        | Kind::Subtract
        | Kind::Multiply
        | Kind::Divide
        | Kind::Maximum
        | Kind::Power
        | Kind::Greater
        | Kind::Less
        | Kind::Equal
        | Kind::And => stretched(a, b),
        Kind::Take { axis } => if is_axis(axis, a.len()) {
            Some(
                a.take(axis_of(axis, a.len())) + b + a.skip(axis_of(axis, a.len()) + 1),
            )
        } else {
            None
        },
        Kind::FastRmsNorm(_) => if a.len() > 0 && b.len() == 1 && b[0] == a.last() {
            Some(a)
        } else {
            None
        },
        Kind::FastRope(turn) => if a.len() == 3 && 0 < turn.dims <= a.last() && turn.dims as int
            % 2 == 0 && b == seq![turn.dims as int / 2] {
            Some(a)
        } else {
            None
        },
        _ => None,
    }
}

/// The extents of an operation on three operands.
pub open spec fn rule3(kind: Kind, a: Seq<int>, b: Seq<int>, c: Seq<int>) -> Option<Seq<int>> {
    match kind {
        Kind::Which => match stretched(b, c) {
            Some(bc) => stretched(a, bc),
            None => None,
        },
        _ => None,
    }
}

/// The extents of an operation on four operands.
pub open spec fn rule4(
    kind: Kind,
    a: Seq<int>,
    b: Seq<int>,
    c: Seq<int>,
    d: Seq<int>,
) -> Option<Seq<int>> {
    match kind {
        Kind::Attention(_) => attended(a, b, c, d),
        _ => None,
    }
}

/// The extents of an operation on operands of the given extents.
pub open spec fn rule(
    kind: Kind,
    s: Seq<Seq<int>>,
    inputs: spec_fn(Kind) -> Option<Seq<int>>,
) -> Option<Seq<int>> {
    if kind is Concat {
        joined(s, kind->Concat_axis)
    } else if s.len() == 0 {
        rule0(kind, inputs)
    } else if s.len() == 1 {
        rule1(kind, s[0])
    } else if s.len() == 2 {
        rule2(kind, s[0], s[1])
    } else if s.len() == 3 {
        rule3(kind, s[0], s[1], s[2])
    } else if s.len() == 4 {
        rule4(kind, s[0], s[1], s[2], s[3])
    } else {
        None
    }
}

/// The extents of what a term denotes, if all its operations accept their operands.
#[verifier::opaque]
pub open spec fn shape_of(t: Term, inputs: spec_fn(Kind) -> Option<Seq<int>>) -> Option<Seq<int>>
    decreases t,
{
    match shapes_of(t.args, inputs) {
        Some(s) => rule(t.kind, s, inputs),
        None => None,
    }
}

/// The extents of a list of terms, if all have any.
pub open spec fn shapes_of(
    args: Seq<Term>,
    inputs: spec_fn(Kind) -> Option<Seq<int>>,
) -> Option<Seq<Seq<int>>>
    decreases args,
{
    if args.len() == 0 {
        Some(seq![])
    } else {
        match (shapes_of(args.drop_last(), inputs), shape_of(args.last(), inputs)) {
            (Some(rest), Some(s)) => Some(rest.push(s)),
            _ => None,
        }
    }
}

/// The extents of a term without operands.
pub broadcast proof fn lemma_leaf(kind: Kind, inputs: spec_fn(Kind) -> Option<Seq<int>>)
    requires
        !(kind is Concat),
    ensures
        #[trigger] shape_of(leaf(kind), inputs) == rule0(kind, inputs),
{
    reveal(shape_of);
}

/// The extents of a term with one operand.
pub broadcast proof fn lemma_unary(kind: Kind, a: Term, inputs: spec_fn(Kind) -> Option<Seq<int>>)
    requires
        !(kind is Concat),
        shape_of(a, inputs) is Some,
    ensures
        #[trigger] shape_of(unary(kind, a), inputs) == rule1(kind, shape_of(a, inputs)->0),
{
    reveal(shape_of);
    lemma_shapes(
        seq![a],
        inputs,
        seq![shape_of(a, inputs)->0],
    );
}

/// The extents of a term with two operands.
pub broadcast proof fn lemma_binary(
    kind: Kind,
    a: Term,
    b: Term,
    inputs: spec_fn(Kind) -> Option<Seq<int>>,
)
    requires
        !(kind is Concat),
        shape_of(a, inputs) is Some,
        shape_of(b, inputs) is Some,
    ensures
        #[trigger] shape_of(binary(kind, a, b), inputs) == rule2(
            kind,
            shape_of(a, inputs)->0,
            shape_of(b, inputs)->0,
        ),
{
    reveal(shape_of);
    lemma_shapes(
        seq![a, b],
        inputs,
        seq![shape_of(a, inputs)->0, shape_of(b, inputs)->0],
    );
}

/// The extents of a term with three operands.
pub broadcast proof fn lemma_ternary(
    kind: Kind,
    a: Term,
    b: Term,
    c: Term,
    inputs: spec_fn(Kind) -> Option<Seq<int>>,
)
    requires
        !(kind is Concat),
        shape_of(a, inputs) is Some,
        shape_of(b, inputs) is Some,
        shape_of(c, inputs) is Some,
    ensures
        #[trigger] shape_of(ternary(kind, a, b, c), inputs) == rule3(
            kind,
            shape_of(a, inputs)->0,
            shape_of(b, inputs)->0,
            shape_of(c, inputs)->0,
        ),
{
    reveal(shape_of);
    lemma_shapes(
        seq![a, b, c],
        inputs,
        seq![shape_of(a, inputs)->0, shape_of(b, inputs)->0, shape_of(c, inputs)->0],
    );
}

/// The extents of a term with four operands.
pub broadcast proof fn lemma_quaternary(
    kind: Kind,
    a: Term,
    b: Term,
    c: Term,
    d: Term,
    inputs: spec_fn(Kind) -> Option<Seq<int>>,
)
    requires
        !(kind is Concat),
        shape_of(a, inputs) is Some,
        shape_of(b, inputs) is Some,
        shape_of(c, inputs) is Some,
        shape_of(d, inputs) is Some,
    ensures
        #[trigger] shape_of(quaternary(kind, a, b, c, d), inputs) == rule4(
            kind,
            shape_of(a, inputs)->0,
            shape_of(b, inputs)->0,
            shape_of(c, inputs)->0,
            shape_of(d, inputs)->0,
        ),
{
    reveal(shape_of);
    lemma_shapes(
        seq![a, b, c, d],
        inputs,
        seq![shape_of(a, inputs)->0, shape_of(b, inputs)->0, shape_of(c, inputs)->0, shape_of(d, inputs)->0],
    );
}

proof fn lemma_shapes(
    args: Seq<Term>,
    inputs: spec_fn(Kind) -> Option<Seq<int>>,
    parts: Seq<Seq<int>>,
)
    requires
        parts.len() == args.len(),
        forall|k: int|
            0 <= k < args.len() ==> shape_of(#[trigger] args[k], inputs) == Some(parts[k]),
    ensures
        shapes_of(args, inputs) == Some(parts),
    decreases args.len(),
{
    if args.len() == 0 {
        assert(parts =~= seq![]);
    } else {
        reveal(shape_of);
        assert(shape_of(args[args.len() - 1], inputs) == Some(parts.last()));
        assert forall|k: int| 0 <= k < args.drop_last().len() implies shape_of(
            #[trigger] args.drop_last()[k],
            inputs,
        ) == Some(parts.drop_last()[k]) by {
            assert(shape_of(args[k], inputs) == Some(parts[k]));
        }
        lemma_shapes(args.drop_last(), inputs, parts.drop_last());
        assert(parts.drop_last().push(parts.last()) =~= parts);
    }
}

/// The extents of terms joined along an axis.
pub proof fn lemma_concat_all(
    axis: i32,
    args: Seq<Term>,
    inputs: spec_fn(Kind) -> Option<Seq<int>>,
    parts: Seq<Seq<int>>,
)
    requires
        parts.len() == args.len(),
        forall|k: int|
            0 <= k < args.len() ==> shape_of(#[trigger] args[k], inputs) == Some(parts[k]),
    ensures
        shape_of(Term { kind: Kind::Concat { axis }, args }, inputs) == joined(parts, axis),
{
    reveal(shape_of);
    lemma_shapes(args, inputs, parts);
}

/// The extents of two terms joined along an axis.
pub proof fn lemma_concat(
    axis: i32,
    a: Term,
    b: Term,
    inputs: spec_fn(Kind) -> Option<Seq<int>>,
    joint: Seq<int>,
)
    requires
        shape_of(a, inputs) is Some,
        shape_of(b, inputs) is Some,
        is_axis(axis, joint.len()),
        ({
            let sa = shape_of(a, inputs)->0;
            let sb = shape_of(b, inputs)->0;
            let k = axis_of(axis, joint.len());
            &&& sa.len() == joint.len()
            &&& sb.len() == joint.len()
            &&& joint[k] == sa[k] + sb[k]
            &&& forall|i: int|
                0 <= i < joint.len() && i != k ==> #[trigger] joint[i] == sa[i] && joint[i] == sb[i]
        }),
    ensures
        shape_of(binary(Kind::Concat { axis }, a, b), inputs) == Some(joint),
{
    let sa = shape_of(a, inputs)->0;
    let sb = shape_of(b, inputs)->0;
    let k = axis_of(axis, joint.len());
    let parts = seq![sa, sb];
    lemma_concat_all(axis, seq![a, b], inputs, parts);
    assert(parts.drop_last() =~= seq![sa]);
    reveal_with_fuel(joined, 2);
    assert forall|i: int| 0 <= i < joint.len() implies #[trigger] sa.update(k, 0)[i] == sb.update(
        k,
        0,
    )[i] by {
        if i != k {
            assert(joint[i] == sa[i] && joint[i] == sb[i]);
        }
    }
    assert(sa.update(k, 0) =~= sb.update(k, 0));
    assert(sa.update(k, sa[k] + sb[k]) =~= joint);
}

/// Extents of equal arrays are kept by an element-wise operation.
pub proof fn lemma_stretched_same(a: Seq<int>)
    ensures
        stretched(a, a) == Some(a),
{
    reveal(stretched);
    assert(stretched(a, a)->0 =~= a);
}

/// A number leaves the extents of the other operand.
pub proof fn lemma_stretched_scalar(a: Seq<int>)
    ensures
        stretched(a, seq![]) == Some(a),
        stretched(seq![], a) == Some(a),
{
    reveal(stretched);
    assert(stretched(a, seq![])->0 =~= a);
    assert(stretched(seq![], a)->0 =~= a);
}

/// An operand that has no extent but those of `a` and ones leaves the extents of `a`.
pub proof fn lemma_stretched_into(a: Seq<int>, b: Seq<int>)
    requires
        b.len() <= a.len(),
        forall|i: int|
            0 <= i < b.len() ==> #[trigger] b[i] == 1 || b[i] == a[i + (a.len() - b.len())],
    ensures
        stretched(a, b) == Some(a),
        stretched(b, a) == Some(a),
{
    reveal(stretched);
    assert forall|i: int| 0 <= i < a.len() implies #[trigger] extent_at(b, a.len(), i) == 1
        || extent_at(b, a.len(), i) == a[i] by {
        if i >= a.len() - b.len() {
            assert(b[i - (a.len() - b.len())] == extent_at(b, a.len(), i));
        }
    }
    assert forall|i: int| 0 <= i < a.len() implies #[trigger] extent_at(a, a.len(), i) == a[i] && (
    extent_at(b, a.len(), i) == 1 || extent_at(b, a.len(), i) == a[i]) by {
        assert(extent_at(b, a.len(), i) == 1 || extent_at(b, a.len(), i) == a[i]);
    }
    assert(stretched(a, b)->0 =~= a);
    assert(stretched(b, a)->0 =~= a);
}

/// Products of up to four extents.
pub proof fn lemma_product(a: int, b: int, c: int, d: int)
    ensures
        product(seq![]) == 1,
        product(seq![a]) == a,
        product(seq![a, b]) == a * b,
        product(seq![a, b, c]) == a * b * c,
        product(seq![a, b, c, d]) == a * b * c * d,
{
    reveal_with_fuel(product, 5);
    assert(seq![a].drop_last() =~= seq![]);
    assert(seq![a, b].drop_last() =~= seq![a]);
    assert(seq![a, b, c].drop_last() =~= seq![a, b]);
    assert(seq![a, b, c, d].drop_last() =~= seq![a, b, c]);
    assert(1 * a == a);
}

/// A reshape to extents of the same count.
pub proof fn lemma_reshaped(a: Seq<int>, d: Seq<int>)
    requires
        are_extents(d),
        product(a) == product(d),
    ensures
        reshaped(a, d) == Some(d),
{
    reveal(reshaped);
    assert(known_extents(d) =~= d);
}

/// A reshape whose open extent, the one at `p`, is `x`.
pub proof fn lemma_reshaped_rest(a: Seq<int>, d: Seq<int>, p: int, x: int)
    requires
        0 <= p < d.len(),
        d[p] == -1,
        forall|i: int| 0 <= i < d.len() && i != p ==> 0 < #[trigger] d[i],
        product(known_extents(d)) > 0,
        product(a) == product(known_extents(d)) * x,
    ensures
        reshaped(a, d) == Some(d.update(p, x)),
{
    reveal(reshaped);
    let known = known_extents(d);
    let count = product(known);
    assert(known[p] != d[p]);
    assert forall|i: int| 0 <= i < known.len() implies 0 <= #[trigger] known[i] by {
        if i != p {
            assert(0 < d[i]);
        }
    }
    assert(product(a) % count == 0 && product(a) / count == x) by (nonlinear_arith)
        requires
            product(a) == count * x,
            count > 0,
    ;
    assert(reshaped(a, d)->0 =~= d.update(p, x));
}

/// The exchange of the two middle axes of four.
pub proof fn lemma_permute(
    x: Term,
    inputs: spec_fn(Kind) -> Option<Seq<int>>,
    a: Seq<int>,
)
    requires
        a.len() == 4,
        shape_of(x, inputs) == Some(a),
    ensures
        shape_of(unary(Kind::Permute(Dims::D4(0, 2, 1, 3)), x), inputs) == Some(
            seq![a[0], a[2], a[1], a[3]],
        ),
{
    lemma_unary(Kind::Permute(Dims::D4(0, 2, 1, 3)), x, inputs);
    let d = extents(Dims::D4(0, 2, 1, 3));
    assert(d =~= seq![0int, 2int, 1int, 3int]);
    assert forall|i: int| 0 <= i < 4 implies 0 <= #[trigger] d[i] < 4 by {}
    assert(Seq::new(a.len(), |i: int| a[d[i]]) =~= seq![a[0], a[2], a[1], a[3]]);
}

} // verus!
