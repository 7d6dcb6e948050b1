//! The element types of the arrays that a tensor program computes.

use crate::graph::{binary, leaf, quaternary, ternary, unary, Kind, Term, Ty};
use vstd::prelude::*;

verus! {

/// The type of an array's elements.
#[derive(Clone, Copy, Debug, PartialEq, Eq, Structural)]
pub enum Elem {
    Bool,
    Int,
    F16,
    Bf16,
    F32,
}

/// The element type that a cast gives.
pub open spec fn elem_of(ty: Ty) -> Elem {
    match ty {
        Ty::F16 => Elem::F16,
        Ty::Bf16 => Elem::Bf16,
        Ty::F32 => Elem::F32,
    }
}

/// The least type that holds the elements of both: the two 16-bit reals meet in
/// 32-bit reals.
pub open spec fn joint(a: Elem, b: Elem) -> Elem {
    if a == b {
        a
    } else if a == Elem::Bool {
        b
    } else if b == Elem::Bool {
        a
    } else if a == Elem::Int {
        b
    } else if b == Elem::Int {
        a
    } else {
        Elem::F32
    }
}

/// The type of a function over the reals: whole numbers become 32-bit reals.
pub open spec fn as_real(a: Elem) -> Elem {
    match a {
        Elem::Bool | Elem::Int => Elem::F32,
        _ => a,
    }
}

/// The element type of an operation without operands, given those of the arrays
/// that a program starts from.
pub open spec fn elem0(kind: Kind, inputs: spec_fn(Kind) -> Elem) -> Elem {
    match kind {
        Kind::Const(_) | Kind::Arange { .. } | Kind::Ones(_) => Elem::F32,
        Kind::Int(_) | Kind::IntPair(_, _) => Elem::Int,
        _ => inputs(kind),
    }
}

/// The element type of an operation on one operand.
pub open spec fn elem1(kind: Kind, a: Elem) -> Elem {
    match kind {
        Kind::Cast(ty) => elem_of(ty),
        Kind::Reciprocal
        | Kind::Rsqrt
        | Kind::Tanh
        | Kind::Cos
        | Kind::Sin
        | Kind::Silu
        | Kind::Mean { .. }
        | Kind::Softmax { .. } => as_real(a),
        _ => a,
    }
}

/// The element type of an operation on two operands.
pub open spec fn elem2(kind: Kind, a: Elem, b: Elem) -> Elem {
    match kind {
        Kind::CastLike => b,
        Kind::Take { .. } | Kind::FastRope(_) => a,
        Kind::Greater | Kind::Less | Kind::Equal | Kind::And => Elem::Bool,
        Kind::Divide | Kind::Power => as_real(joint(a, b)),
        _ => joint(a, b),
    }
}

/// The joint type of a list.
pub open spec fn joint_of(s: Seq<Elem>) -> Elem
    decreases s.len(),
{
    if s.len() == 0 {
        Elem::Bool
    } else {
        joint(joint_of(s.drop_last()), s.last())
    }
}

/// The element type of an operation on operands of the given types.
pub open spec fn elem_rule(kind: Kind, s: Seq<Elem>, inputs: spec_fn(Kind) -> Elem) -> Elem {
    if kind is Concat {
        joint_of(s)
    } else if s.len() == 0 {
        elem0(kind, inputs)
    } else if s.len() == 1 {
        elem1(kind, s[0])
    } else if s.len() == 2 {
        elem2(kind, s[0], s[1])
    } else if s.len() == 3 {
        joint(s[1], s[2])
    } else {
        joint(joint(s[0], s[1]), s[2])
    }
}

/// The element type of what a term denotes.
#[verifier::opaque]
pub open spec fn type_of(t: Term, inputs: spec_fn(Kind) -> Elem) -> Elem
    decreases t,
{
    elem_rule(t.kind, types_of(t.args, inputs), inputs)
}

/// The element types of a list of terms.
pub open spec fn types_of(args: Seq<Term>, inputs: spec_fn(Kind) -> Elem) -> Seq<Elem>
    decreases args,
{
    if args.len() == 0 {
        seq![]
    } else {
        types_of(args.drop_last(), inputs).push(type_of(args.last(), inputs))
    }
}

/// The element types of a list, one by one.
pub proof fn lemma_types(args: Seq<Term>, inputs: spec_fn(Kind) -> Elem)
    ensures
        types_of(args, inputs).len() == args.len(),
        forall|k: int|
            0 <= k < args.len() ==> types_of(args, inputs)[k] == type_of(#[trigger] args[k], inputs),
    decreases args.len(),
{
    reveal(type_of);
    if args.len() > 0 {
        lemma_types(args.drop_last(), inputs);
        assert forall|k: int| 0 <= k < args.len() implies types_of(args, inputs)[k] == type_of(
            #[trigger] args[k],
            inputs,
        ) by {
            if k < args.len() - 1 {
                assert(args.drop_last()[k] == args[k]);
            }
        }
    }
}

/// The element type of a term without operands.
pub broadcast proof fn lemma_type0(kind: Kind, inputs: spec_fn(Kind) -> Elem)
    requires
        !(kind is Concat),
    ensures
        #[trigger] type_of(leaf(kind), inputs) == elem0(kind, inputs),
{
    reveal(type_of);
    lemma_types(seq![], inputs);
}

/// The element type of a term with one operand.
pub broadcast proof fn lemma_type1(kind: Kind, a: Term, inputs: spec_fn(Kind) -> Elem)
    requires
        !(kind is Concat),
    ensures
        #[trigger] type_of(unary(kind, a), inputs) == elem1(kind, type_of(a, inputs)),
{
    reveal(type_of);
    lemma_types(seq![a], inputs);
    assert(seq![a][0] == a);
}

/// The element type of a term with two operands.
pub broadcast proof fn lemma_type2(kind: Kind, a: Term, b: Term, inputs: spec_fn(Kind) -> Elem)
    ensures
        #[trigger] type_of(binary(kind, a, b), inputs) == if kind is Concat {
            joint(type_of(a, inputs), type_of(b, inputs))
        } else {
            elem2(kind, type_of(a, inputs), type_of(b, inputs))
        },
{
    reveal(type_of);
    let args = seq![a, b];
    lemma_types(args, inputs);
    assert(args[0] == a && args[1] == b);
    let s = types_of(args, inputs);
    reveal_with_fuel(joint_of, 3);
    assert(s.drop_last().last() == s[0]);
    assert(s.drop_last().drop_last() =~= seq![]);
}

/// The element type of a term with three operands.
pub broadcast proof fn lemma_type3(
    kind: Kind,
    a: Term,
    b: Term,
    c: Term,
    inputs: spec_fn(Kind) -> Elem,
)
    requires
        !(kind is Concat),
    ensures
        #[trigger] type_of(ternary(kind, a, b, c), inputs) == joint(
            type_of(b, inputs),
            type_of(c, inputs),
        ),
{
    reveal(type_of);
    let args = seq![a, b, c];
    lemma_types(args, inputs);
    assert(args[1] == b && args[2] == c);
}

/// The element type of a term with four operands.
pub broadcast proof fn lemma_type4(
    kind: Kind,
    a: Term,
    b: Term,
    c: Term,
    d: Term,
    inputs: spec_fn(Kind) -> Elem,
)
    requires
        !(kind is Concat),
    ensures
        #[trigger] type_of(quaternary(kind, a, b, c, d), inputs) == joint(
            joint(type_of(a, inputs), type_of(b, inputs)),
            type_of(c, inputs),
        ),
{
    reveal(type_of);
    let args = seq![a, b, c, d];
    lemma_types(args, inputs);
    assert(args[0] == a && args[1] == b && args[2] == c);
}

/// Arrays of one type joined along an axis keep it.
pub proof fn lemma_type_concat(
    axis: i32,
    args: Seq<Term>,
    inputs: spec_fn(Kind) -> Elem,
    e: Elem,
)
    requires
        args.len() > 0,
        forall|k: int| 0 <= k < args.len() ==> type_of(#[trigger] args[k], inputs) == e,
    ensures
        type_of(Term { kind: Kind::Concat { axis }, args }, inputs) == e,
{
    reveal(type_of);
    lemma_types(args, inputs);
    let s = types_of(args, inputs);
    assert forall|k: int| 0 <= k < s.len() implies #[trigger] s[k] == e by {
        assert(type_of(args[k], inputs) == e);
    }
    lemma_joint_same(s, e);
}

proof fn lemma_joint_same(s: Seq<Elem>, e: Elem)
    requires
        s.len() > 0,
        forall|k: int| 0 <= k < s.len() ==> #[trigger] s[k] == e,
    ensures
        joint_of(s) == e,
    decreases s.len(),
{
    if s.len() == 1 {
        assert(s.drop_last() =~= seq![]);
        assert(joint_of(s.drop_last()) == Elem::Bool);
    } else {
        lemma_joint_same(s.drop_last(), e);
    }
    assert(s.last() == e);
}

} // verus!
