//! Tensor programs as data.
//!
//! A [`Graph`] lists array operations in the order in which they are to be
//! performed; each names its operands by their positions. What a position
//! denotes is a [`Term`]: the operation together with the terms of its operands.
//! The model modules build graphs whose terms their contracts give in full.

use vstd::prelude::*;

verus! {

/// The extents of an array, or the axes of a permutation. In a target of a
/// reshape one extent may be `-1`: what the element count leaves for it.
#[derive(Clone, Copy, Debug, PartialEq, Eq, Structural)]
pub enum Dims {
    D1(i32),
    D2(i32, i32),
    D3(i32, i32, i32),
    D4(i32, i32, i32, i32),
}

/// The extent of a reshape that the element count determines.
pub const REST: i32 = -1;

/// Element types that values are cast to.
#[derive(Clone, Copy, Debug, PartialEq, Eq, Structural)]
pub enum Ty {
    F16,
    Bf16,
    F32,
}

/// The two stacks of the encoder-decoder model.
#[derive(Clone, Copy, Debug, PartialEq, Eq, Structural)]
pub enum Side {
    Encoder,
    Decoder,
}

/// The two kinds of attention layer, which differ in their rotary frequencies.
#[derive(Clone, Copy, Debug, PartialEq, Eq, Structural)]
pub enum LayerType {
    Full,
    Sliding,
}

/// A real number in a program: a decimal literal, or a parameter that the
/// checkpoint's configuration gives.
#[derive(Clone, Copy, Debug, PartialEq, Eq, Structural)]
pub enum Num {
    /// `digits` times ten to the power `exp`.
    Dec { digits: i64, exp: i32 },
    /// Twice the ratio of a circle's circumference to its diameter.
    TwoPi,
    /// `rms_norm_eps`.
    Eps,
    /// `query_pre_attn_scalar` to the power of minus one half.
    AttnScale,
    /// The square root of `hidden_size`.
    EmbScale,
    /// `rope_theta` of one stack's layers of one type.
    Theta(Side, LayerType),
    /// The rotary `factor` of one stack's layers of one type.
    Factor(Side, LayerType),
}

/// Which stack of which model a weight belongs to.
#[derive(Clone, Copy, Debug, PartialEq, Eq, Structural)]
pub enum Stack {
    Nemotron,
    Kalm(Side),
}

/// The weights of one transformer layer.
#[derive(Clone, Copy, Debug, PartialEq, Eq, Structural)]
pub enum Part {
    InputNorm,
    PostAttentionNorm,
    PreSelfAttnNorm,
    PostSelfAttnNorm,
    PreFeedforwardNorm,
    PostFeedforwardNorm,
    QProj,
    KProj,
    VProj,
    OProj,
    QNorm,
    KNorm,
    GateProj,
    UpProj,
    DownProj,
}

/// The place of a weight in its stack.
#[derive(Clone, Copy, Debug, PartialEq, Eq, Structural)]
pub enum Slot {
    Embedding,
    FinalNorm,
    ScoreHead,
    Layer(usize, Part),
}

/// The identity of one weight array.
#[derive(Clone, Copy, Debug, PartialEq, Eq, Structural)]
pub struct WeightKey {
    pub stack: Stack,
    pub slot: Slot,
}

/// How a rotary embedding turns.
#[derive(Clone, Copy, Debug, PartialEq, Eq, Structural)]
pub struct Turn {
    /// The number of positions of the last axis that are turned.
    pub dims: i32,
    /// Whether the two numbers that are turned together are neighbours; else they stand
    /// half of `dims` apart.
    pub neighbours: bool,
    /// Whether the frequencies are powers of a base; else they are given.
    pub by_base: bool,
    /// What positions are multiplied by.
    pub scale: Num,
    /// The position of the first row.
    pub offset: i32,
}

/// One array operation, without its operands.
#[derive(Clone, Copy, Debug, PartialEq, Eq, Structural)]
pub enum Kind {
    /// The padded token ids of a batch, by the batch's number.
    Ids(usize),
    /// The attention mask of a batch, by the batch's number.
    Mask(usize),
    /// The token ids of the decoder prompt, one row.
    Prompt,
    /// A weight of the checkpoint.
    Weight(WeightKey),
    /// The rotary frequencies that the model keeps.
    Freqs,
    /// The inverse rotary frequencies of one stack's layers of one type.
    InvFreq(Side, LayerType),
    /// A scalar.
    Const(Num),
    /// An integer scalar.
    Int(i32),
    /// A row of two integers.
    IntPair(i32, i32),
    /// `0, step, 2 * step, ...` below `stop`, as reals.
    Arange { stop: i32, step: i32 },
    /// An array of ones, as 32-bit reals.
    Ones(Dims),
    /// An array of zeros of the operand's element type.
    ZerosLike(Dims),
    Cast(Ty),
    /// The first operand in the element type of the second.
    CastLike,
    Reshape(Dims),
    /// The axes of the operand in the given order.
    Permute(Dims),
    /// The operand with its axes reversed.
    Transpose,
    /// The operand stretched to the given extents.
    Broadcast(Dims),
    Matmul,
    Add,
    Subtract,
    Multiply,
    Divide,
    Maximum,
    /// The first operand to the power of the second.
    Power,
    Reciprocal,
    Rsqrt,
    Tanh,
    Cos,
    Sin,
    Silu,
    Greater,
    Less,
    Equal,
    And,
    /// Where the first operand holds, the second, else the third.
    Which,
    Mean { axis: i32, keep: bool },
    Sum { axis: i32, keep: bool },
    Softmax { axis: i32 },
    /// The rows of the first operand along `axis` that the second picks.
    Take { axis: i32 },
    /// Positions `from..to` of the last axis.
    SliceLast { from: i32, to: i32 },
    Concat { axis: i32 },
    /// Each element along `axis`, `count` times in a row.
    Repeat { count: i32, axis: i32 },
    /// The elements on and above the given diagonal.
    Triu(i32),
    /// Root-mean-square normalisation of the first operand, scaled by the second.
    FastRmsNorm(Num),
    /// Rotary embedding of the first operand, with the frequencies of the second.
    FastRope(Turn),
    /// Attention of queries, keys and values under an additive mask.
    Attention(Num),
}

/// What a position of a graph denotes.
pub struct Term {
    pub kind: Kind,
    pub args: Seq<Term>,
}

/// A rotary embedding of `dims` numbers with given frequencies, which turns numbers half
/// of that apart and counts positions from the first row.
pub open spec fn turn(dims: i32) -> Kind {
    Kind::FastRope(
        Turn { dims, neighbours: false, by_base: false, scale: dec(1, 0), offset: 0 },
    )
}

/// A term without operands.
pub open spec fn leaf(kind: Kind) -> Term {
    Term { kind, args: seq![] }
}

/// A term with one operand.
pub open spec fn unary(kind: Kind, a: Term) -> Term {
    Term { kind, args: seq![a] }
}

/// A term with two operands.
pub open spec fn binary(kind: Kind, a: Term, b: Term) -> Term {
    Term { kind, args: seq![a, b] }
}

/// A term with three operands.
pub open spec fn ternary(kind: Kind, a: Term, b: Term, c: Term) -> Term {
    Term { kind, args: seq![a, b, c] }
}

/// A term with four operands.
pub open spec fn quaternary(kind: Kind, a: Term, b: Term, c: Term, d: Term) -> Term {
    Term { kind, args: seq![a, b, c, d] }
}

/// The number `digits` times ten to the power `exp`.
pub open spec fn dec(digits: int, exp: int) -> Num {
    Num::Dec { digits: digits as i64, exp: exp as i32 }
}

/// The scalar `digits` times ten to the power `exp`.
pub open spec fn literal(digits: int, exp: int) -> Term {
    leaf(Kind::Const(dec(digits, exp)))
}

/// One operation with the positions of its operands.
#[derive(Debug)]
pub struct Node {
    pub kind: Kind,
    pub args: Vec<usize>,
}

/// A list of operations, each on earlier ones.
#[derive(Debug)]
pub struct Graph {
    nodes: Vec<Node>,
}

/// What the operation at position `i` denotes.
spec fn term_at(nodes: Seq<Node>, i: int) -> Term
    decreases i,
{
    Term {
        kind: nodes[i].kind,
        args: Seq::new(
            nodes[i].args@.len(),
            |k: int|
                if 0 <= nodes[i].args@[k] < i {
                    term_at(nodes, nodes[i].args@[k] as int)
                } else {
                    arbitrary()
                },
        ),
    }
}

proof fn lemma_term_at_prefix(a: Seq<Node>, b: Seq<Node>, i: int)
    requires
        0 <= i < a.len() <= b.len(),
        forall|j: int| 0 <= j < a.len() ==> a[j] == b[j],
    ensures
        term_at(a, i) == term_at(b, i),
    decreases i,
{
    let args = a[i].args@;
    assert forall|k: int| 0 <= k < args.len() implies (#[trigger] term_at(a, i).args[k]) == term_at(
        b,
        i,
    ).args[k] by {
        if args[k] < i {
            lemma_term_at_prefix(a, b, args[k] as int);
        }
    }
    assert(term_at(a, i).args =~= term_at(b, i).args);
}

/// Whether `b` begins with the terms of `a`.
pub open spec fn extends(b: Seq<Term>, a: Seq<Term>) -> bool {
    a.len() <= b.len() && forall|i: int| 0 <= i < a.len() ==> #[trigger] b[i] == a[i]
}

impl View for Graph {
    type V = Seq<Term>;

    closed spec fn view(&self) -> Seq<Term> {
        Seq::new(self.nodes@.len(), |i: int| term_at(self.nodes@, i))
    }
}

impl Graph {
    /// Every operand stands before the operation that uses it.
    pub closed spec fn wf(&self) -> bool {
        forall|i: int, k: int|
            0 <= i < self.nodes@.len() && 0 <= k < self.nodes@[i].args@.len()
                ==> #[trigger] self.nodes@[i].args@[k] < i
    }

    /// The empty program.
    pub fn new() -> (r: Self)
        ensures
            r.wf(),
            r@ == Seq::<Term>::empty(),
    {
        let r = Graph { nodes: Vec::new() };
        assert(r@ =~= Seq::<Term>::empty());
        r
    }

    /// The number of operations.
    pub fn len(&self) -> (r: usize)
        ensures
            r == self@.len(),
    {
        self.nodes.len()
    }

    /// The operation at position `i`; its operands stand before it.
    pub fn node(&self, i: usize) -> (r: &Node)
        requires
            self.wf(),
            i < self@.len(),
        ensures
            r.kind == self@[i as int].kind,
            r.args@.len() == self@[i as int].args.len(),
            forall|k: int|
                0 <= k < r.args@.len() ==> r.args@[k] < i && self@[#[trigger] r.args@[k] as int]
                    == self@[i as int].args[k],
    {
        &self.nodes[i]
    }

    /// Adds an operation on earlier ones and returns its position.
    pub fn push(&mut self, kind: Kind, args: Vec<usize>) -> (r: usize)
        requires
            old(self).wf(),
            forall|k: int| 0 <= k < args@.len() ==> #[trigger] args@[k] < old(self)@.len(),
        ensures
            final(self).wf(),
            r == old(self)@.len(),
            final(self)@ == old(self)@.push(
                Term { kind, args: Seq::new(args@.len(), |k: int| old(self)@[args@[k] as int]) },
            ),
    {
        let ghost before = self.nodes@;
        let ghost view = self@;
        let r = self.nodes.len();
        self.nodes.push(Node { kind, args });
        proof {
            let after = self.nodes@;
            let top = Term { kind, args: Seq::new(args@.len(), |k: int| view[args@[k] as int]) };
            assert forall|i: int| 0 <= i < before.len() implies #[trigger] term_at(after, i)
                == view[i] by {
                lemma_term_at_prefix(before, after, i);
            }
            assert forall|k: int| 0 <= k < args@.len() implies (#[trigger] term_at(
                after,
                r as int,
            ).args[k]) == top.args[k] by {
                assert(args@[k] < r);
                assert(term_at(after, args@[k] as int) == view[args@[k] as int]);
            }
            assert(term_at(after, r as int).args =~= top.args);
            assert(self@ =~= view.push(top));
        }
        r
    }

    /// Adds an operation without operands.
    pub fn op0(&mut self, kind: Kind) -> (r: usize)
        requires
            old(self).wf(),
        ensures
            final(self).wf(),
            r == old(self)@.len(),
            final(self)@ == old(self)@.push(leaf(kind)),
    {
        let r = self.push(kind, Vec::new());
        assert(self@.last().args =~= seq![]);
        r
    }

    /// Adds an operation on one operand.
    pub fn op1(&mut self, kind: Kind, a: usize) -> (r: usize)
        requires
            old(self).wf(),
            a < old(self)@.len(),
        ensures
            final(self).wf(),
            r == old(self)@.len(),
            final(self)@ == old(self)@.push(unary(kind, old(self)@[a as int])),
    {
        let ghost view = self@;
        let r = self.push(kind, vec![a]);
        assert(self@.last().args =~= seq![view[a as int]]);
        r
    }

    /// Adds an operation on two operands.
    pub fn op2(&mut self, kind: Kind, a: usize, b: usize) -> (r: usize)
        requires
            old(self).wf(),
            a < old(self)@.len(),
            b < old(self)@.len(),
        ensures
            final(self).wf(),
            r == old(self)@.len(),
            final(self)@ == old(self)@.push(
                binary(kind, old(self)@[a as int], old(self)@[b as int]),
            ),
    {
        let ghost view = self@;
        let r = self.push(kind, vec![a, b]);
        assert(self@.last().args =~= seq![view[a as int], view[b as int]]);
        r
    }

    /// Adds an operation on three operands.
    pub fn op3(&mut self, kind: Kind, a: usize, b: usize, c: usize) -> (r: usize)
        requires
            old(self).wf(),
            a < old(self)@.len(),
            b < old(self)@.len(),
            c < old(self)@.len(),
        ensures
            final(self).wf(),
            r == old(self)@.len(),
            final(self)@ == old(self)@.push(
                ternary(kind, old(self)@[a as int], old(self)@[b as int], old(self)@[c as int]),
            ),
    {
        let ghost view = self@;
        let r = self.push(kind, vec![a, b, c]);
        assert(self@.last().args =~= seq![view[a as int], view[b as int], view[c as int]]);
        r
    }

    /// Adds an operation on four operands.
    pub fn op4(&mut self, kind: Kind, a: usize, b: usize, c: usize, d: usize) -> (r: usize)
        requires
            old(self).wf(),
            a < old(self)@.len(),
            b < old(self)@.len(),
            c < old(self)@.len(),
            d < old(self)@.len(),
        ensures
            final(self).wf(),
            r == old(self)@.len(),
            final(self)@ == old(self)@.push(
                quaternary(
                    kind,
                    old(self)@[a as int],
                    old(self)@[b as int],
                    old(self)@[c as int],
                    old(self)@[d as int],
                ),
            ),
    {
        let ghost view = self@;
        let r = self.push(kind, vec![a, b, c, d]);
        assert(self@.last().args =~= seq![
            view[a as int],
            view[b as int],
            view[c as int],
            view[d as int],
        ]);
        r
    }

    /// Adds the scalar `digits` times ten to the power `exp`.
    pub fn number(&mut self, digits: i64, exp: i32) -> (r: usize)
        requires
            old(self).wf(),
        ensures
            final(self).wf(),
            r == old(self)@.len(),
            final(self)@ == old(self)@.push(literal(digits as int, exp as int)),
    {
        self.op0(Kind::Const(Num::Dec { digits, exp }))
    }
}

} // verus!
