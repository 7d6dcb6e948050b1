//! Scoring with the encoder-decoder: from a query and documents to encoded
//! sub-batches, one decoder prompt and one tensor program over all of them.

use crate::batch::{lengths, padded_ids, padded_mask, padded_width, RunPlan, MAX_LEN};
use crate::batch::{lemma_padded_width_bounds, reads_alike};
use crate::graph::{binary, extends, leaf, literal, ternary, unary};
use crate::graph::{Dims, Graph, Kind, Slot, Side, Stack, Term, Ty, WeightKey};
use crate::kalm::{chunk_count, decode_term, embedding, encoder_states_term, filled_term};
use crate::kalm::{hide_zeros_term, pooled_mask_term, pooled_term, KalmModel, CHUNK};
use crate::kalm_config::KalmConfig;
use crate::order::{is_stable_order, unsort};
use crate::text::same_text;
use crate::tokens::{
    batch_encodes_to, can_decode_ids, can_decode_these, can_encode, can_encode_all, can_encode_one,
    can_encode_text, decode, decoded, encode, encode_batch, encode_outcome, encodes_each,
    encodes_to, fails_alone, ids_of, labelled, pads_batches, texts_of,
};
use crate::weights::{is_kept, keep_weight, key_name, weight_name};
use tokenizers::Tokenizer;
use vstd::prelude::*;

verus! {

/// The default size of a sub-batch of the encoder.
pub const SUBB_DEFAULT: usize = 25;

/// The pooled states of batch `k`, of `b` rows of `w` tokens.
pub open spec fn pool_term(cfg: &KalmConfig, k: usize, b: i32, w: i32) -> Term {
    let ids = leaf(Kind::Ids(k));
    let am = leaf(Kind::Mask(k));
    pooled_term(cfg, encoder_states_term(cfg, ids, am, b, w), am, b, w)
}

/// The mask of the pooled states of batch `k`.
pub open spec fn pool_mask_term(k: usize, b: i32, w: i32) -> Term {
    pooled_mask_term(leaf(Kind::Mask(k)), b, w)
}

/// The greatest number of pooled vectors of a row among batches of `(rows, width)`.
pub open spec fn max_chunks(dims: Seq<(i32, i32)>) -> int
    decreases dims.len(),
{
    if dims.len() == 0 {
        0
    } else {
        let rest = max_chunks(dims.drop_last());
        let last = chunk_count(dims.last().1 as int);
        if last > rest {
            last
        } else {
            rest
        }
    }
}

/// The pooled states of batch `k`, filled up with zeros to the longest rows.
pub open spec fn even_pool_term(cfg: &KalmConfig, dims: Seq<(i32, i32)>, k: int) -> Term {
    let (b, w) = dims[k];
    let d = max_chunks(dims) - chunk_count(w as int);
    filled_term(pool_term(cfg, k as usize, b, w), d, Dims::D3(b, d as i32, cfg.h))
}

/// The mask of the pooled states of batch `k`, filled up likewise.
pub open spec fn even_mask_term(dims: Seq<(i32, i32)>, k: int) -> Term {
    let (b, w) = dims[k];
    let d = max_chunks(dims) - chunk_count(w as int);
    filled_term(pool_mask_term(k as usize, b, w), d, Dims::D2(b, d as i32))
}

/// The pooled states of all documents, in sorted order.
pub open spec fn all_pools_term(cfg: &KalmConfig, dims: Seq<(i32, i32)>) -> Term {
    Term {
        kind: Kind::Concat { axis: 0 },
        args: Seq::new(dims.len(), |k: int| even_pool_term(cfg, dims, k)),
    }
}

/// The mask of the pooled states of all documents, in sorted order.
pub open spec fn all_masks_term(dims: Seq<(i32, i32)>) -> Term {
    Term {
        kind: Kind::Concat { axis: 0 },
        args: Seq::new(dims.len(), |k: int| even_mask_term(dims, k)),
    }
}

/// A large negative number for every later position of the prompt, zero for the
/// others: `[n, 1, td, td]`.
pub open spec fn causal_term(n: i32, td: i32) -> Term {
    let later = binary(
        Kind::Greater,
        unary(Kind::Triu(1), leaf(Kind::Ones(Dims::D2(td, td)))),
        literal(0, 0),
    );
    unary(
        Kind::Broadcast(Dims::D4(n, 1, td, td)),
        unary(
            Kind::Reshape(Dims::D4(1, 1, td, td)),
            ternary(Kind::Which, later, literal(-1, 30), literal(0, 0)),
        ),
    )
}

/// A large negative number for every empty chunk of a passage, zero for the
/// others: `[n, 1, td, ne]`.
pub open spec fn cross_term(pmask: Term, n: i32, td: i32, ne: i32) -> Term {
    unary(
        Kind::Broadcast(Dims::D4(n, 1, td, ne)),
        hide_zeros_term(unary(Kind::Reshape(Dims::D4(n, 1, 1, ne)), pmask)),
    )
}

/// The additive mask of the merged attention, prompt before passage.
pub open spec fn merged_mask_term(pmask: Term, n: i32, td: i32, ne: i32) -> Term {
    unary(
        Kind::Cast(Ty::Bf16),
        binary(Kind::Concat { axis: -1i32 }, causal_term(n, td), cross_term(pmask, n, td, ne)),
    )
}

/// The probability of the first of two tokens against the second, from the states
/// of the last position: `[n]`.
pub open spec fn answer_term(
    cfg: &KalmConfig,
    states: Term,
    n: i32,
    td: i32,
    yes: i32,
    no: i32,
) -> Term {
    let last = unary(
        Kind::Reshape(Dims::D2(n, cfg.h)),
        binary(Kind::Take { axis: 1 }, states, leaf(Kind::Int(last_position(td)))),
    );
    let logits = binary(Kind::Matmul, last, unary(Kind::Transpose, embedding()));
    let pair = binary(Kind::Take { axis: 1 }, logits, leaf(Kind::IntPair(yes, no)));
    let both = unary(Kind::Softmax { axis: 1 }, pair);
    unary(
        Kind::Reshape(Dims::D1(n)),
        binary(Kind::Take { axis: 1 }, both, leaf(Kind::Int(0))),
    )
}

/// The last of `td` positions.
pub open spec fn last_position(td: i32) -> i32 {
    if td == i32::MIN {
        i32::MAX
    } else {
        (td - 1) as i32
    }
}

/// The scores `[n]` of all documents, in sorted order: how much likelier the
/// decoder's answer is yes than no.
pub open spec fn score_term(
    cfg: &KalmConfig,
    dims: Seq<(i32, i32)>,
    n: i32,
    td: i32,
    yes: i32,
    no: i32,
) -> Term {
    let ne = max_chunks(dims) as i32;
    let dids = unary(Kind::Repeat { count: n, axis: 0 }, leaf(Kind::Prompt));
    let mm = merged_mask_term(all_masks_term(dims), n, td, ne);
    let states = decode_term(cfg, dids, all_pools_term(cfg, dims), mm, n, td, ne);
    answer_term(cfg, states, n, td, yes, no)
}

/// A tensor program that scores documents.
#[derive(Debug)]
pub struct ScoreGraph {
    pub graph: Graph,
    /// The pooled states of every sub-batch, to be computed before the decoder.
    pub pools: Vec<usize>,
    /// The masks of the pooled states.
    pub masks: Vec<usize>,
    /// The scores, in sorted order.
    pub out: usize,
}

/// Whether the rows of every batch hold between one token and the most that are read.
pub open spec fn widths_are_read(dims: Seq<(i32, i32)>) -> bool {
    forall|k: int| 0 <= k < dims.len() ==> 1 <= (#[trigger] dims[k]).1 <= MAX_LEN
}

/// Whether `at` lists the positions of the terms `term(0)`, `term(1)`, and so on.
pub open spec fn lists(
    terms: Seq<Term>,
    at: Seq<usize>,
    n: int,
    term: spec_fn(int) -> Term,
) -> bool {
    &&& at.len() == n
    &&& forall|k: int|
        0 <= k < n ==> #[trigger] at[k] < terms.len() && terms[at[k] as int] == term(k)
}

/// Bounds of the greatest number of pooled vectors of a row.
pub proof fn lemma_max_chunks(dims: Seq<(i32, i32)>)
    requires
        widths_are_read(dims),
    ensures
        0 <= max_chunks(dims) <= MAX_LEN,
        forall|k: int|
            0 <= k < dims.len() ==> 0 <= chunk_count((#[trigger] dims[k]).1 as int) <= max_chunks(
                dims,
            ),
        dims.len() > 0 ==> exists|k: int|
            0 <= k < dims.len() && max_chunks(dims) == chunk_count((#[trigger] dims[k]).1 as int),
    decreases dims.len(),
{
    if dims.len() > 0 {
        let rest = dims.drop_last();
        assert forall|k: int| 0 <= k < rest.len() implies 1 <= (#[trigger] rest[k]).1
            <= MAX_LEN by {
            assert(rest[k] == dims[k]);
        }
        lemma_max_chunks(rest);
        assert forall|k: int| 0 <= k < dims.len() implies 0 <= chunk_count(
            (#[trigger] dims[k]).1 as int,
        ) <= max_chunks(dims) by {
            if k < rest.len() {
                assert(rest[k] == dims[k]);
            }
        }
        let n = dims.len() - 1;
        assert(dims.last() == dims[n]);
        if max_chunks(rest) >= chunk_count(dims[n].1 as int) && rest.len() > 0 {
            let k = choose|k: int|
                0 <= k < rest.len() && max_chunks(rest) == chunk_count((#[trigger] rest[k]).1 as int);
            assert(rest[k] == dims[k]);
        }
    }
}

impl KalmModel {
    /// Adds the encoder on every batch of `(rows, width)`.
    fn encode_batches(&self, g: &mut Graph, dims: &Vec<(i32, i32)>) -> (r: (
        Vec<usize>,
        Vec<usize>,
    ))
        requires
            old(g).wf(),
            self.cfg.wf(),
            widths_are_read(dims@),
        ensures
            final(g).wf(),
            extends(final(g)@, old(g)@),
            lists(
                final(g)@,
                r.0@,
                dims@.len() as int,
                |k: int| pool_term(&self.cfg, k as usize, dims@[k].0, dims@[k].1),
            ),
            lists(
                final(g)@,
                r.1@,
                dims@.len() as int,
                |k: int| pool_mask_term(k as usize, dims@[k].0, dims@[k].1),
            ),
    {
        let mut pools: Vec<usize> = Vec::new();
        let mut masks: Vec<usize> = Vec::new();
        let mut k: usize = 0;
        while k < dims.len()
            invariant
                g.wf(),
                extends(g@, old(g)@),
                self.cfg.wf(),
                widths_are_read(dims@),
                k <= dims@.len(),
                lists(
                    g@,
                    pools@,
                    k as int,
                    |k: int| pool_term(&self.cfg, k as usize, dims@[k].0, dims@[k].1),
                ),
                lists(
                    g@,
                    masks@,
                    k as int,
                    |k: int| pool_mask_term(k as usize, dims@[k].0, dims@[k].1),
                ),
            decreases dims@.len() - k,
        {
            let (b, w) = dims[k];
            let ids = g.op0(Kind::Ids(k));
            let am = g.op0(Kind::Mask(k));
            let (pool, mask) = self.encode(g, ids, am, b, w);
            pools.push(pool);
            masks.push(mask);
            k += 1;
        }
        (pools, masks)
    }

    /// Adds zeros behind the pooled rows that are shorter than `ne`, and joins all
    /// batches.
    fn join_batches(
        &self,
        g: &mut Graph,
        dims: &Vec<(i32, i32)>,
        pools: &Vec<usize>,
        masks: &Vec<usize>,
        ne: i32,
    ) -> (r: (usize, usize))
        requires
            old(g).wf(),
            widths_are_read(dims@),
            ne == max_chunks(dims@),
            lists(
                old(g)@,
                pools@,
                dims@.len() as int,
                |k: int| pool_term(&self.cfg, k as usize, dims@[k].0, dims@[k].1),
            ),
            lists(
                old(g)@,
                masks@,
                dims@.len() as int,
                |k: int| pool_mask_term(k as usize, dims@[k].0, dims@[k].1),
            ),
        ensures
            final(g).wf(),
            extends(final(g)@, old(g)@),
            r.0 < final(g)@.len(),
            r.1 < final(g)@.len(),
            final(g)@[r.0 as int] == all_pools_term(&self.cfg, dims@),
            final(g)@[r.1 as int] == all_masks_term(dims@),
    {
        proof {
            lemma_max_chunks(dims@);
        }
        let ghost before = g@;
        let mut pp: Vec<usize> = Vec::new();
        let mut pm: Vec<usize> = Vec::new();
        let mut k: usize = 0;
        while k < dims.len()
            invariant
                g.wf(),
                before == old(g)@,
                extends(g@, before),
                widths_are_read(dims@),
                ne == max_chunks(dims@),
                0 <= ne <= MAX_LEN,
                forall|j: int|
                    0 <= j < dims@.len() ==> 0 <= chunk_count((#[trigger] dims@[j]).1 as int)
                        <= ne,
                lists(
                    before,
                    pools@,
                    dims@.len() as int,
                    |k: int| pool_term(&self.cfg, k as usize, dims@[k].0, dims@[k].1),
                ),
                lists(
                    before,
                    masks@,
                    dims@.len() as int,
                    |k: int| pool_mask_term(k as usize, dims@[k].0, dims@[k].1),
                ),
                k <= dims@.len(),
                lists(g@, pp@, k as int, |k: int| even_pool_term(&self.cfg, dims@, k)),
                lists(g@, pm@, k as int, |k: int| even_mask_term(dims@, k)),
            decreases dims@.len() - k,
        {
            let (b, w) = dims[k];
            assert(dims@[k as int] == (b, w));
            let d: i32 = ne - (w + CHUNK - 1) / CHUNK;
            let pool = pools[k];
            let mask = masks[k];
            assert(g@[pool as int] == pool_term(&self.cfg, k, b, w));
            assert(g@[mask as int] == pool_mask_term(k, b, w));
            let pool = Self::filled(g, pool, d, Dims::D3(b, d, self.cfg.h));
            let mask = Self::filled(g, mask, d, Dims::D2(b, d));
            pp.push(pool);
            pm.push(mask);
            k += 1;
        }
        let ghost mid = g@;
        let pooled = g.push(Kind::Concat { axis: 0 }, pp);
        proof {
            assert(g@[pooled as int].args =~= all_pools_term(&self.cfg, dims@).args);
        }
        let ghost late = g@;
        let pmask = g.push(Kind::Concat { axis: 0 }, pm);
        proof {
            assert(g@[pmask as int].args =~= all_masks_term(dims@).args);
        }
        (pooled, pmask)
    }

    /// Adds the additive mask of the merged attention.
    fn merged_mask(g: &mut Graph, pmask: usize, n: i32, td: i32, ne: i32) -> (r: usize)
        requires
            old(g).wf(),
            pmask < old(g)@.len(),
        ensures
            final(g).wf(),
            extends(final(g)@, old(g)@),
            r < final(g)@.len(),
            final(g)@[r as int] == merged_mask_term(old(g)@[pmask as int], n, td, ne),
    {
        let ones = g.op0(Kind::Ones(Dims::D2(td, td)));
        let triu = g.op1(Kind::Triu(1), ones);
        let zero = g.number(0, 0);
        let later = g.op2(Kind::Greater, triu, zero);
        let neg = g.number(-1, 30);
        let causal = g.op3(Kind::Which, later, neg, zero);
        let causal = g.op1(Kind::Reshape(Dims::D4(1, 1, td, td)), causal);
        let causal = g.op1(Kind::Broadcast(Dims::D4(n, 1, td, td)), causal);
        assert(g@[causal as int] == causal_term(n, td));
        let pm4 = g.op1(Kind::Reshape(Dims::D4(n, 1, 1, ne)), pmask);
        let cross = Self::hide_zeros(g, pm4);
        let cross = g.op1(Kind::Broadcast(Dims::D4(n, 1, td, ne)), cross);
        let both = g.op2(Kind::Concat { axis: -1 }, causal, cross);
        g.op1(Kind::Cast(Ty::Bf16), both)
    }

    /// Adds the probability of yes against no, from the decoder's states.
    fn answer(&self, g: &mut Graph, states: usize, n: i32, td: i32) -> (r: usize)
        requires
            old(g).wf(),
            states < old(g)@.len(),
        ensures
            final(g).wf(),
            extends(final(g)@, old(g)@),
            r < final(g)@.len(),
            final(g)@[r as int] == answer_term(
                &self.cfg,
                old(g)@[states as int],
                n,
                td,
                self.yes_id as i32,
                self.no_id as i32,
            ),
    {
        let at = g.op0(Kind::Int(td.wrapping_sub(1)));
        let last = g.op2(Kind::Take { axis: 1 }, states, at);
        let last = g.op1(Kind::Reshape(Dims::D2(n, self.cfg.h)), last);
        let table = g.op0(
            Kind::Weight(
                WeightKey { stack: Stack::Kalm(Side::Encoder), slot: Slot::Embedding },
            ),
        );
        let table = g.op1(Kind::Transpose, table);
        let logits = g.op2(Kind::Matmul, last, table);
        let yn = g.op0(Kind::IntPair(self.yes_id as i32, self.no_id as i32));
        let pair = g.op2(Kind::Take { axis: 1 }, logits, yn);
        let both = g.op1(Kind::Softmax { axis: 1 }, pair);
        let first = g.op0(Kind::Int(0));
        let yes = g.op2(Kind::Take { axis: 1 }, both, first);
        g.op1(Kind::Reshape(Dims::D1(n)), yes)
    }

    /// Builds the program that scores `n` documents in encoder batches of
    /// `(rows, width)`, against a decoder prompt of `td` tokens.
    pub fn score_graph(&self, dims: &Vec<(i32, i32)>, n: i32, td: i32) -> (r: ScoreGraph)
        requires
            self.cfg.wf(),
            widths_are_read(dims@),
        ensures
            r.graph.wf(),
            lists(
                r.graph@,
                r.pools@,
                dims@.len() as int,
                |k: int| pool_term(&self.cfg, k as usize, dims@[k].0, dims@[k].1),
            ),
            lists(
                r.graph@,
                r.masks@,
                dims@.len() as int,
                |k: int| pool_mask_term(k as usize, dims@[k].0, dims@[k].1),
            ),
            r.out < r.graph@.len(),
            r.graph@[r.out as int] == score_term(
                &self.cfg,
                dims@,
                n,
                td,
                self.yes_id as i32,
                self.no_id as i32,
            ),
    {
        let mut g = Graph::new();
        let (pools, masks) = self.encode_batches(&mut g, dims);
        let ghost encoded = g@;
        let mut ne: i32 = 0;
        let mut k: usize = 0;
        while k < dims.len()
            invariant
                widths_are_read(dims@),
                k <= dims@.len(),
                0 <= ne <= MAX_LEN,
                ne == max_chunks(dims@.take(k as int)),
            decreases dims@.len() - k,
        {
            assert(dims@.take(k + 1).drop_last() =~= dims@.take(k as int));
            assert(1 <= dims@[k as int].1 <= MAX_LEN);
            let w = dims[k].1;
            let n: i32 = (w + CHUNK - 1) / CHUNK;
            if n > ne {
                ne = n;
            }
            k += 1;
        }
        assert(dims@.take(k as int) =~= dims@);
        let (pooled, pmask) = self.join_batches(&mut g, dims, &pools, &masks, ne);
        let prompt = g.op0(Kind::Prompt);
        let dids = g.op1(Kind::Repeat { count: n, axis: 0 }, prompt);
        let mm = Self::merged_mask(&mut g, pmask, n, td, ne);
        let states = self.decode(&mut g, dids, pooled, mm, n, td, ne);
        let out = self.answer(&mut g, states, n, td);
        assert(extends(g@, encoded));
        ScoreGraph { graph: g, pools, masks, out }
    }
}

/// A padded batch of encoded documents.
#[derive(Debug)]
pub struct Batch {
    /// The token ids, row after row.
    pub ids: Vec<i32>,
    /// One for a token, zero for padding.
    pub mask: Vec<i32>,
    pub rows: usize,
    pub width: usize,
}

impl Batch {
    /// Whether this is `rows`, padded.
    pub open spec fn pads(&self, rows: Seq<Seq<u32>>) -> bool {
        &&& self.rows == rows.len()
        &&& self.width == padded_width(rows)
        &&& self.ids@ == padded_ids(rows, self.width as int, (self.rows * self.width) as nat)
        &&& self.mask@ == padded_mask(rows, self.width as int, (self.rows * self.width) as nat)
    }
}

/// The extents of batches.
pub open spec fn dims_of(batches: Seq<Batch>) -> Seq<(i32, i32)> {
    Seq::new(batches.len(), |k: int| (batches[k].rows as i32, batches[k].width as i32))
}

/// Token ids as the integers that a program reads.
pub open spec fn as_inputs(ids: Seq<u32>) -> Seq<i32> {
    Seq::new(ids.len(), |i: int| ids[i] as i32)
}

/// Everything that scoring documents takes, but the arithmetic.
#[derive(Debug)]
pub struct ScorePlan {
    /// The encoded documents in length-sorted sub-batches.
    pub plan: RunPlan,
    /// The sub-batches, padded.
    pub batches: Vec<Batch>,
    /// The token ids of the decoder prompt.
    pub prompt: Vec<i32>,
    pub program: ScoreGraph,
}

impl ScorePlan {
    /// Whether this scores the documents `encs` against the prompt `dprompt` with
    /// `model`, in sub-batches of `subb`.
    pub open spec fn scores_with(
        &self,
        model: &KalmModel,
        encs: Seq<Seq<u32>>,
        dprompt: Seq<u32>,
        subb: int,
    ) -> bool {
        &&& ids_of(self.plan.encs@) == encs
        &&& self.plan.size == subb
        &&& is_stable_order(lengths(encs), self.plan.order@)
        &&& self.plan.wf()
        &&& self.batches@.len() == self.plan.chunk_idx@.len()
        &&& forall|c: int|
            0 <= c < self.batches@.len() ==> (#[trigger] self.batches@[c]).pads(self.plan.rows(c))
        &&& self.prompt@ == as_inputs(dprompt)
        &&& self.program.graph.wf()
        &&& self.program.out < self.program.graph@.len()
        &&& self.program.graph@[self.program.out as int] == score_term(
            &model.cfg,
            dims_of(self.batches@),
            encs.len() as i32,
            dprompt.len() as i32,
            model.yes_id as i32,
            model.no_id as i32,
        )
        &&& lists(
            self.program.graph@,
            self.program.pools@,
            self.batches@.len() as int,
            |k: int|
                pool_term(
                    &model.cfg,
                    k as usize,
                    self.batches@[k].rows as i32,
                    self.batches@[k].width as i32,
                ),
        )
        &&& lists(
            self.program.graph@,
            self.program.masks@,
            self.batches@.len() as int,
            |k: int|
                pool_mask_term(
                    k as usize,
                    self.batches@[k].rows as i32,
                    self.batches@[k].width as i32,
                ),
        )
    }

    /// Puts the program's scores, which are in sorted order, back in the order of
    /// the documents. `fill` stands for a score that is not known yet; none remains.
    pub fn scores<T: Copy>(&self, sorted: &Vec<T>, fill: T) -> (r: Vec<T>)
        requires
            self.plan.wf(),
            self.plan.order@.len() <= sorted@.len(),
        ensures
            r@.len() == self.plan.encs@.len(),
            forall|k: int|
                0 <= k < self.plan.order@.len() ==> r@[#[trigger] self.plan.order@[k] as int]
                    == sorted@[k],
    {
        unsort(&self.plan.order, sorted, fill)
    }
}

/// The instruction of every prompt.
pub open spec fn instruction() -> Seq<char> {
    "Given a search query, retrieve relevant documents that answer the query"@
}

/// The decoder prompt for a query: asks for a judgment that is yes or no.
pub open spec fn judge_text(q: Seq<char>) -> Seq<char> {
    "<bos><start_of_turn>user\nJudge whether the Document meets the requirements based on the Query and the Instruct provided. Note that the answer can only be \"yes\" or \"no\".\n\n<Instruct>: "@
        + instruction() + "\n<Query>: "@ + q
        + "<end_of_turn>\n<start_of_turn>model\n\n\n\n"@
}

/// The text that the encoder reads for a document.
pub open spec fn document_text(d: Seq<char>) -> Seq<char> {
    "<Document>: "@ + d
}

/// The texts that the encoder reads for documents.
pub open spec fn document_texts(docs: Seq<String>) -> Seq<Seq<char>> {
    Seq::new(docs.len(), |i: int| document_text(docs[i]@))
}

/// The first token ids, as many as are read.
pub open spec fn read_ids(ids: Seq<u32>) -> Seq<u32> {
    if ids.len() < MAX_LEN {
        ids
    } else {
        ids.take(MAX_LEN as int)
    }
}

/// Writes the decoder prompt for a query.
pub fn judge_prompt(q: &str) -> (r: String)
    ensures
        r@ == judge_text(q@),
{
    let mut out =
        "<bos><start_of_turn>user\nJudge whether the Document meets the requirements based on the Query and the Instruct provided. Note that the answer can only be \"yes\" or \"no\".\n\n<Instruct>: ".to_owned();
    out.append("Given a search query, retrieve relevant documents that answer the query");
    out.append("\n<Query>: ");
    out.append(q);
    out.append("<end_of_turn>\n<start_of_turn>model\n\n\n\n");
    out
}

/// Cuts token ids to as many as are read.
pub fn first_ids(ids: &Vec<u32>) -> (r: Vec<u32>)
    ensures
        r@ == read_ids(ids@),
{
    let mut out: Vec<u32> = Vec::new();
    let mut i: usize = 0;
    while i < ids.len() && i < MAX_LEN
        invariant
            i <= ids@.len(),
            i <= MAX_LEN,
            out@ == ids@.take(i as int),
        decreases ids@.len() - i,
    {
        out.push(ids[i]);
        i += 1;
        assert(out@ =~= ids@.take(i as int));
    }
    assert(out@ =~= read_ids(ids@));
    out
}

/// Whether the decoder prompt for `query` can be `text`: the query encoded without
/// special tokens, cut, and decoded again stands in it.
pub open spec fn is_prompt_for(text: Seq<char>, tok: Tokenizer, query: Seq<char>) -> bool {
    exists|ids: Seq<u32>, q: Seq<char>|
        #[trigger] encodes_to(tok, query, false, Ok(ids)) && decoded(tok, read_ids(ids), false)
            == Ok::<Seq<char>, Seq<char>>(q) && text == #[trigger] judge_text(q)
}

/// Writes the decoder prompt for the tokens of a query.
pub fn prompt_of_ids(tok: &Tokenizer, ids: &Vec<u32>) -> (r: Result<String, String>)
    requires
        can_decode_ids(*tok, ids@),
    ensures
        match r {
            Ok(text) => decoded(*tok, ids@, false) matches Ok(q) && text@ == judge_text(q),
            Err(e) => decoded(*tok, ids@, false) matches Err(m) && e@ == "decode query: "@ + m,
        },
{
    match labelled("decode query: ", decode(tok, ids, false)) {
        Ok(q) => Ok(judge_prompt(q.as_str())),
        Err(e) => Err(e),
    }
}

/// Whether the decoder prompt for `query` can be written: whatever the query is encoded
/// to, what is read of it can be decoded.
pub open spec fn can_be_asked(tok: Tokenizer, query: Seq<char>) -> bool {
    forall|ids: Seq<u32>| #[trigger]
        encodes_to(tok, query, false, Ok(ids)) ==> can_decode_ids(tok, read_ids(ids))
}

/// Tokens of a query behind the greatest number that is read are never read: queries
/// that agree up to there have the same prompt.
pub proof fn law_later_query_tokens_are_not_read(
    tok: Tokenizer,
    qa: Seq<char>,
    qb: Seq<char>,
    a: Seq<u32>,
    b: Seq<u32>,
    q: Seq<char>,
)
    requires
        encodes_to(tok, qa, false, Ok(a)),
        encodes_to(tok, qb, false, Ok(b)),
        reads_alike(a, b),
        decoded(tok, read_ids(a), false) == Ok::<Seq<char>, Seq<char>>(q),
    ensures
        read_ids(a) == read_ids(b),
        is_prompt_for(judge_text(q), tok, qa),
        is_prompt_for(judge_text(q), tok, qb),
{
    let (ra, rb) = (read_ids(a), read_ids(b));
    assert forall|i: int| 0 <= i < ra.len() implies ra[i] == rb[i] by {
        assert(a[i] == b[i]);
    }
    assert(ra =~= rb);
}

/// Whether writing the decoder prompt for `query` can fail with `message`.
pub open spec fn is_prompt_failure(message: Seq<char>, tok: Tokenizer, query: Seq<char>) -> bool {
    ||| exists|m: Seq<char>|
        #[trigger] encodes_to(tok, query, false, Err(m)) && message == "tok query: "@ + m
    ||| exists|ids: Seq<u32>|
        #[trigger] encodes_to(tok, query, false, Ok(ids)) && decoded(
            tok,
            read_ids(ids),
            false,
        ) is Err && message == "decode query: "@ + decoded(tok, read_ids(ids), false)->Err_0
}

/// The weight that holds the token embeddings.
pub open spec fn embedding_key() -> WeightKey {
    WeightKey { stack: Stack::Kalm(Side::Encoder), slot: Slot::Embedding }
}

/// Whether a checkpoint with weights of these names has one that is loaded.
pub open spec fn some_kept(names: Seq<String>) -> bool {
    exists|i: int| 0 <= i < names.len() && is_kept(#[trigger] names[i]@)
}

/// Whether a checkpoint with weights of these names has the token embeddings.
pub open spec fn has_embedding(names: Seq<String>) -> bool {
    exists|i: int| 0 <= i < names.len() && #[trigger] names[i]@ == key_name(embedding_key())
}

/// What the token ids of an answer's word are taken for: the last of them, or the
/// message of a failure.
pub open spec fn answer_id_of(
    word: Seq<char>,
    outcome: Result<Seq<u32>, Seq<char>>,
) -> Result<u32, Seq<char>> {
    match outcome {
        Ok(ids) => if ids.len() > 0 {
            Ok(ids.last())
        } else {
            Err("empty "@ + word + " encoding"@)
        },
        Err(m) => Err("tok "@ + word + ": "@ + m),
    }
}

/// Whether the token id of an answer's word can come out as `r`.
pub open spec fn is_answer_id(tok: Tokenizer, word: Seq<char>, r: Result<u32, Seq<char>>) -> bool {
    exists|outcome: Result<Seq<u32>, Seq<char>>|
        #[trigger] encodes_to(tok, word, false, outcome) && r == answer_id_of(word, outcome)
}

/// Takes the last token id of an answer's word from what its encoding gave.
pub fn answer_id(word: &str, outcome: Result<Vec<u32>, String>) -> (r: Result<u32, String>)
    ensures
        match r {
            Ok(id) => answer_id_of(word@, encode_outcome(outcome)) == Ok::<u32, Seq<char>>(id),
            Err(e) => answer_id_of(word@, encode_outcome(outcome)) == Err::<u32, Seq<char>>(e@),
        },
{
    match outcome {
        Ok(ids) => {
            if ids.len() > 0 {
                Ok(ids[ids.len() - 1])
            } else {
                let mut message = "empty ".to_owned();
                message.append(word);
                message.append(" encoding");
                Err(message)
            }
        },
        Err(e) => {
            let mut message = "tok ".to_owned();
            message.append(word);
            message.append(": ");
            message.append(e.as_str());
            Err(message)
        },
    }
}

fn encoded_answer_id(tok: &Tokenizer, word: &str) -> (r: Result<u32, String>)
    requires
        can_encode_text(*tok, word@, false),
    ensures
        match r {
            Ok(id) => is_answer_id(*tok, word@, Ok(id)),
            Err(e) => is_answer_id(*tok, word@, Err(e@)),
        },
{
    let outcome = encode(tok, word, false);
    answer_id(word, outcome)
}

/// The messages of what a checkpoint can lack.
pub open spec fn checkpoint_error(names: Seq<String>) -> Option<Seq<char>> {
    if !some_kept(names) {
        Some("no model.encoder.*/model.decoder.* weights found"@)
    } else if !has_embedding(names) {
        Some("missing "@ + key_name(embedding_key()))
    } else {
        None
    }
}

/// Looks for what a checkpoint with weights of these names lacks.
pub fn check_weights(names: &Vec<String>) -> (r: Option<String>)
    ensures
        match r {
            Some(e) => checkpoint_error(names@) == Some(e@),
            None => checkpoint_error(names@) is None,
        },
{
    let table = weight_name(
        WeightKey { stack: Stack::Kalm(Side::Encoder), slot: Slot::Embedding },
    );
    let mut kept = false;
    let mut embedded = false;
    let mut i: usize = 0;
    while i < names.len()
        invariant
            i <= names@.len(),
            table@ == key_name(embedding_key()),
            kept == exists|j: int| 0 <= j < i && is_kept(#[trigger] names@[j]@),
            embedded == exists|j: int|
                0 <= j < i && #[trigger] names@[j]@ == key_name(embedding_key()),
        decreases names@.len() - i,
    {
        let ghost was_kept = kept;
        let ghost was_embedded = embedded;
        let name = names[i].as_str();
        if keep_weight(name) {
            kept = true;
            assert(is_kept(names@[i as int]@));
        }
        if same_text(name, table.as_str()) {
            embedded = true;
            assert(names@[i as int]@ == key_name(embedding_key()));
        }
        i += 1;
        proof {
            if was_kept {
                let j = choose|j: int| 0 <= j < i - 1 && is_kept(#[trigger] names@[j]@);
                assert(is_kept(names@[j]@));
            }
            if was_embedded {
                let j = choose|j: int|
                    0 <= j < i - 1 && #[trigger] names@[j]@ == key_name(embedding_key());
                assert(names@[j]@ == key_name(embedding_key()));
            }
        }
    }
    if !kept {
        Some("no model.encoder.*/model.decoder.* weights found".to_owned())
    } else if !embedded {
        let mut message = "missing ".to_owned();
        message.append(table.as_str());
        Some(message)
    } else {
        None
    }
}

impl KalmModel {
    /// Whether a model was loaded from a checkpoint with weights of these names, with the
    /// token ids that a tokenizer gives for the two answers.
    pub open spec fn is_loaded(&self, names: Seq<String>, tok: Tokenizer) -> bool {
        &&& checkpoint_error(names) is None
        &&& is_answer_id(tok, "yes"@, Ok(self.yes_id))
        &&& is_answer_id(tok, "no"@, Ok(self.no_id))
    }

    /// Completes a model: checks the names of the checkpoint's weights and finds the
    /// token ids of the two answers.
    pub fn load(cfg: KalmConfig, names: &Vec<String>, tok: &Tokenizer) -> (r: Result<Self, String>)
        requires
            checkpoint_error(names@) is None ==> can_encode_text(*tok, "yes"@, false),
            checkpoint_error(names@) is None ==> can_encode_text(*tok, "no"@, false),
        ensures
            match r {
                Ok(model) => model.cfg == cfg && model.is_loaded(names@, *tok),
                Err(e) => match checkpoint_error(names@) {
                    Some(message) => e@ == message,
                    None => is_answer_id(*tok, "yes"@, Err(e@)) || (is_answer_id(
                        *tok,
                        "no"@,
                        Err(e@),
                    ) && exists|id: u32| is_answer_id(*tok, "yes"@, Ok(id))),
                },
            },
    {
        if let Some(e) = check_weights(names) {
            return Err(e);
        }
        let yes_id = match encoded_answer_id(tok, "yes") {
            Ok(id) => id,
            Err(e) => return Err(e),
        };
        let no_id = match encoded_answer_id(tok, "no") {
            Ok(id) => id,
            Err(e) => return Err(e),
        };
        Ok(KalmModel { cfg, yes_id, no_id })
    }

    /// Writes the decoder prompt for a query, cut to the tokens that are read.
    pub fn dtext(tok: &Tokenizer, query: &str) -> (r: Result<String, String>)
        requires
            can_encode_text(*tok, query@, false),
            can_be_asked(*tok, query@),
        ensures
            match r {
                Ok(text) => is_prompt_for(text@, *tok, query@),
                Err(e) => is_prompt_failure(e@, *tok, query@),
            },
    {
        let ids = match labelled("tok query: ", encode(tok, query, false)) {
            Ok(ids) => ids,
            Err(e) => return Err(e),
        };
        assert(encodes_to(*tok, query@, false, Ok(ids@)));
        let cut = first_ids(&ids);
        prompt_of_ids(tok, &cut)
    }

    /// Writes the decoder prompt for a query; none, where the tokenizer cannot decode
    /// what it encoded the query to.
    pub fn try_dtext(tok: &Tokenizer, query: &str) -> (r: Option<Result<String, String>>)
        requires
            can_encode_text(*tok, query@, false),
        ensures
            match r {
                Some(Ok(text)) => is_prompt_for(text@, *tok, query@),
                Some(Err(e)) => is_prompt_failure(e@, *tok, query@),
                None => exists|ids: Seq<u32>| #[trigger]
                    encodes_to(*tok, query@, false, Ok(ids)) && !can_decode_ids(
                        *tok,
                        read_ids(ids),
                    ),
            },
    {
        let ids = match labelled("tok query: ", encode(tok, query, false)) {
            Ok(ids) => ids,
            Err(e) => return Some(Err(e)),
        };
        assert(encodes_to(*tok, query@, false, Ok(ids@)));
        let cut = first_ids(&ids);
        if !can_decode_these(tok, &cut) {
            return None;
        }
        Some(prompt_of_ids(tok, &cut))
    }

    /// Plans the scoring of encoded documents against an encoded prompt.
    pub fn plan_scores(&self, encs: Vec<Vec<u32>>, dprompt: &Vec<u32>, subb: usize) -> (r:
        ScorePlan)
        requires
            self.cfg.wf(),
            subb > 0,
        ensures
            r.scores_with(self, ids_of(encs@), dprompt@, subb as int),
    {
        let n = encs.len();
        let plan = RunPlan::by_length(encs, subb);
        let mut batches: Vec<Batch> = Vec::new();
        let mut dims: Vec<(i32, i32)> = Vec::new();
        let mut c: usize = 0;
        while c < plan.chunk_idx.len()
            invariant
                c <= plan.chunk_idx@.len(),
                plan.wf(),
                batches@.len() == c,
                dims@ == dims_of(batches@),
                widths_are_read(dims@),
                forall|k: int| 0 <= k < c ==> (#[trigger] batches@[k]).pads(plan.rows(k)),
            decreases plan.chunk_idx@.len() - c,
        {
            let mut ids: Vec<i32> = Vec::new();
            let mut mask: Vec<i32> = Vec::new();
            let (rows, width) = plan.pad(c, &mut ids, &mut mask);
            proof {
                lemma_padded_width_bounds(plan.rows(c as int));
            }
            dims.push((rows as i32, width as i32));
            batches.push(Batch { ids, mask, rows, width });
            assert(dims@ =~= dims_of(batches@));
            c += 1;
        }
        let mut prompt: Vec<i32> = Vec::new();
        let mut i: usize = 0;
        while i < dprompt.len()
            invariant
                i <= dprompt@.len(),
                prompt@ == as_inputs(dprompt@).take(i as int),
            decreases dprompt@.len() - i,
        {
            prompt.push(dprompt[i] as i32);
            i += 1;
            assert(prompt@ =~= as_inputs(dprompt@).take(i as int));
        }
        assert(prompt@ =~= as_inputs(dprompt@));
        let program = self.score_graph(&dims, n as i32, dprompt.len() as i32);
        ScorePlan { plan, batches, prompt, program }
    }

    /// Encodes a query and documents and plans their scoring; no documents need none.
    pub fn score(&self, tok: &Tokenizer, query: &str, docs: &Vec<String>, subb: usize) -> (r:
        Result<Option<ScorePlan>, String>)
        requires
            docs@.len() > 0 ==> self.cfg.wf(),
            docs@.len() > 0 ==> can_be_judged(*tok, query@, docs@),
            docs@.len() > 0 ==> subb > 0,
        ensures
            is_score_outcome(r, self, *tok, query@, docs@, subb as int),
    {
        if docs.len() == 0 {
            return Ok(None);
        }
        let texts = documents(docs);
        let encs = match labelled("tok docs: ", encode_batch(tok, texts, false)) {
            Ok(encs) => encs,
            Err(e) => return Err(e),
        };
        assert(batch_encodes_to(*tok, document_texts(docs@), false, Ok(ids_of(encs@))));
        let dtext = match Self::dtext(tok, query) {
            Ok(text) => text,
            Err(e) => return Err(e),
        };
        let dprompt = match labelled("tok dtext: ", encode(tok, dtext.as_str(), false)) {
            Ok(ids) => ids,
            Err(e) => return Err(e),
        };
        let ghost all = ids_of(encs@);
        let plan = self.plan_scores(encs, &dprompt, subb);
        proof {
            assert(all.len() == docs@.len());
            assert(ids_of(plan.plan.encs@) == all);
            assert(encodes_to(*tok, dtext@, false, Ok(dprompt@)));
            assert(is_prompt_for(dtext@, *tok, query@));
        }
        Ok(Some(plan))
    }

    /// Encodes a query and documents and plans their scoring; none, where the tokenizer
    /// cannot encode a text, or cannot decode what it encoded the query to.
    pub fn try_score(&self, tok: &Tokenizer, query: &str, docs: &Vec<String>, subb: usize) -> (r:
        Option<Result<Option<ScorePlan>, String>>)
        requires
            docs@.len() > 0 ==> self.cfg.wf(),
            docs@.len() > 0 ==> subb > 0,
        ensures
            match r {
                Some(outcome) => is_score_outcome(outcome, self, *tok, query@, docs@, subb as int),
                None => docs@.len() > 0 && !can_be_judged(*tok, query@, docs@),
            },
    {
        if docs.len() == 0 {
            return Some(Ok(None));
        }
        let texts = documents(docs);
        if !can_encode(tok, &texts, false) || !can_encode_one(tok, query, false) {
            return None;
        }
        let encs = match labelled("tok docs: ", encode_batch(tok, texts, false)) {
            Ok(encs) => encs,
            Err(e) => return Some(Err(e)),
        };
        assert(batch_encodes_to(*tok, document_texts(docs@), false, Ok(ids_of(encs@))));
        let dtext = match Self::try_dtext(tok, query) {
            Some(Ok(text)) => text,
            Some(Err(e)) => return Some(Err(e)),
            None => return None,
        };
        if !can_encode_one(tok, dtext.as_str(), false) {
            assert(is_prompt_for(dtext@, *tok, query@));
            return None;
        }
        let dprompt = match labelled("tok dtext: ", encode(tok, dtext.as_str(), false)) {
            Ok(ids) => ids,
            Err(e) => return Some(Err(e)),
        };
        let ghost all = ids_of(encs@);
        let plan = self.plan_scores(encs, &dprompt, subb);
        proof {
            assert(all.len() == docs@.len());
            assert(ids_of(plan.plan.encs@) == all);
            assert(encodes_to(*tok, dtext@, false, Ok(dprompt@)));
            assert(is_prompt_for(dtext@, *tok, query@));
        }
        Some(Ok(Some(plan)))
    }
}

/// Writes the texts that the encoder reads for documents.
fn documents(docs: &Vec<String>) -> (r: Vec<String>)
    ensures
        texts_of(r@) == document_texts(docs@),
{
    let mut texts: Vec<String> = Vec::new();
    let mut i: usize = 0;
    while i < docs.len()
        invariant
            i <= docs@.len(),
            texts@.len() == i,
            forall|j: int| 0 <= j < i ==> (#[trigger] texts@[j])@ == document_text(docs@[j]@),
        decreases docs@.len() - i,
    {
        let mut text = "<Document>: ".to_owned();
        text.append(docs[i].as_str());
        texts.push(text);
        i += 1;
    }
    assert(texts_of(texts@) =~= document_texts(docs@));
    texts
}

/// Whether the tokenizer can encode the documents and the query, decode whatever the
/// query is encoded to, and encode every prompt that comes of it.
pub open spec fn can_be_judged(tok: Tokenizer, query: Seq<char>, docs: Seq<String>) -> bool {
    &&& can_encode_all(tok, document_texts(docs), false)
    &&& can_encode_text(tok, query, false)
    &&& can_be_asked(tok, query)
    &&& forall|text: Seq<char>| #[trigger]
        is_prompt_for(text, tok, query) ==> can_encode_text(tok, text, false)
}

/// Whether planning the scoring of documents can end in `r`.
pub open spec fn is_score_outcome(
    r: Result<Option<ScorePlan>, String>,
    model: &KalmModel,
    tok: Tokenizer,
    query: Seq<char>,
    docs: Seq<String>,
    subb: int,
) -> bool {
    match r {
        Ok(None) => docs.len() == 0,
        Ok(Some(plan)) => {
            &&& docs.len() > 0
            &&& plan.plan.encs@.len() == docs.len()
            &&& batch_encodes_to(tok, document_texts(docs), false, Ok(ids_of(plan.plan.encs@)))
            &&& !pads_batches(tok) ==> encodes_each(
                tok,
                document_texts(docs),
                false,
                ids_of(plan.plan.encs@),
            )
            &&& exists|text: Seq<char>, dprompt: Seq<u32>|
                is_prompt_for(text, tok, query) && #[trigger] encodes_to(
                    tok,
                    text,
                    false,
                    Ok(dprompt),
                ) && plan.scores_with(model, ids_of(plan.plan.encs@), dprompt, subb)
        },
        Err(e) => docs.len() > 0 && is_score_failure(e@, tok, query, docs),
    }
}

/// Whether the documents can be encoded.
pub open spec fn documents_encode(tok: Tokenizer, docs: Seq<String>) -> bool {
    exists|encs: Seq<Seq<u32>>| batch_encodes_to(tok, document_texts(docs), false, Ok(encs))
}

/// Whether planning can fail with `message`: encoding the documents, or, once they
/// are encoded, writing the decoder prompt, or encoding that one. Where the tokenizer
/// does not pad, the failure of documents is one that a document has by itself.
pub open spec fn is_score_failure(
    message: Seq<char>,
    tok: Tokenizer,
    query: Seq<char>,
    docs: Seq<String>,
) -> bool {
    ||| exists|m: Seq<char>|
        #[trigger] batch_encodes_to(tok, document_texts(docs), false, Err(m)) && message
            == "tok docs: "@ + m && (!pads_batches(tok) ==> fails_alone(
            tok,
            document_texts(docs),
            false,
            m,
        ))
    ||| documents_encode(tok, docs) && is_prompt_failure(message, tok, query)
    ||| documents_encode(tok, docs) && exists|text: Seq<char>, m: Seq<char>|
        is_prompt_for(text, tok, query) && #[trigger] encodes_to(tok, text, false, Err(m))
            && message == "tok dtext: "@ + m
}

} // verus!
