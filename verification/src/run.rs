//! Scoring runs of the cross-encoder: from a query and documents to padded
//! sub-batches, and the order in which those are computed and read back.

use crate::batch::{capped_lengths, RunPlan};
use crate::nemotron::{prompt, prompt_text};
use crate::order::{is_stable_order, law_stable_order_is_unique};
use crate::tokens::{batch_encodes_to, can_encode, can_encode_all, encode_batch, encodes_each};
use crate::tokens::{fails_alone, ids_of, labelled, pads_batches, texts_of};
use tokenizers::Tokenizer;
use vstd::prelude::*;

verus! {

/// The default size of a sub-batch: where padding and launches cost the same.
pub const SUB_BATCH: usize = 10;

/// One step of a run, on a sub-batch by its number.
#[derive(Clone, Copy, Debug, PartialEq, Eq, Structural)]
pub enum Step {
    /// Build the forward pass; nothing is computed yet.
    Forward(usize),
    /// Compute the scores of one sub-batch.
    Eval(usize),
    /// Compute the scores of all sub-batches.
    EvalAll,
    /// Read the scores of a computed sub-batch.
    Read(usize),
}

/// All forward passes, one barrier over all of them, then all reads.
pub open spec fn deferred_steps(n: nat) -> Seq<Step> {
    Seq::new(n, |k: int| Step::Forward(k as usize)) + seq![Step::EvalAll] + Seq::new(
        n,
        |k: int| Step::Read(k as usize),
    )
}

/// A barrier and a read behind every forward pass.
pub open spec fn perchunk_steps(n: nat) -> Seq<Step> {
    Seq::new(
        3 * n,
        |p: int|
            if p % 3 == 0 {
                Step::Forward((p / 3) as usize)
            } else if p % 3 == 1 {
                Step::Eval((p / 3) as usize)
            } else {
                Step::Read((p / 3) as usize)
            },
    )
}

/// Whether position `p` of `steps` reads a sub-batch whose forward pass was built
/// and computed before, in this order.
pub open spec fn read_is_ready(steps: Seq<Step>, p: int) -> bool {
    steps[p] matches Step::Read(k) ==> exists|f: int, e: int|
        0 <= f < e < p && #[trigger] steps[f] == Step::Forward(k) && (#[trigger] steps[e]
            == Step::EvalAll || steps[e] == Step::Eval(k))
}

/// Whether `s` stands in `steps` exactly once.
pub open spec fn once(steps: Seq<Step>, s: Step) -> bool {
    &&& exists|p: int| 0 <= p < steps.len() && #[trigger] steps[p] == s
    &&& forall|p: int, q: int|
        0 <= p < steps.len() && 0 <= q < steps.len() && #[trigger] steps[p] == s
            && #[trigger] steps[q] == s ==> p == q
}

/// Whether `steps` builds every sub-batch below `n` once, reads it once, and reads
/// nothing that is not built and computed.
pub open spec fn is_schedule(steps: Seq<Step>, n: nat) -> bool {
    &&& forall|p: int| 0 <= p < steps.len() ==> #[trigger] read_is_ready(steps, p)
    &&& forall|k: usize| k < n ==> #[trigger] once(steps, Step::Forward(k))
    &&& forall|k: usize| k < n ==> #[trigger] once(steps, Step::Read(k))
}

/// The deferred steps build, compute and read every sub-batch once, in a sound order.
pub proof fn law_deferred_is_schedule(n: nat)
    requires
        n <= usize::MAX,
    ensures
        is_schedule(deferred_steps(n), n),
{
    let steps = deferred_steps(n);
    assert(steps[n as int] == Step::EvalAll);
    assert forall|p: int| 0 <= p < steps.len() implies #[trigger] read_is_ready(steps, p) by {
        if p > n {
            let k = p - n - 1;
            assert(steps[p] == Step::Read(k as usize));
            assert(steps[k] == Step::Forward(k as usize));
        }
    }
    assert forall|k: usize| k < n implies #[trigger] once(steps, Step::Forward(k)) by {
        assert(steps[k as int] == Step::Forward(k));
    }
    assert forall|k: usize| k < n implies #[trigger] once(steps, Step::Read(k)) by {
        assert(steps[n + 1 + k] == Step::Read(k));
    }
}

/// The per-chunk steps build, compute and read every sub-batch once, in a sound order.
pub proof fn law_perchunk_is_schedule(n: nat)
    requires
        n <= usize::MAX,
    ensures
        is_schedule(perchunk_steps(n), n),
{
    let steps = perchunk_steps(n);
    assert forall|p: int| 0 <= p < steps.len() implies #[trigger] read_is_ready(steps, p) by {
        if p % 3 == 2 {
            let k = p / 3;
            assert(steps[p - 2] == Step::Forward(k as usize));
            assert(steps[p - 1] == Step::Eval(k as usize));
        }
    }
    assert forall|k: usize| k < n implies #[trigger] once(steps, Step::Forward(k)) by {
        assert(steps[3 * k] == Step::Forward(k));
    }
    assert forall|k: usize| k < n implies #[trigger] once(steps, Step::Read(k)) by {
        assert(steps[3 * k + 2] == Step::Read(k));
    }
}

/// The steps of a deferred run over `n` sub-batches.
pub fn deferred(n: usize) -> (r: Vec<Step>)
    ensures
        r@ == deferred_steps(n as nat),
{
    let mut steps: Vec<Step> = Vec::new();
    let mut k: usize = 0;
    while k < n
        invariant
            k <= n,
            steps@ == Seq::new(k as nat, |k: int| Step::Forward(k as usize)),
        decreases n - k,
    {
        steps.push(Step::Forward(k));
        k += 1;
        assert(steps@ =~= Seq::new(k as nat, |k: int| Step::Forward(k as usize)));
    }
    steps.push(Step::EvalAll);
    let ghost first = steps@;
    k = 0;
    while k < n
        invariant
            k <= n,
            steps@ == first + Seq::new(k as nat, |k: int| Step::Read(k as usize)),
        decreases n - k,
    {
        steps.push(Step::Read(k));
        k += 1;
        assert(steps@ =~= first + Seq::new(k as nat, |k: int| Step::Read(k as usize)));
    }
    assert(steps@ =~= deferred_steps(n as nat));
    steps
}

/// The steps of a run over `n` sub-batches with a barrier behind each.
pub fn perchunk(n: usize) -> (r: Vec<Step>)
    ensures
        r@ == perchunk_steps(n as nat),
{
    let mut steps: Vec<Step> = Vec::new();
    let mut k: usize = 0;
    while k < n
        invariant
            k <= n,
            steps@ == perchunk_steps(k as nat),
        decreases n - k,
    {
        steps.push(Step::Forward(k));
        steps.push(Step::Eval(k));
        steps.push(Step::Read(k));
        assert(steps@ =~= perchunk_steps((k + 1) as nat));
        k += 1;
    }
    steps
}

/// A run that is ready to be performed.
#[derive(Debug)]
pub struct Run {
    /// The encoded documents in length-sorted sub-batches.
    pub plan: RunPlan,
    /// The steps to perform, in order.
    pub steps: Vec<Step>,
}

/// The texts that the model reads for a query and each document.
pub open spec fn prompts_of(q: Seq<char>, docs: Seq<String>) -> Seq<Seq<char>> {
    Seq::new(docs.len(), |i: int| prompt_text(q, docs[i]@))
}

/// Whether `plan` holds an encoding that the tokenizer can give of every prompt,
/// sorted by cut length and grouped by `size`.
pub open spec fn is_plan_of(
    plan: &RunPlan,
    tok: Tokenizer,
    q: Seq<char>,
    docs: Seq<String>,
    size: int,
) -> bool {
    &&& plan.encs@.len() == docs.len()
    &&& batch_encodes_to(tok, prompts_of(q, docs), true, Ok(ids_of(plan.encs@)))
    &&& !pads_batches(tok) ==> encodes_each(tok, prompts_of(q, docs), true, ids_of(plan.encs@))
    &&& is_stable_order(capped_lengths(ids_of(plan.encs@)), plan.order@)
    &&& docs.len() > 0 ==> plan.size == size
    &&& plan.wf()
}

/// Whether `message` reports a failure that the tokenizer can give for the prompts;
/// where it does not pad, for one of them by itself.
pub open spec fn is_failure_of(
    message: Seq<char>,
    tok: Tokenizer,
    q: Seq<char>,
    docs: Seq<String>,
) -> bool {
    exists|m: Seq<char>|
        #[trigger] batch_encodes_to(tok, prompts_of(q, docs), true, Err(m)) && message
            == "tokenize: "@ + m && (!pads_batches(tok) ==> fails_alone(
            tok,
            prompts_of(q, docs),
            true,
            m,
        ))
}

/// Encodes a batch of texts in one call, with the tokenizer's special tokens.
pub fn tokenize_batch(tok: &Tokenizer, texts: Vec<String>) -> (r: Result<Vec<Vec<u32>>, String>)
    requires
        can_encode_all(*tok, texts_of(texts@), true),
    ensures
        match r {
            Ok(encs) => encs@.len() == texts@.len() && batch_encodes_to(
                *tok,
                texts_of(texts@),
                true,
                Ok(ids_of(encs@)),
            ),
            Err(e) => batch_encodes_to(*tok, texts_of(texts@), true, Err(e@)),
        },
        !pads_batches(*tok) ==> match r {
            Ok(encs) => encodes_each(*tok, texts_of(texts@), true, ids_of(encs@)),
            Err(e) => fails_alone(*tok, texts_of(texts@), true, e@),
        },
        texts@.len() == 0 ==> r is Ok,
{
    encode_batch(tok, texts, true)
}

/// Writes the texts that the model reads for a query and each document.
pub fn prompts(q: &str, docs: &Vec<String>) -> (r: Vec<String>)
    ensures
        texts_of(r@) == prompts_of(q@, docs@),
{
    let mut texts: Vec<String> = Vec::new();
    let mut i: usize = 0;
    while i < docs.len()
        invariant
            i <= docs@.len(),
            texts@.len() == i,
            forall|j: int|
                0 <= j < i ==> (#[trigger] texts@[j])@ == prompt_text(q@, docs@[j]@),
        decreases docs@.len() - i,
    {
        texts.push(prompt(q, docs[i].as_str()));
        i += 1;
    }
    assert(texts_of(texts@) =~= prompts_of(q@, docs@));
    texts
}

/// Whether the tokenizer can encode the texts of a run.
pub fn can_run(tok: &Tokenizer, q: &str, docs: &Vec<String>) -> (r: bool)
    ensures
        r == can_encode_all(*tok, prompts_of(q@, docs@), true),
{
    let texts = prompts(q, docs);
    can_encode(tok, &texts, true)
}

/// Encodes all prompts in one call and plans their sub-batches.
fn plan_run(tok: &Tokenizer, q: &str, docs: &Vec<String>, sub_batch: usize) -> (r: Result<
    RunPlan,
    String,
>)
    requires
        can_encode_all(*tok, prompts_of(q@, docs@), true),
        docs@.len() > 0 ==> sub_batch > 0,
    ensures
        match r {
            Ok(plan) => is_plan_of(&plan, *tok, q@, docs@, sub_batch as int),
            Err(e) => is_failure_of(e@, *tok, q@, docs@),
        },
        docs@.len() == 0 ==> r is Ok,
{
    let texts = prompts(q, docs);
    assert(texts_of(texts@).len() == texts@.len());
    match labelled("tokenize: ", tokenize_batch(tok, texts)) {
        Ok(encs) => {
            let size: usize = if docs.len() == 0 {
                1
            } else {
                sub_batch
            };
            Ok(RunPlan::by_capped_length(encs, size))
        },
        Err(e) => Err(e),
    }
}

/// Plans a run that builds every forward pass first and computes them behind one
/// barrier.
pub fn run(tok: &Tokenizer, q: &str, docs: &Vec<String>, sub_batch: usize) -> (r: Result<
    Run,
    String,
>)
    requires
        can_encode_all(*tok, prompts_of(q@, docs@), true),
        docs@.len() > 0 ==> sub_batch > 0,
    ensures
        match r {
            Ok(run) => is_plan_of(&run.plan, *tok, q@, docs@, sub_batch as int) && run.steps@
                == deferred_steps(run.plan.chunk_idx@.len()),
            Err(e) => is_failure_of(e@, *tok, q@, docs@),
        },
        docs@.len() == 0 ==> r is Ok,
{
    match plan_run(tok, q, docs, sub_batch) {
        Ok(plan) => {
            let steps = deferred(plan.chunk_idx.len());
            Ok(Run { plan, steps })
        },
        Err(e) => Err(e),
    }
}

/// Plans a run that computes and reads every sub-batch before the next.
pub fn run_perchunk(tok: &Tokenizer, q: &str, docs: &Vec<String>, sub_batch: usize) -> (r: Result<
    Run,
    String,
>)
    requires
        can_encode_all(*tok, prompts_of(q@, docs@), true),
        docs@.len() > 0 ==> sub_batch > 0,
    ensures
        match r {
            Ok(run) => is_plan_of(&run.plan, *tok, q@, docs@, sub_batch as int) && run.steps@
                == perchunk_steps(run.plan.chunk_idx@.len()),
            Err(e) => is_failure_of(e@, *tok, q@, docs@),
        },
        docs@.len() == 0 ==> r is Ok,
{
    match plan_run(tok, q, docs, sub_batch) {
        Ok(plan) => {
            let steps = perchunk(plan.chunk_idx.len());
            Ok(Run { plan, steps })
        },
        Err(e) => Err(e),
    }
}

/// Plans a run whose sub-batches another thread pads, one after another, while
/// the forward passes of the earlier ones are built: the steps are those of a
/// deferred run.
pub fn run_overlap(tok: &Tokenizer, q: &str, docs: &Vec<String>, sub_batch: usize) -> (r: Result<
    Run,
    String,
>)
    requires
        can_encode_all(*tok, prompts_of(q@, docs@), true),
        docs@.len() > 0 ==> sub_batch > 0,
    ensures
        match r {
            Ok(run) => is_plan_of(&run.plan, *tok, q@, docs@, sub_batch as int) && run.steps@
                == deferred_steps(run.plan.chunk_idx@.len()),
            Err(e) => is_failure_of(e@, *tok, q@, docs@),
        },
        docs@.len() == 0 ==> r is Ok,
{
    run(tok, q, docs, sub_batch)
}

/// The encodings and the size of a sub-batch determine the plan, whichever kind of
/// run it is for: the same order and the same sub-batches, so that deferred,
/// per-chunk and overlapped runs compute the same scores.
pub proof fn law_kinds_of_run_agree(a: &RunPlan, b: &RunPlan)
    requires
        a.wf(),
        b.wf(),
        a.size == b.size,
        ids_of(a.encs@) == ids_of(b.encs@),
        is_stable_order(capped_lengths(ids_of(a.encs@)), a.order@),
        is_stable_order(capped_lengths(ids_of(b.encs@)), b.order@),
    ensures
        a.order@ == b.order@,
        a.chunk_idx@.len() == b.chunk_idx@.len(),
        forall|c: int|
            0 <= c < a.chunk_idx@.len() ==> (#[trigger] a.chunk_idx@[c])@ == b.chunk_idx@[c]@
                && a.rows(c) == b.rows(c),
{
    law_stable_order_is_unique(capped_lengths(ids_of(a.encs@)), a.order@, b.order@);
}

} // verus!
