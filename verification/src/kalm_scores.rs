//! What the encoder-decoder's plan computes, whatever its sub-batches are.

use crate::batch::{all_read_alike, law_later_tokens_are_not_read, lemma_group_cell};
use crate::batch::{lemma_group_place, reads_alike, RunPlan};
use crate::graph::Kind;
use crate::kalm::KalmModel;
use crate::kalm_answers::{law_document_is_judged_by_itself, own_judged_score};
use crate::kalm_joined::{can_be_scored, checkpoint_fits, padded_dims, score_inputs, Checkpoint};
use crate::kalm_score::{as_inputs, dims_of, document_texts, ScorePlan};
use crate::kalm_shapes::{total_rows, Sizes};
use crate::meaning::{counts, ignores_padding, value, Arithmetic};
use crate::order::lemma_permutation_covers;
use crate::plan_shapes::{lemma_rows_before, lemma_sub_batch_rows};
use crate::tokens::{encodes_each, encodes_steadily, encodes_to, ids_of};
use tokenizers::Tokenizer;
use vstd::prelude::*;

verus! {

/// The rows of every sub-batch of a plan.
pub open spec fn batches_of(plan: &RunPlan) -> Seq<Seq<Seq<u32>>> {
    Seq::new(plan.chunk_idx@.len(), |c: int| plan.rows(c))
}

/// Whether `scores` are those of a plan: what its program computes, each score at the
/// place of its document.
pub open spec fn are_scores_of<E>(
    ar: Arithmetic<E>,
    w: Checkpoint<E>,
    plan: &ScorePlan,
    scores: Seq<E>,
) -> bool {
    let t = plan.program.graph@[plan.program.out as int];
    let v = value(ar, score_inputs(ar, w, batches_of(&plan.plan), plan.prompt@), t);
    &&& scores.len() == plan.plan.encs@.len()
    &&& forall|k: int|
        0 <= k < plan.plan.order@.len() ==> scores[#[trigger] plan.plan.order@[k] as int] == (v.at)(
            seq![k],
        )
}

/// The sub-batches of a plan can be scored, and the documents stand in them in order.
proof fn lemma_batches(plan: &RunPlan, k: int)
    requires
        plan.wf(),
        plan.encs@.len() <= i32::MAX,
        0 <= k < plan.order@.len(),
    ensures
        ({
            let batches = batches_of(plan);
            let dims = padded_dims(batches);
            let (c, q) = (k / plan.size as int, k % plan.size as int);
            &&& can_be_scored(batches)
            &&& total_rows(dims) == plan.encs@.len()
            &&& 0 <= c < batches.len()
            &&& 0 <= q < batches[c].len()
            &&& total_rows(dims.take(c)) + q == k
            &&& batches[c][q] == ids_of(plan.encs@)[plan.order@[k] as int]
        }),
{
    let batches = batches_of(plan);
    let dims = padded_dims(batches);
    let size = plan.size as int;
    let (c, q) = (k / size, k % size);
    lemma_group_place(plan.order@, size, k);
    assert forall|j: int| 0 <= j < batches.len() implies 0 < (#[trigger] batches[j]).len()
        <= i32::MAX && dims[j].0 == plan.chunk_idx@[j]@.len() as i32 by {
        lemma_sub_batch_rows(plan, j);
    }
    lemma_rows_before(plan, dims, dims.len() as int);
    assert(dims.take(dims.len() as int) =~= dims);
    lemma_rows_before(plan, dims, c);
    assert(plan.chunk_idx@[c]@[q] == plan.order@[k]);
    lemma_group_cell(plan.order@, size, c, q);
    assert(c * size + q == k) by (nonlinear_arith)
        requires
            c == k / size,
            q == k % size,
            size > 0,
    ;
    let last = batches.len() - 1;
    assert(batches.len() <= i32::MAX) by {
        lemma_sub_batch_rows(plan, last);
        assert(last <= last * size) by (nonlinear_arith)
            requires
                last >= 0,
                size > 0,
        ;
    }
}

/// The program's plan gives every document the score that it has in a batch of its
/// own, for the same prompt. Sub-batches do not show in it.
pub proof fn law_plan_judges_every_document_by_itself<E>(
    ar: Arithmetic<E>,
    w: Checkpoint<E>,
    sizes: Sizes,
    plan: &ScorePlan,
    model: &KalmModel,
    encs: Seq<Seq<u32>>,
    dprompt: Seq<u32>,
    subb: int,
    scores: Seq<E>,
    d: int,
)
    requires
        ignores_padding(ar),
        counts(ar),
        checkpoint_fits(w, &model.cfg, sizes),
        plan.scores_with(model, encs, dprompt, subb),
        0 < encs.len() <= i32::MAX,
        0 < dprompt.len() <= i32::MAX,
        are_scores_of(ar, w, plan, scores),
        0 <= d < encs.len(),
    ensures
        scores[d] == own_judged_score(
            ar,
            w,
            &model.cfg,
            encs[d],
            as_inputs(dprompt),
            model.yes_id as i32,
            model.no_id as i32,
        ),
{
    let batches = batches_of(&plan.plan);
    let dims = padded_dims(batches);
    assert(ids_of(plan.plan.encs@).len() == plan.plan.encs@.len());
    lemma_permutation_covers(plan.plan.order@, plan.plan.encs@.len(), d);
    let k = choose|k: int| 0 <= k < encs.len() && #[trigger] plan.plan.order@[k] == d;
    lemma_batches(&plan.plan, k);
    let size = plan.plan.size as int;
    let (c, q) = (k / size, k % size);
    assert forall|j: int| 0 <= j < dims.len() implies #[trigger] dims[j] == dims_of(
        plan.batches@,
    )[j] by {
        assert(plan.batches@[j].pads(plan.plan.rows(j)));
        assert(batches[j] == plan.plan.rows(j));
    }
    assert(dims =~= dims_of(plan.batches@));
    law_document_is_judged_by_itself(
        ar,
        w,
        &model.cfg,
        sizes,
        batches,
        plan.prompt@,
        model.yes_id as i32,
        model.no_id as i32,
        c,
        q,
    );
}

/// A document's score does not depend on the other documents, nor on their order, nor
/// on the size of the sub-batches: in any two plans for the same prompt, documents with
/// the same tokens have the same score.
pub proof fn law_other_documents_change_no_score<E>(
    ar: Arithmetic<E>,
    w: Checkpoint<E>,
    sizes: Sizes,
    model: &KalmModel,
    a: &ScorePlan,
    b: &ScorePlan,
    ea: Seq<Seq<u32>>,
    eb: Seq<Seq<u32>>,
    dprompt: Seq<u32>,
    ba: int,
    bb: int,
    sa: Seq<E>,
    sb: Seq<E>,
    i: int,
    j: int,
)
    requires
        ignores_padding(ar),
        counts(ar),
        checkpoint_fits(w, &model.cfg, sizes),
        a.scores_with(model, ea, dprompt, ba),
        b.scores_with(model, eb, dprompt, bb),
        0 < ea.len() <= i32::MAX,
        0 < eb.len() <= i32::MAX,
        0 < dprompt.len() <= i32::MAX,
        are_scores_of(ar, w, a, sa),
        are_scores_of(ar, w, b, sb),
        0 <= i < ea.len(),
        0 <= j < eb.len(),
        ea[i] == eb[j],
    ensures
        sa[i] == sb[j],
{
    law_plan_judges_every_document_by_itself(ar, w, sizes, a, model, ea, dprompt, ba, sa, i);
    law_plan_judges_every_document_by_itself(ar, w, sizes, b, model, eb, dprompt, bb, sb, j);
}

/// The size of the sub-batches changes no score.
pub proof fn law_size_changes_no_score<E>(
    ar: Arithmetic<E>,
    w: Checkpoint<E>,
    sizes: Sizes,
    model: &KalmModel,
    a: &ScorePlan,
    b: &ScorePlan,
    encs: Seq<Seq<u32>>,
    dprompt: Seq<u32>,
    ba: int,
    bb: int,
    sa: Seq<E>,
    sb: Seq<E>,
)
    requires
        ignores_padding(ar),
        counts(ar),
        checkpoint_fits(w, &model.cfg, sizes),
        a.scores_with(model, encs, dprompt, ba),
        b.scores_with(model, encs, dprompt, bb),
        0 < encs.len() <= i32::MAX,
        0 < dprompt.len() <= i32::MAX,
        are_scores_of(ar, w, a, sa),
        are_scores_of(ar, w, b, sb),
    ensures
        sa == sb,
{
    assert(ids_of(a.plan.encs@).len() == encs.len() && ids_of(b.plan.encs@).len() == encs.len());
    assert forall|d: int| 0 <= d < sa.len() implies sa[d] == sb[d] by {
        law_plan_judges_every_document_by_itself(ar, w, sizes, a, model, encs, dprompt, ba, sa, d);
        law_plan_judges_every_document_by_itself(ar, w, sizes, b, model, encs, dprompt, bb, sb, d);
    }
    assert(sa =~= sb);
}

/// Neither the order of the documents nor the size of the sub-batches changes a score:
/// where document `d` of one plan is document `pi[d]` of another, so is its score.
pub proof fn law_order_changes_no_score<E>(
    ar: Arithmetic<E>,
    w: Checkpoint<E>,
    sizes: Sizes,
    model: &KalmModel,
    a: &ScorePlan,
    b: &ScorePlan,
    ea: Seq<Seq<u32>>,
    eb: Seq<Seq<u32>>,
    dprompt: Seq<u32>,
    ba: int,
    bb: int,
    sa: Seq<E>,
    sb: Seq<E>,
    pi: Seq<int>,
)
    requires
        ignores_padding(ar),
        counts(ar),
        checkpoint_fits(w, &model.cfg, sizes),
        a.scores_with(model, ea, dprompt, ba),
        b.scores_with(model, eb, dprompt, bb),
        0 < ea.len() <= i32::MAX,
        ea.len() == eb.len(),
        0 < dprompt.len() <= i32::MAX,
        are_scores_of(ar, w, a, sa),
        are_scores_of(ar, w, b, sb),
        pi.len() == ea.len(),
        forall|d: int|
            0 <= d < pi.len() ==> 0 <= #[trigger] pi[d] < pi.len() && ea[d] == eb[pi[d]],
    ensures
        forall|d: int| 0 <= d < pi.len() ==> sa[d] == sb[#[trigger] pi[d]],
{
    assert forall|d: int| 0 <= d < pi.len() implies sa[d] == sb[#[trigger] pi[d]] by {
        let j = pi[d];
        law_plan_judges_every_document_by_itself(ar, w, sizes, a, model, ea, dprompt, ba, sa, d);
        law_plan_judges_every_document_by_itself(ar, w, sizes, b, model, eb, dprompt, bb, sb, j);
    }
}

/// Tokens behind the greatest number that is read do not show in the score of a row.
proof fn lemma_later_tokens<E>(
    ar: Arithmetic<E>,
    w: Checkpoint<E>,
    model: &KalmModel,
    prompt: Seq<i32>,
    a: Seq<u32>,
    b: Seq<u32>,
)
    requires
        reads_alike(a, b),
    ensures
        ({
            let (yes, no) = (model.yes_id as i32, model.no_id as i32);
            own_judged_score(ar, w, &model.cfg, a, prompt, yes, no) == own_judged_score(
                ar,
                w,
                &model.cfg,
                b,
                prompt,
                yes,
                no,
            )
        }),
{
    let (ra, rb) = (seq![a], seq![b]);
    assert(all_read_alike(ra, rb));
    law_later_tokens_are_not_read(ra, rb);
    let (ba, bb) = (seq![ra], seq![rb]);
    assert(padded_dims(ba) =~= padded_dims(bb));
    let (ia, ib) = (score_inputs(ar, w, ba, prompt), score_inputs(ar, w, bb, prompt));
    assert forall|kind: Kind| #[trigger] ia(kind) == ib(kind) by {}
    assert(ia =~= ib);
}

/// Tokens behind the greatest number that is read change no score: for the same prompt,
/// documents that agree up to there have the same scores.
pub proof fn law_later_tokens_change_no_score<E>(
    ar: Arithmetic<E>,
    w: Checkpoint<E>,
    sizes: Sizes,
    model: &KalmModel,
    a: &ScorePlan,
    b: &ScorePlan,
    ea: Seq<Seq<u32>>,
    eb: Seq<Seq<u32>>,
    dprompt: Seq<u32>,
    ba: int,
    bb: int,
    sa: Seq<E>,
    sb: Seq<E>,
)
    requires
        ignores_padding(ar),
        counts(ar),
        checkpoint_fits(w, &model.cfg, sizes),
        a.scores_with(model, ea, dprompt, ba),
        b.scores_with(model, eb, dprompt, bb),
        0 < ea.len() <= i32::MAX,
        0 < dprompt.len() <= i32::MAX,
        all_read_alike(ea, eb),
        are_scores_of(ar, w, a, sa),
        are_scores_of(ar, w, b, sb),
    ensures
        sa == sb,
{
    assert(ids_of(a.plan.encs@).len() == ea.len() && ids_of(b.plan.encs@).len() == eb.len());
    assert forall|d: int| 0 <= d < sa.len() implies sa[d] == sb[d] by {
        law_plan_judges_every_document_by_itself(ar, w, sizes, a, model, ea, dprompt, ba, sa, d);
        law_plan_judges_every_document_by_itself(ar, w, sizes, b, model, eb, dprompt, bb, sb, d);
        assert(reads_alike(ea[d], eb[d]));
        lemma_later_tokens(ar, w, model, as_inputs(dprompt), ea[d], eb[d]);
    }
    assert(sa =~= sb);
}

/// A document's text decides its score: in any two plans for the same prompt, equal
/// texts have equal scores, whatever the other documents, the order and the
/// sub-batches, if only the tokenizer encodes a text alike every time and each text of
/// a batch by itself.
pub proof fn law_text_decides_score<E>(
    ar: Arithmetic<E>,
    w: Checkpoint<E>,
    sizes: Sizes,
    model: &KalmModel,
    tok: Tokenizer,
    a: &ScorePlan,
    b: &ScorePlan,
    docs_a: Seq<String>,
    docs_b: Seq<String>,
    dprompt: Seq<u32>,
    ba: int,
    bb: int,
    sa: Seq<E>,
    sb: Seq<E>,
    i: int,
    j: int,
)
    requires
        ignores_padding(ar),
        counts(ar),
        checkpoint_fits(w, &model.cfg, sizes),
        encodes_steadily(tok, false),
        encodes_each(tok, document_texts(docs_a), false, ids_of(a.plan.encs@)),
        encodes_each(tok, document_texts(docs_b), false, ids_of(b.plan.encs@)),
        a.scores_with(model, ids_of(a.plan.encs@), dprompt, ba),
        b.scores_with(model, ids_of(b.plan.encs@), dprompt, bb),
        docs_a.len() <= i32::MAX,
        docs_b.len() <= i32::MAX,
        0 < dprompt.len() <= i32::MAX,
        are_scores_of(ar, w, a, sa),
        are_scores_of(ar, w, b, sb),
        0 <= i < docs_a.len(),
        0 <= j < docs_b.len(),
        docs_a[i]@ == docs_b[j]@,
    ensures
        sa[i] == sb[j],
{
    let (ta, tb) = (document_texts(docs_a), document_texts(docs_b));
    let (ea, eb) = (ids_of(a.plan.encs@), ids_of(b.plan.encs@));
    assert(ta[i] == tb[j]);
    assert(encodes_to(tok, ta[i], false, Ok(ea[i])));
    assert(encodes_to(tok, tb[j], false, Ok(eb[j])));
    law_other_documents_change_no_score(
        ar,
        w,
        sizes,
        model,
        a,
        b,
        ea,
        eb,
        dprompt,
        ba,
        bb,
        sa,
        sb,
        i,
        j,
    );
}

} // verus!
