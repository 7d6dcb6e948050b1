//! What the plans of both models compute: a score for every document.

use crate::batch::{lemma_group_cell, lemma_group_len, lemma_group_place};
use crate::batch::{lemma_padded_width_bounds, padded_width, RunPlan, MAX_LEN};
use crate::kalm::KalmModel;
use crate::kalm_score::{dims_of, ScorePlan};
use crate::kalm_shapes::{fits_together, inputs, total_rows, Sizes};
use crate::kalm_shapes::law_program_scores_every_document;
use crate::nemotron::forward_term;
use crate::nemotron_shapes;
use crate::nemotron_shapes::law_forward_scores_every_row;
use crate::shapes::shape_of;
use vstd::prelude::*;

verus! {

/// The sub-batches before sub-batch `c` hold all documents before its first.
pub proof fn lemma_rows_before(plan: &RunPlan, dims: Seq<(i32, i32)>, c: int)
    requires
        plan.wf(),
        plan.encs@.len() <= i32::MAX,
        dims.len() == plan.chunk_idx@.len(),
        forall|k: int|
            0 <= k < dims.len() ==> (#[trigger] dims[k]).0 == plan.chunk_idx@[k]@.len() as i32,
        0 <= c <= dims.len(),
    ensures
        total_rows(dims.take(c)) == if c < dims.len() {
            c * plan.size
        } else {
            plan.encs@.len() as int
        },
    decreases c,
{
    let n = plan.order@.len() as int;
    let size = plan.size as int;
    if c == 0 {
        assert(c * size == 0);
        if dims.len() == 0 && n > 0 {
            lemma_group_place(plan.order@, size, 0);
        }
    } else {
        lemma_rows_before(plan, dims, c - 1);
        assert(dims.take(c).drop_last() =~= dims.take(c - 1));
        assert(dims.take(c).last() == dims[c - 1]);
        lemma_sub_batch_rows(plan, c - 1);
        assert(c * size == (c - 1) * size + size) by (nonlinear_arith);
    }
}

/// A sub-batch has a row for each of its documents, and no more rows than there are.
pub proof fn lemma_sub_batch_rows(plan: &RunPlan, c: int)
    requires
        plan.wf(),
        0 <= c < plan.chunk_idx@.len(),
    ensures
        1 <= plan.chunk_idx@[c]@.len() <= plan.encs@.len(),
        c + 1 < plan.chunk_idx@.len() ==> plan.chunk_idx@[c]@.len() == plan.size,
        c + 1 == plan.chunk_idx@.len() ==> c * plan.size + plan.chunk_idx@[c]@.len()
            == plan.encs@.len(),
{
    lemma_group_len(plan.order@, plan.size as int, c);
    if c + 1 < plan.chunk_idx@.len() {
        lemma_group_cell(plan.order@, plan.size as int, c, plan.size - 1);
    }
}

/// The program of a plan gives one score for every document, and every operation
/// in it accepts the arrays that it is applied to.
pub proof fn law_plan_scores_every_document(
    plan: &ScorePlan,
    model: &KalmModel,
    sizes: Sizes,
    encs: Seq<Seq<u32>>,
    dprompt: Seq<u32>,
    subb: int,
)
    requires
        plan.scores_with(model, encs, dprompt, subb),
        fits_together(&model.cfg),
        0 < encs.len() <= i32::MAX,
        0 < dprompt.len() <= i32::MAX,
    ensures
        shape_of(
            plan.program.graph@[plan.program.out as int],
            inputs(&model.cfg, sizes, dims_of(plan.batches@), dprompt.len() as i32),
        ) == Some(seq![encs.len() as int]),
{
    let dims = dims_of(plan.batches@);
    let n = encs.len() as i32;
    assert(plan.plan.encs@.len() == encs.len());
    assert forall|k: int| 0 <= k < dims.len() implies (#[trigger] dims[k]).0
        == plan.plan.chunk_idx@[k]@.len() as i32 && 0 < dims[k].0 && 1 <= dims[k].1 <= MAX_LEN by {
        assert(plan.batches@[k].pads(plan.plan.rows(k)));
        lemma_padded_width_bounds(plan.plan.rows(k));
        lemma_sub_batch_rows(&plan.plan, k);
    }
    lemma_rows_before(&plan.plan, dims, dims.len() as int);
    assert(dims.take(dims.len() as int) =~= dims);
    assert(0 < plan.batches.len() <= usize::MAX);
    law_program_scores_every_document(
        &model.cfg,
        sizes,
        dims,
        n,
        dprompt.len() as i32,
        model.yes_id as i32,
        model.no_id as i32,
    );
}

/// The cross-encoder's forward pass of a padded sub-batch gives one score for every
/// document of that sub-batch.
pub proof fn law_sub_batch_is_scored(plan: &RunPlan, c: int, vocab: int, inner: int)
    requires
        plan.wf(),
        plan.encs@.len() <= i32::MAX,
        0 <= c < plan.chunk_idx@.len(),
    ensures
        ({
            let b = plan.rows(c).len() as i32;
            let s = padded_width(plan.rows(c)) as i32;
            shape_of(
                forward_term(b, s),
                nemotron_shapes::inputs(vocab, inner, b as int, s as int),
            ) == Some(seq![plan.chunk_idx@[c]@.len() as int])
        }),
{
    lemma_sub_batch_rows(plan, c);
    lemma_padded_width_bounds(plan.rows(c));
    law_forward_scores_every_row(
        vocab,
        inner,
        plan.rows(c).len() as i32,
        padded_width(plan.rows(c)) as i32,
    );
}

} // verus!
