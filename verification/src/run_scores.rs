//! What a run of the cross-encoder computes, whatever its sub-batches are.

use crate::batch::{all_read_alike, holds, law_each_document_once, law_later_tokens_are_not_read};
use crate::batch::{reads_alike, RunPlan};
use crate::graph::Kind;
use crate::meaning::{ignores_padding, Arithmetic};
use crate::nemotron_rows::{batch_inputs, batch_score, law_row_is_scored_by_itself, own_score};
use crate::nemotron_rows::{weights_fit, Weights};
use crate::plan_shapes::lemma_sub_batch_rows;
use crate::run::{is_plan_of, prompts_of};
use crate::tokens::{encodes_steadily, encodes_to, ids_of, pads_batches};
use tokenizers::Tokenizer;
use vstd::prelude::*;

verus! {

/// Whether `scores` are those of a run: the forward pass of every sub-batch, each
/// score at the place of its document.
pub open spec fn are_scores_of<E>(
    ar: Arithmetic<E>,
    w: Weights<E>,
    plan: &RunPlan,
    scores: Seq<E>,
) -> bool {
    &&& scores.len() == plan.encs@.len()
    &&& forall|c: int, k: int|
        0 <= c < plan.chunk_idx@.len() && 0 <= k < plan.chunk_idx@[c]@.len()
            ==> scores[#[trigger] plan.chunk_idx@[c]@[k] as int] == batch_score(
            ar,
            w,
            plan.rows(c),
            k,
        )
}

/// A run gives every document the score that it has in a batch of its own. Sub-batches
/// do not show in it.
pub proof fn law_run_scores_every_document_by_itself<E>(
    ar: Arithmetic<E>,
    w: Weights<E>,
    plan: &RunPlan,
    scores: Seq<E>,
    vocab: int,
    inner: int,
    d: int,
)
    requires
        ignores_padding(ar),
        weights_fit(w, vocab, inner),
        plan.wf(),
        plan.encs@.len() <= i32::MAX,
        are_scores_of(ar, w, plan, scores),
        0 <= d < plan.encs@.len(),
    ensures
        scores[d] == own_score(ar, w, ids_of(plan.encs@)[d]),
{
    law_each_document_once(plan);
    let groups = plan.chunk_idx@;
    assert(holds(groups, d));
    let (c, k) = choose|c: int, k: int|
        0 <= c < groups.len() && 0 <= k < groups[c]@.len() && #[trigger] groups[c]@[k] == d;
    lemma_sub_batch_rows(plan, c);
    law_row_is_scored_by_itself(ar, w, plan.rows(c), k, vocab, inner);
}

/// A document's score does not depend on the other documents, nor on their order, nor
/// on the size of the sub-batches: in any two runs with the same weights, documents
/// with the same tokens have the same score.
pub proof fn law_other_documents_change_no_score<E>(
    ar: Arithmetic<E>,
    w: Weights<E>,
    a: &RunPlan,
    b: &RunPlan,
    sa: Seq<E>,
    sb: Seq<E>,
    vocab: int,
    inner: int,
    i: int,
    j: int,
)
    requires
        ignores_padding(ar),
        weights_fit(w, vocab, inner),
        a.wf(),
        b.wf(),
        a.encs@.len() <= i32::MAX,
        b.encs@.len() <= i32::MAX,
        are_scores_of(ar, w, a, sa),
        are_scores_of(ar, w, b, sb),
        0 <= i < a.encs@.len(),
        0 <= j < b.encs@.len(),
        a.encs@[i]@ == b.encs@[j]@,
    ensures
        sa[i] == sb[j],
{
    law_run_scores_every_document_by_itself(ar, w, a, sa, vocab, inner, i);
    law_run_scores_every_document_by_itself(ar, w, b, sb, vocab, inner, j);
}

/// The size of the sub-batches changes no score.
pub proof fn law_size_changes_no_score<E>(
    ar: Arithmetic<E>,
    w: Weights<E>,
    a: &RunPlan,
    b: &RunPlan,
    sa: Seq<E>,
    sb: Seq<E>,
    vocab: int,
    inner: int,
)
    requires
        ignores_padding(ar),
        weights_fit(w, vocab, inner),
        a.wf(),
        b.wf(),
        a.encs@.len() <= i32::MAX,
        ids_of(a.encs@) == ids_of(b.encs@),
        are_scores_of(ar, w, a, sa),
        are_scores_of(ar, w, b, sb),
    ensures
        sa == sb,
{
    assert(ids_of(a.encs@).len() == a.encs@.len() && ids_of(b.encs@).len() == b.encs@.len());
    assert forall|d: int| 0 <= d < sa.len() implies sa[d] == sb[d] by {
        law_run_scores_every_document_by_itself(ar, w, a, sa, vocab, inner, d);
        law_run_scores_every_document_by_itself(ar, w, b, sb, vocab, inner, d);
    }
    assert(sa =~= sb);
}

/// Neither the order of the documents nor the size of the sub-batches changes a score:
/// where document `d` of one run is document `pi[d]` of another, so is its score.
pub proof fn law_order_changes_no_score<E>(
    ar: Arithmetic<E>,
    w: Weights<E>,
    a: &RunPlan,
    b: &RunPlan,
    sa: Seq<E>,
    sb: Seq<E>,
    vocab: int,
    inner: int,
    pi: Seq<int>,
)
    requires
        ignores_padding(ar),
        weights_fit(w, vocab, inner),
        a.wf(),
        b.wf(),
        a.encs@.len() <= i32::MAX,
        b.encs@.len() == a.encs@.len(),
        are_scores_of(ar, w, a, sa),
        are_scores_of(ar, w, b, sb),
        pi.len() == a.encs@.len(),
        forall|d: int|
            0 <= d < pi.len() ==> 0 <= #[trigger] pi[d] < pi.len() && a.encs@[d]@
                == b.encs@[pi[d]]@,
    ensures
        forall|d: int| 0 <= d < pi.len() ==> sa[d] == sb[#[trigger] pi[d]],
{
    assert forall|d: int| 0 <= d < pi.len() implies sa[d] == sb[#[trigger] pi[d]] by {
        law_other_documents_change_no_score(ar, w, a, b, sa, sb, vocab, inner, d, pi[d]);
    }
}

/// Tokens behind the greatest number that is read do not show in the score of a row.
proof fn lemma_later_tokens<E>(
    ar: Arithmetic<E>,
    w: Weights<E>,
    a: Seq<u32>,
    b: Seq<u32>,
)
    requires
        reads_alike(a, b),
    ensures
        own_score(ar, w, a) == own_score(ar, w, b),
{
    let (ra, rb) = (seq![a], seq![b]);
    assert(all_read_alike(ra, rb));
    law_later_tokens_are_not_read(ra, rb);
    assert(batch_inputs(ar, w, ra) == batch_inputs(ar, w, rb)) by {
        assert forall|k: Kind| #[trigger]
            batch_inputs(ar, w, ra)(k) == batch_inputs(ar, w, rb)(k) by {}
        assert(batch_inputs(ar, w, ra) =~= batch_inputs(ar, w, rb));
    }
}

/// Tokens behind the greatest number that is read change no score: documents that agree
/// up to there have the same scores.
pub proof fn law_later_tokens_change_no_score<E>(
    ar: Arithmetic<E>,
    w: Weights<E>,
    a: &RunPlan,
    b: &RunPlan,
    sa: Seq<E>,
    sb: Seq<E>,
    vocab: int,
    inner: int,
)
    requires
        ignores_padding(ar),
        weights_fit(w, vocab, inner),
        a.wf(),
        b.wf(),
        a.encs@.len() <= i32::MAX,
        all_read_alike(ids_of(a.encs@), ids_of(b.encs@)),
        are_scores_of(ar, w, a, sa),
        are_scores_of(ar, w, b, sb),
    ensures
        sa == sb,
{
    let (ea, eb) = (ids_of(a.encs@), ids_of(b.encs@));
    assert(ea.len() == a.encs@.len() && eb.len() == b.encs@.len());
    assert forall|d: int| 0 <= d < sa.len() implies sa[d] == sb[d] by {
        law_run_scores_every_document_by_itself(ar, w, a, sa, vocab, inner, d);
        law_run_scores_every_document_by_itself(ar, w, b, sb, vocab, inner, d);
        assert(reads_alike(ea[d], eb[d]));
        lemma_later_tokens(ar, w, ea[d], eb[d]);
    }
    assert(sa =~= sb);
}

/// A document's text decides its score: in any two runs for the same query, equal texts
/// have equal scores, whatever the other documents, the order and the sub-batches, if
/// only the tokenizer encodes a text alike every time and does not pad.
pub proof fn law_text_decides_score<E>(
    ar: Arithmetic<E>,
    w: Weights<E>,
    tok: Tokenizer,
    q: Seq<char>,
    a: &RunPlan,
    b: &RunPlan,
    docs_a: Seq<String>,
    docs_b: Seq<String>,
    size_a: int,
    size_b: int,
    sa: Seq<E>,
    sb: Seq<E>,
    vocab: int,
    inner: int,
    i: int,
    j: int,
)
    requires
        ignores_padding(ar),
        weights_fit(w, vocab, inner),
        encodes_steadily(tok, true),
        !pads_batches(tok),
        is_plan_of(a, tok, q, docs_a, size_a),
        is_plan_of(b, tok, q, docs_b, size_b),
        docs_a.len() <= i32::MAX,
        docs_b.len() <= i32::MAX,
        are_scores_of(ar, w, a, sa),
        are_scores_of(ar, w, b, sb),
        0 <= i < docs_a.len(),
        0 <= j < docs_b.len(),
        docs_a[i]@ == docs_b[j]@,
    ensures
        sa[i] == sb[j],
{
    let (ta, tb) = (prompts_of(q, docs_a), prompts_of(q, docs_b));
    let (ea, eb) = (ids_of(a.encs@), ids_of(b.encs@));
    assert(ta[i] == tb[j]);
    assert(encodes_to(tok, ta[i], true, Ok(ea[i])));
    assert(encodes_to(tok, tb[j], true, Ok(eb[j])));
    assert(a.encs@[i]@ == b.encs@[j]@);
    law_other_documents_change_no_score(ar, w, a, b, sa, sb, vocab, inner, i, j);
}

/// Deferred, per-chunk and overlapped runs score alike: any two plans for the same query
/// and documents, whatever the steps that follow them and the size of the sub-batches,
/// give the same scores, if only the tokenizer encodes a text alike every time and does
/// not pad.
pub proof fn law_kinds_of_run_score_alike<E>(
    ar: Arithmetic<E>,
    w: Weights<E>,
    tok: Tokenizer,
    q: Seq<char>,
    docs: Seq<String>,
    a: &RunPlan,
    b: &RunPlan,
    size_a: int,
    size_b: int,
    sa: Seq<E>,
    sb: Seq<E>,
    vocab: int,
    inner: int,
)
    requires
        ignores_padding(ar),
        weights_fit(w, vocab, inner),
        encodes_steadily(tok, true),
        !pads_batches(tok),
        is_plan_of(a, tok, q, docs, size_a),
        is_plan_of(b, tok, q, docs, size_b),
        docs.len() <= i32::MAX,
        are_scores_of(ar, w, a, sa),
        are_scores_of(ar, w, b, sb),
    ensures
        sa == sb,
{
    assert forall|d: int| 0 <= d < sa.len() implies sa[d] == sb[d] by {
        law_text_decides_score(
            ar,
            w,
            tok,
            q,
            a,
            b,
            docs,
            docs,
            size_a,
            size_b,
            sa,
            sb,
            vocab,
            inner,
            d,
            d,
        );
    }
    assert(sa =~= sb);
}

/// What a run reads of every document: the query and the document in one text, each
/// behind its own word, with the tokenizer's own tokens.
pub proof fn law_run_reads_the_query_with_each_document(
    plan: &RunPlan,
    tok: Tokenizer,
    q: Seq<char>,
    docs: Seq<String>,
    size: int,
)
    requires
        is_plan_of(plan, tok, q, docs, size),
        !pads_batches(tok),
    ensures
        plan.encs@.len() == docs.len(),
        forall|d: int|
            0 <= d < docs.len() ==> encodes_to(
                tok,
                "question:"@ + q + " \n \n passage:"@ + docs[d]@,
                true,
                Ok((#[trigger] plan.encs@[d])@),
            ),
{
    let encs = ids_of(plan.encs@);
    let texts = prompts_of(q, docs);
    assert forall|d: int| 0 <= d < docs.len() implies encodes_to(
        tok,
        "question:"@ + q + " \n \n passage:"@ + docs[d]@,
        true,
        Ok((#[trigger] plan.encs@[d])@),
    ) by {
        assert(encs[d] == plan.encs@[d]@);
        assert(encodes_to(tok, texts[d], true, Ok(encs[d])));
    }
}

} // verus!
