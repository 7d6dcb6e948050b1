//! What the scores of a loaded model are, from the words of the two answers.

use crate::batch::lemma_padded_width_bounds;
use crate::graph::{leaf, unary, Kind, Side, Slot, Stack, WeightKey};
use crate::kalm::{decode_term, KalmModel};
use crate::kalm_answer_values::{holds_batches, law_every_row_asks_the_same_prompt};
use crate::kalm_joined::{checkpoint_fits, padded_dims, score_inputs, Checkpoint};
use crate::kalm_layer_values::holds_checkpoint;
use crate::kalm_score::{all_masks_term, all_pools_term, as_inputs, document_texts, is_prompt_for};
use crate::kalm_score::{is_score_outcome, judge_text, max_chunks, merged_mask_term, read_ids};
use crate::kalm_score::{score_term, ScorePlan};
use crate::kalm_scores::{are_scores_of, law_plan_judges_every_document_by_itself};
use crate::kalm_shapes::{have_rows, total_rows, Sizes};
use crate::links::at1;
use crate::meaning::{counts, ignores_padding, value, Arithmetic, Val};
use crate::tokens::{decoded, encodes_to, ids_of, pads_batches};
use crate::values::{row2, row3};
use tokenizers::Tokenizer;
use vstd::prelude::*;

verus! {

/// The decoder's states on one document by itself: those of the prompt, over the pooled
/// states of the document.
pub open spec fn states_of<E>(
    ar: Arithmetic<E>,
    w: Checkpoint<E>,
    model: &KalmModel,
    row: Seq<u32>,
    prompt: Seq<i32>,
) -> Val<E> {
    let dims = padded_dims(seq![seq![row]]);
    let (td, ne) = (prompt.len() as i32, max_chunks(dims) as i32);
    value(
        ar,
        score_inputs(ar, w, seq![seq![row]], prompt),
        decode_term(
            &model.cfg,
            unary(Kind::Repeat { count: 1, axis: 0 }, leaf(Kind::Prompt)),
            all_pools_term(&model.cfg, dims),
            merged_mask_term(all_masks_term(dims), 1, td, ne),
            1,
            td,
            ne,
        ),
    )
}

/// The score of a document, by a loaded model: the softmax over two logits, at the first.
/// The first is the product of the decoder's state at the end of the prompt, on that
/// document, with the embedding of the last token of the word yes, the second that with
/// the embedding of the last token of the word no.
pub proof fn law_score_is_that_of_the_word_yes<E>(
    ar: Arithmetic<E>,
    w: Checkpoint<E>,
    sizes: Sizes,
    tok: Tokenizer,
    names: Seq<String>,
    plan: &ScorePlan,
    model: &KalmModel,
    encs: Seq<Seq<u32>>,
    dprompt: Seq<u32>,
    subb: int,
    scores: Seq<E>,
    d: int,
)
    requires
        ignores_padding(ar),
        counts(ar),
        checkpoint_fits(w, &model.cfg, sizes),
        model.is_loaded(names, tok),
        model.yes_id < sizes.vocab <= i32::MAX,
        model.no_id < sizes.vocab,
        plan.scores_with(model, encs, dprompt, subb),
        0 < encs.len() <= i32::MAX,
        0 < dprompt.len() <= i32::MAX,
        are_scores_of(ar, w, plan, scores),
        0 <= d < encs.len(),
    ensures
        exists|yes: Seq<u32>, no: Seq<u32>|
            {
                let table = (w.at)(
                    WeightKey { stack: Stack::Kalm(Side::Encoder), slot: Slot::Embedding },
                );
                let last = row3(
                    states_of(ar, w, model, encs[d], as_inputs(dprompt)),
                    0,
                    dprompt.len() - 1,
                );
                &&& #[trigger] encodes_to(tok, "yes"@, false, Ok(yes))
                &&& #[trigger] encodes_to(tok, "no"@, false, Ok(no))
                &&& 0 < yes.len()
                &&& 0 < no.len()
                &&& scores[d] == (ar.soft)(
                    seq![
                        (ar.dot)(last, row2(table, yes.last() as int)),
                        (ar.dot)(last, row2(table, no.last() as int)),
                    ],
                    0,
                )
            },
{
    let cfg = &model.cfg;
    let prompt = as_inputs(dprompt);
    law_plan_judges_every_document_by_itself(
        ar,
        w,
        sizes,
        plan,
        model,
        encs,
        dprompt,
        subb,
        scores,
        d,
    );
    let rows = seq![encs[d]];
    let dims = padded_dims(seq![rows]);
    let env = score_inputs(ar, w, seq![rows], prompt);
    lemma_padded_width_bounds(rows);
    assert(dims.len() == 1 && dims[0].0 == 1);
    assert(dims.drop_last() =~= seq![]);
    assert(total_rows(dims.drop_last()) == 0);
    assert(total_rows(dims) == 1);
    assert(max_chunks(dims.drop_last()) == 0);
    assert(have_rows(dims));
    assert(holds_checkpoint(env, cfg, sizes));
    assert(holds_batches(env, dims));
    let td = prompt.len() as i32;
    law_every_row_asks_the_same_prompt(
        ar,
        env,
        cfg,
        sizes,
        dims,
        1,
        td,
        model.yes_id as i32,
        model.no_id as i32,
    );
    let yes = choose|ids: Seq<u32>| #[trigger]
        encodes_to(tok, "yes"@, false, Ok(ids)) && ids.len() > 0 && ids.last() == model.yes_id;
    let no = choose|ids: Seq<u32>| #[trigger]
        encodes_to(tok, "no"@, false, Ok(ids)) && ids.len() > 0 && ids.last() == model.no_id;
    let table = (w.at)(WeightKey { stack: Stack::Kalm(Side::Encoder), slot: Slot::Embedding });
    let last = row3(states_of(ar, w, model, encs[d], prompt), 0, dprompt.len() - 1);
    assert(encodes_to(tok, "yes"@, false, Ok(yes)));
    assert(encodes_to(tok, "no"@, false, Ok(no)));
    assert(scores[d] == at1(
        value(
            ar,
            env,
            score_term(
                cfg,
                dims,
                1,
                td,
                model.yes_id as i32,
                model.no_id as i32,
            ),
        ),
        0,
    ));
    assert(scores[d] == (ar.soft)(
        seq![
            (ar.dot)(last, row2(table, yes.last() as int)),
            (ar.dot)(last, row2(table, no.last() as int)),
        ],
        0,
    ));
}

/// What a plan reads: of every document its text behind the mark of a document, and of the
/// query what is left when its first tokens, at most 512, are decoded again, between the
/// instruction and the turn of the model; all of it without the tokenizer's own tokens.
pub proof fn law_plan_reads_the_query_and_the_documents(
    model: &KalmModel,
    tok: Tokenizer,
    query: Seq<char>,
    docs: Seq<String>,
    subb: int,
    plan: ScorePlan,
)
    requires
        is_score_outcome(Ok(Some(plan)), model, tok, query, docs, subb),
        !pads_batches(tok),
    ensures
        plan.plan.encs@.len() == docs.len(),
        forall|d: int|
            0 <= d < docs.len() ==> encodes_to(
                tok,
                "<Document>: "@ + docs[d]@,
                false,
                Ok((#[trigger] plan.plan.encs@[d])@),
            ),
        exists|ids: Seq<u32>, q: Seq<char>, dprompt: Seq<u32>|
            {
                &&& #[trigger] encodes_to(tok, query, false, Ok(ids))
                &&& decoded(
                    tok,
                    if ids.len() <= 512 {
                        ids
                    } else {
                        ids.take(512)
                    },
                    false,
                ) == Ok::<Seq<char>, Seq<char>>(q)
                &&& #[trigger] encodes_to(
                    tok,
                    "<bos><start_of_turn>user\nJudge whether the Document meets the requirements based on the Query and the Instruct provided. Note that the answer can only be \"yes\" or \"no\".\n\n<Instruct>: "@
                        + "Given a search query, retrieve relevant documents that answer the query"@
                        + "\n<Query>: "@ + q + "<end_of_turn>\n<start_of_turn>model\n\n\n\n"@,
                    false,
                    Ok(dprompt),
                )
                &&& plan.prompt@.len() == dprompt.len()
                &&& forall|i: int|
                    0 <= i < dprompt.len() ==> #[trigger] plan.prompt@[i] == dprompt[i] as i32
            },
{
    let encs = ids_of(plan.plan.encs@);
    let texts = document_texts(docs);
    assert forall|d: int| 0 <= d < docs.len() implies encodes_to(
        tok,
        "<Document>: "@ + docs[d]@,
        false,
        Ok((#[trigger] plan.plan.encs@[d])@),
    ) by {
        assert(encs[d] == plan.plan.encs@[d]@);
        assert(encodes_to(tok, texts[d], false, Ok(encs[d])));
    }
    let (text, dprompt) = choose|text: Seq<char>, dprompt: Seq<u32>|
        is_prompt_for(text, tok, query) && #[trigger] encodes_to(tok, text, false, Ok(dprompt))
            && plan.scores_with(model, encs, dprompt, subb);
    let (ids, q) = choose|ids: Seq<u32>, q: Seq<char>|
        #[trigger] encodes_to(tok, query, false, Ok(ids)) && decoded(tok, read_ids(ids), false)
            == Ok::<Seq<char>, Seq<char>>(q) && text == #[trigger] judge_text(q);
    assert(ids.len() == 512 ==> ids.take(512) =~= ids);
    assert(encodes_to(tok, judge_text(q), false, Ok(dprompt)));
    assert(plan.prompt@ == as_inputs(dprompt));
}

} // verus!
