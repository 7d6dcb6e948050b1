//! Text to token ids and back, by the crate `tokenizers`.
//!
//! Encoding is not a function of its arguments: a model with dropout merges at
//! random. So the crate's answers are described by relations that hold of every
//! outcome, and what this library does with an answer stands in functions that
//! take it as an argument.

use crate::json::{content_of, lemma_items_are_smaller, Json, JsonView};
use crate::prepare::{added_tokens_fit, can_be_found, normalizer_fits, padding_fits, pads_within};
use crate::prepare::{pre_tokenizer_fits, rewrite_plainly, split_in_time};
use crate::text::same_text;
use serde_json::Value;
use tokenizers::{PaddingStrategy, Tokenizer};
use vstd::prelude::*;

verus! {

/// A tokenizer as read from its `tokenizer.json`.
#[verifier::external_type_specification]
#[verifier::external_body]
pub struct ExTokenizer(tokenizers::Tokenizer);

/// Whether encoding `text` can end in `outcome`: the token ids, or the text of
/// an error. `add_special_tokens` is whether the tokenizer adds its own.
pub uninterp spec fn encodes_to(
    tok: Tokenizer,
    text: Seq<char>,
    add_special_tokens: bool,
    outcome: Result<Seq<u32>, Seq<char>>,
) -> bool;

/// Whether encoding all of `texts` in one call can end in `outcome`.
pub uninterp spec fn batch_encodes_to(
    tok: Tokenizer,
    texts: Seq<Seq<char>>,
    add_special_tokens: bool,
    outcome: Result<Seq<Seq<u32>>, Seq<char>>,
) -> bool;

/// The tokenizer's own padding, if it has one: the length that it pads to, where that
/// is fixed, and the number that every length is made a multiple of.
pub uninterp spec fn padding_of(tok: Tokenizer) -> Option<(Option<usize>, Option<usize>)>;

/// Whether the tokenizer pads what it encodes, and so the shorter texts of a batch.
pub open spec fn pads_batches(tok: Tokenizer) -> bool {
    padding_of(tok) is Some
}

/// Whether `encs` are encodings of `texts`, each one that the text can have by itself.
pub open spec fn encodes_each(
    tok: Tokenizer,
    texts: Seq<Seq<char>>,
    add_special_tokens: bool,
    encs: Seq<Seq<u32>>,
) -> bool {
    &&& encs.len() == texts.len()
    &&& forall|i: int|
        0 <= i < texts.len() ==> #[trigger] encodes_to(
            tok,
            texts[i],
            add_special_tokens,
            Ok(encs[i]),
        )
}

/// Whether encoding one of `texts` by itself can fail with `message`.
pub open spec fn fails_alone(
    tok: Tokenizer,
    texts: Seq<Seq<char>>,
    add_special_tokens: bool,
    message: Seq<char>,
) -> bool {
    exists|i: int|
        0 <= i < texts.len() && encodes_to(
            tok,
            #[trigger] texts[i],
            add_special_tokens,
            Err(message),
        )
}

/// Whether the tokenizer encodes a text alike every time.
pub open spec fn encodes_steadily(tok: Tokenizer, add_special_tokens: bool) -> bool {
    forall|text: Seq<char>, a: Seq<u32>, b: Seq<u32>| #[trigger]
        encodes_to(tok, text, add_special_tokens, Ok(a)) && #[trigger] encodes_to(
            tok,
            text,
            add_special_tokens,
            Ok(b),
        ) ==> a == b
}

/// What decoding `ids` gives: a text, or the text of an error.
pub uninterp spec fn decoded(
    tok: Tokenizer,
    ids: Seq<u32>,
    skip_special_tokens: bool,
) -> Result<Seq<char>, Seq<char>>;

/// The token of an id, if it has one.
pub uninterp spec fn token_of(tok: Tokenizer, id: u32) -> Option<Seq<char>>;

/// The tokenizer's own truncation, if it has one: the greatest length and the stride.
pub uninterp spec fn truncation_of(tok: Tokenizer) -> Option<(usize, usize)>;

/// The number of special tokens that the tokenizer adds to one sequence.
pub uninterp spec fn added_tokens_of(tok: Tokenizer) -> usize;

/// Whether the tokenizer's own truncation leaves room for what it adds and for
/// its stride, so that it can cut a text of any length.
pub open spec fn can_truncate(tok: Tokenizer, add_special_tokens: bool) -> bool {
    match truncation_of(tok) {
        None => true,
        Some((max_length, stride)) => {
            let room = if add_special_tokens {
                max_length - added_tokens_of(tok)
            } else {
                max_length as int
            };
            room == 0 || stride < room
        },
    }
}

/// The tokenizer's normalizer as its file writes it: none, where it has none; without
/// a value, where it cannot be written.
pub uninterp spec fn normalizer_of(tok: Tokenizer) -> Option<Option<JsonView>>;

/// The tokenizer's pre-tokenizer as its file writes it: none, where it has none;
/// without a value, where it cannot be written.
pub uninterp spec fn pre_tokenizer_of(tok: Tokenizer) -> Option<Option<JsonView>>;

/// The list of the tokenizer's added tokens as its file writes it, if it can be written.
pub uninterp spec fn added_vocabulary_of(tok: Tokenizer) -> Option<JsonView>;

/// The tokenizer's post-processor as its file writes it: none, where it has none;
/// without a value, where it cannot be written.
pub uninterp spec fn post_processor_of(tok: Tokenizer) -> Option<Option<JsonView>>;

/// The tokenizer's decoder as its file writes it: none, where it has none; without
/// a value, where it cannot be written.
pub uninterp spec fn decoder_of(tok: Tokenizer) -> Option<Option<JsonView>>;

/// Whether a part of a tokenizer is of the type `name`.
pub open spec fn has_type(v: JsonView, name: Seq<char>) -> bool {
    v.get("type"@) matches Some(t) && t.as_str() == Some(name)
}

/// The members of a chain, which it lists under `key`, if the part is one.
pub open spec fn members(v: JsonView, key: Seq<char>) -> Option<Seq<JsonView>> {
    if has_type(v, "Sequence"@) {
        match v.get(key) {
            Some(list) => list.as_array(),
            None => None,
        }
    } else {
        None
    }
}

/// The steps that a part of a tokenizer takes, one after another: those of every
/// member of a chain, else itself.
pub open spec fn steps_of(v: JsonView, key: Seq<char>) -> Seq<JsonView>
    decreases v,
{
    match members(v, key) {
        Some(items) => {
            proof {
                lemma_items_are_smaller(v, key);
            }
            all_steps_of(items, key)
        },
        None => seq![v],
    }
}

/// The steps of a list of parts, one after another.
pub open spec fn all_steps_of(items: Seq<JsonView>, key: Seq<char>) -> Seq<JsonView>
    decreases items,
{
    if items.len() == 0 {
        seq![]
    } else {
        all_steps_of(items.drop_last(), key) + steps_of(items.last(), key)
    }
}

/// Whether a template has what a piece names: the one sequence that there is, or,
/// where special tokens are added, a special token that the template knows.
pub open spec fn has_piece(special: JsonView, piece: JsonView, add_special_tokens: bool) -> bool {
    match piece.get("Sequence"@) {
        Some(s) => s.get("id"@) matches Some(id) && id.as_str() == Some("A"@),
        None => match piece.get("SpecialToken"@) {
            Some(s) => !add_special_tokens || (s.get("id"@) matches Some(id)
                && id.as_str() matches Some(name) && special.get(name) is Some),
            None => false,
        },
    }
}

/// Whether a template has all that its pieces for one sequence name.
pub open spec fn template_fits(v: JsonView, add_special_tokens: bool) -> bool {
    &&& v.get("single"@) matches Some(list)
    &&& list.as_array() matches Some(pieces)
    &&& v.get("special_tokens"@) matches Some(special)
    &&& forall|i: int|
        0 <= i < pieces.len() ==> has_piece(special, #[trigger] pieces[i], add_special_tokens)
}

/// Whether a step of a post-processor is a template.
pub open spec fn is_template(v: JsonView) -> bool {
    has_type(v, "TemplateProcessing"@)
}

/// Whether a step of a post-processor can process one encoded sequence.
pub open spec fn processes(v: JsonView, add_special_tokens: bool) -> bool {
    ||| has_type(v, "RobertaProcessing"@)
    ||| has_type(v, "BertProcessing"@)
    ||| has_type(v, "ByteLevel"@)
    ||| is_template(v) && template_fits(v, add_special_tokens)
}

/// Whether steps of a post-processor can follow one another: a template takes one
/// encoding and can give many, so there is at most one.
pub open spec fn can_follow(steps: Seq<JsonView>, add_special_tokens: bool) -> bool {
    &&& forall|i: int|
        0 <= i < steps.len() ==> processes(#[trigger] steps[i], add_special_tokens)
    &&& forall|i: int, j: int|
        0 <= i < steps.len() && 0 <= j < steps.len() && is_template(#[trigger] steps[i])
            && is_template(#[trigger] steps[j]) ==> i == j
}

/// Whether the tokenizer's post-processor can process every encoded text.
pub open spec fn can_process(tok: Tokenizer, add_special_tokens: bool) -> bool {
    match post_processor_of(tok) {
        None => true,
        Some(None) => false,
        Some(Some(v)) => can_follow(steps_of(v, "processors"@), add_special_tokens),
    }
}

/// Whether the tokenizer's normalizer ends on every text.
pub open spec fn can_normalize(tok: Tokenizer) -> bool {
    match normalizer_of(tok) {
        None => true,
        Some(None) => false,
        Some(Some(v)) => rewrite_plainly(steps_of(v, "normalizers"@)),
    }
}

/// Whether the tokenizer's pre-tokenizer ends on every text of `len` characters.
pub open spec fn can_split(tok: Tokenizer, len: nat) -> bool {
    match pre_tokenizer_of(tok) {
        None => true,
        Some(None) => false,
        Some(Some(v)) => split_in_time(
            steps_of(v, "pretokenizers"@),
            normalizer_of(tok) is Some,
            len,
        ),
    }
}

/// Whether the tokenizer's added tokens can be found in every text.
pub open spec fn can_find_added(tok: Tokenizer) -> bool {
    added_vocabulary_of(tok) matches Some(v) && can_be_found(v)
}

/// Whether the tokenizer can encode texts, as far as that does not depend on the text.
pub open spec fn can_encode_some(tok: Tokenizer, add_special_tokens: bool) -> bool {
    &&& can_find_added(tok)
    &&& can_normalize(tok)
    &&& can_truncate(tok, add_special_tokens)
    &&& can_process(tok, add_special_tokens)
    &&& pads_within(padding_of(tok))
}

/// Whether the tokenizer can encode `text`.
pub open spec fn can_encode_text(
    tok: Tokenizer,
    text: Seq<char>,
    add_special_tokens: bool,
) -> bool {
    can_encode_some(tok, add_special_tokens) && can_split(tok, text.len())
}

/// Whether the tokenizer can encode each of `texts`.
pub open spec fn can_encode_all(
    tok: Tokenizer,
    texts: Seq<Seq<char>>,
    add_special_tokens: bool,
) -> bool {
    forall|i: int|
        0 <= i < texts.len() ==> can_encode_text(tok, #[trigger] texts[i], add_special_tokens)
}

/// Whether a step of a decoder takes tokens of any kind, and any number of them:
/// one that cuts from the end fails on a short token, one that knows words by
/// their suffix on no tokens, one that searches a pattern on what takes it too long.
pub open spec fn takes_all_tokens(v: JsonView) -> bool {
    ||| has_type(v, "ByteLevel"@)
    ||| has_type(v, "WordPiece"@)
    ||| has_type(v, "Metaspace"@)
    ||| has_type(v, "CTC"@)
    ||| has_type(v, "Fuse"@)
    ||| has_type(v, "ByteFallback"@)
    ||| has_type(v, "Strip"@) && (v.get("stop"@) matches Some(n) && n.as_i64() == Some(0i64))
    ||| has_type(v, "Replace"@) && (v.get("pattern"@) matches Some(p) && p.get("String"@) is Some)
}

/// Whether a step of a decoder knows words by their suffix.
pub open spec fn goes_by_suffix(v: JsonView) -> bool {
    has_type(v, "BPEDecoder"@)
}

/// Whether a step of a decoder can leave no tokens of some.
pub open spec fn drops_tokens(v: JsonView) -> bool {
    has_type(v, "CTC"@)
}

/// Whether steps of a decoder take one or more tokens of any kind: a step that fails
/// on no tokens does not stand behind one that can leave none.
pub open spec fn take_some_tokens(steps: Seq<JsonView>) -> bool {
    &&& forall|i: int|
        0 <= i < steps.len() ==> takes_all_tokens(#[trigger] steps[i]) || goes_by_suffix(steps[i])
    &&& forall|i: int, j: int|
        0 <= j < i < steps.len() && goes_by_suffix(#[trigger] steps[i]) ==> !drops_tokens(
            #[trigger] steps[j],
        )
}

/// Whether the tokenizer can decode ids of which one at least has a token.
pub open spec fn can_decode_some(tok: Tokenizer) -> bool {
    match decoder_of(tok) {
        None => true,
        Some(None) => false,
        Some(Some(v)) => take_some_tokens(steps_of(v, "decoders"@)),
    }
}

/// Whether one of `ids` at least has a token.
pub open spec fn have_token(tok: Tokenizer, ids: Seq<u32>) -> bool {
    exists|i: int| 0 <= i < ids.len() && token_of(tok, #[trigger] ids[i]) is Some
}

/// Whether the tokenizer can decode `ids`, with special tokens kept.
pub open spec fn can_decode_ids(tok: Tokenizer, ids: Seq<u32>) -> bool {
    can_decode_all(tok) || can_decode_some(tok) && have_token(tok, ids)
}

/// Whether the tokenizer can decode any ids.
pub open spec fn can_decode_all(tok: Tokenizer) -> bool {
    match decoder_of(tok) {
        None => true,
        Some(None) => false,
        Some(Some(v)) => {
            let steps = steps_of(v, "decoders"@);
            forall|i: int| 0 <= i < steps.len() ==> takes_all_tokens(#[trigger] steps[i])
        },
    }
}

/// The character views of a list of texts.
pub open spec fn texts_of(texts: Seq<String>) -> Seq<Seq<char>> {
    Seq::new(texts.len(), |i: int| texts[i]@)
}

/// The ids of a list of encodings.
pub open spec fn ids_of(encs: Seq<Vec<u32>>) -> Seq<Seq<u32>> {
    Seq::new(encs.len(), |i: int| encs[i]@)
}

/// An encoding's outcome over views.
pub open spec fn encode_outcome(r: Result<Vec<u32>, String>) -> Result<Seq<u32>, Seq<char>> {
    match r {
        Ok(ids) => Ok(ids@),
        Err(e) => Err(e@),
    }
}

/// A batch's outcome over views.
pub open spec fn batch_outcome(r: Result<Vec<Vec<u32>>, String>) -> Result<
    Seq<Seq<u32>>,
    Seq<char>,
> {
    match r {
        Ok(encs) => Ok(ids_of(encs@)),
        Err(e) => Err(e@),
    }
}

/// A decoding's outcome over views.
pub open spec fn decode_outcome(r: Result<String, String>) -> Result<Seq<char>, Seq<char>> {
    match r {
        Ok(text) => Ok(text@),
        Err(e) => Err(e@),
    }
}

/// `TokenizerImpl::encode` on one text, reduced to the ids. Claimed: the result
/// is one of the outcomes that the crate can give for these arguments. The crate
/// panics where its added tokens claim the same blanks, where a normalizer leaves
/// nothing to align a text with, where the search of a pattern goes back too often,
/// where what is encoded cannot be truncated or processed, and where it is padded
/// beyond what a list can hold; such tokenizers and texts are left out. No model of
/// the crate panics on a text.
#[verifier::external_body]
pub(crate) fn encode(tok: &Tokenizer, text: &str, add_special_tokens: bool) -> (r: Result<
    Vec<u32>,
    String,
>)
    requires
        can_encode_text(*tok, text@, add_special_tokens),
    ensures
        encodes_to(*tok, text@, add_special_tokens, encode_outcome(r)),
{
    let encoding = tok.encode(text, add_special_tokens);
    encoding.map(|e| e.get_ids().to_vec()).map_err(|e| e.to_string())
}

/// `TokenizerImpl::encode_batch`, reduced to the ids. Claimed: the result is one
/// of the outcomes that the crate can give for these arguments, and a successful
/// one holds an encoding for each text, in the order of the texts. Where nothing is
/// padded, every encoding, and the failure, is one that a text has by itself. No
/// texts are encoded without failure. The crate panics on what `encode` panics on,
/// which is left out for each of the texts.
#[verifier::external_body]
pub(crate) fn encode_batch(
    tok: &Tokenizer,
    texts: Vec<String>,
    add_special_tokens: bool,
) -> (r: Result<Vec<Vec<u32>>, String>)
    requires
        can_encode_all(*tok, texts_of(texts@), add_special_tokens),
    ensures
        batch_encodes_to(*tok, texts_of(texts@), add_special_tokens, batch_outcome(r)),
        r matches Ok(encs) ==> encs@.len() == texts@.len(),
        texts@.len() == 0 ==> r is Ok,
        !pads_batches(*tok) ==> match r {
            Ok(encs) => encodes_each(
                *tok,
                texts_of(texts@),
                add_special_tokens,
                ids_of(encs@),
            ),
            Err(e) => fails_alone(*tok, texts_of(texts@), add_special_tokens, e@),
        },
{
    let encodings = tok.encode_batch(texts, add_special_tokens);
    encodings
        .map(|all| all.iter().map(|e| e.get_ids().to_vec()).collect())
        .map_err(|e| e.to_string())
}

/// `TokenizerImpl::decode`. Claimed: the result depends on the arguments alone. A
/// decoder that fails on some tokens is left out, and one that fails on no tokens
/// where none of the ids has one; ids without a token are passed over.
#[verifier::external_body]
pub(crate) fn decode(tok: &Tokenizer, ids: &Vec<u32>, skip_special_tokens: bool) -> (r: Result<
    String,
    String,
>)
    requires
        can_decode_all(*tok) || !skip_special_tokens && can_decode_ids(*tok, ids@),
    ensures
        decode_outcome(r) == decoded(*tok, ids@, skip_special_tokens),
{
    tok.decode(ids, skip_special_tokens).map_err(|e| e.to_string())
}

/// `TokenizerImpl::get_padding`, reduced to the fixed length, if any, and the
/// multiple, if any.
#[verifier::external_body]
fn padding(tok: &Tokenizer) -> (r: Option<(Option<usize>, Option<usize>)>)
    ensures
        r == padding_of(*tok),
{
    tok.get_padding().map(|p| {
        let fixed = match p.strategy {
            PaddingStrategy::Fixed(n) => Some(n),
            PaddingStrategy::BatchLongest => None,
        };
        (fixed, p.pad_to_multiple_of)
    })
}

/// Whether the tokenizer pads what it encodes, and so the shorter texts of a batch.
pub fn pads(tok: &Tokenizer) -> (r: bool)
    ensures
        r == pads_batches(*tok),
{
    padding(tok).is_some()
}

/// `TokenizerImpl::id_to_token`. Claimed: the result depends on the arguments alone.
#[verifier::external_body]
fn token(tok: &Tokenizer, id: u32) -> (r: Option<String>)
    ensures
        match r {
            Some(text) => token_of(*tok, id) == Some(text@),
            None => token_of(*tok, id) is None,
        },
{
    tok.id_to_token(id)
}

/// `TokenizerImpl::get_truncation`, reduced to the greatest length and the stride.
#[verifier::external_body]
fn truncation(tok: &Tokenizer) -> (r: Option<(usize, usize)>)
    ensures
        r == truncation_of(*tok),
{
    tok.get_truncation().map(|t| (t.max_length, t.stride))
}

/// `PostProcessor::added_tokens` of the tokenizer's post-processor for one
/// sequence; without a post-processor nothing is added.
#[verifier::external_body]
fn added_tokens(tok: &Tokenizer) -> (r: usize)
    ensures
        r == added_tokens_of(*tok),
{
    tok.get_post_processor().map_or(0, |p| tokenizers::PostProcessor::added_tokens(p, false))
}

/// `TokenizerImpl::get_normalizer`, written by `serde_json::to_value`. Claimed: whether
/// there is one, and what is written, depends on the tokenizer alone.
#[verifier::external_body]
fn normalizer(tok: &Tokenizer) -> (r: Option<Option<Value>>)
    ensures
        match r {
            None => normalizer_of(*tok) is None,
            Some(None) => normalizer_of(*tok) == Some(None::<JsonView>),
            Some(Some(v)) => normalizer_of(*tok) == Some(Some(content_of(v))),
        },
{
    tok.get_normalizer().map(|n| serde_json::to_value(n).ok())
}

/// `TokenizerImpl::get_pre_tokenizer`, written by `serde_json::to_value`. Claimed:
/// whether there is one, and what is written, depends on the tokenizer alone.
#[verifier::external_body]
fn pre_tokenizer(tok: &Tokenizer) -> (r: Option<Option<Value>>)
    ensures
        match r {
            None => pre_tokenizer_of(*tok) is None,
            Some(None) => pre_tokenizer_of(*tok) == Some(None::<JsonView>),
            Some(Some(v)) => pre_tokenizer_of(*tok) == Some(Some(content_of(v))),
        },
{
    tok.get_pre_tokenizer().map(|p| serde_json::to_value(p).ok())
}

/// `TokenizerImpl::get_added_vocabulary`, written by `serde_json::to_value`: the added
/// tokens in the order of their ids. Claimed: what is written depends on the tokenizer
/// alone.
#[verifier::external_body]
fn added_vocabulary(tok: &Tokenizer) -> (r: Option<Value>)
    ensures
        match r {
            None => added_vocabulary_of(*tok) is None,
            Some(v) => added_vocabulary_of(*tok) == Some(content_of(v)),
        },
{
    serde_json::to_value(tok.get_added_vocabulary()).ok()
}

/// `TokenizerImpl::get_post_processor`, written by `serde_json::to_value`. Claimed:
/// whether there is one, and what is written, depends on the tokenizer alone.
#[verifier::external_body]
fn post_processor(tok: &Tokenizer) -> (r: Option<Option<Value>>)
    ensures
        match r {
            None => post_processor_of(*tok) is None,
            Some(None) => post_processor_of(*tok) == Some(None::<JsonView>),
            Some(Some(v)) => post_processor_of(*tok) == Some(Some(content_of(v))),
        },
{
    tok.get_post_processor().map(|p| serde_json::to_value(p).ok())
}

/// `TokenizerImpl::get_decoder`, written by `serde_json::to_value`. Claimed: whether
/// there is one, and what is written, depends on the tokenizer alone.
#[verifier::external_body]
fn decoder(tok: &Tokenizer) -> (r: Option<Option<Value>>)
    ensures
        match r {
            None => decoder_of(*tok) is None,
            Some(None) => decoder_of(*tok) == Some(None::<JsonView>),
            Some(Some(v)) => decoder_of(*tok) == Some(Some(content_of(v))),
        },
{
    tok.get_decoder().map(|d| serde_json::to_value(d).ok())
}

pub(crate) fn type_is(v: &Json, name: &str) -> (r: bool)
    ensures
        r == has_type(v@, name@),
{
    match v.get("type") {
        Some(t) => match t.as_str() {
            Some(s) => same_text(s.as_str(), name),
            None => false,
        },
        None => false,
    }
}

/// The views of parts of a tokenizer.
pub open spec fn parts_of(parts: Seq<&Json>) -> Seq<JsonView> {
    Seq::new(parts.len(), |i: int| parts[i]@)
}

/// The steps that a part of a tokenizer takes, one after another.
pub fn steps<'a>(v: &'a Json, key: &str) -> (r: Vec<&'a Json>)
    ensures
        parts_of(r@) == steps_of(v@, key@),
    decreases v@,
{
    if type_is(v, "Sequence") {
        if let Some(list) = v.get(key) {
            if let Some(items) = list.as_array() {
                let ghost all = Seq::new(items@.len(), |i: int| items@[i]@);
                proof {
                    lemma_items_are_smaller(v@, key@);
                }
                let mut out: Vec<&'a Json> = Vec::new();
                let mut i: usize = 0;
                while i < items.len()
                    invariant
                        i <= items@.len(),
                        all == Seq::new(items@.len(), |i: int| items@[i]@),
                        decreases_to!(v@ => all),
                        parts_of(out@) == all_steps_of(all.take(i as int), key@),
                    decreases items@.len() - i,
                {
                    assert(decreases_to!(all => all[i as int]));
                    let mut more = steps(&items[i], key);
                    let ghost before = out@;
                    let ghost added = more@;
                    out.append(&mut more);
                    i += 1;
                    proof {
                        assert(all.take(i as int).drop_last() =~= all.take(i - 1));
                        assert(all.take(i as int).last() == all[i - 1]);
                        assert(parts_of(out@) =~= parts_of(before) + parts_of(added));
                    }
                }
                assert(all.take(i as int) =~= all);
                return out;
            }
        }
    }
    let out: Vec<&'a Json> = vec![v];
    assert(parts_of(out@) =~= seq![v@]);
    out
}

fn piece_is_there(special: &Json, piece: &Json, add_special_tokens: bool) -> (r: bool)
    ensures
        r == has_piece(special@, piece@, add_special_tokens),
{
    match piece.get("Sequence") {
        Some(s) => match s.get("id") {
            Some(id) => match id.as_str() {
                Some(name) => same_text(name.as_str(), "A"),
                None => false,
            },
            None => false,
        },
        None => match piece.get("SpecialToken") {
            Some(s) => !add_special_tokens || match s.get("id") {
                Some(id) => match id.as_str() {
                    Some(name) => special.get(name.as_str()).is_some(),
                    None => false,
                },
                None => false,
            },
            None => false,
        },
    }
}

fn template_is_whole(v: &Json, add_special_tokens: bool) -> (r: bool)
    ensures
        r == template_fits(v@, add_special_tokens),
{
    let pieces = match v.get("single") {
        Some(list) => match list.as_array() {
            Some(pieces) => pieces,
            None => return false,
        },
        None => return false,
    };
    let special = match v.get("special_tokens") {
        Some(special) => special,
        None => return false,
    };
    let ghost all = Seq::new(pieces@.len(), |i: int| pieces@[i]@);
    let mut i: usize = 0;
    while i < pieces.len()
        invariant
            i <= pieces@.len(),
            all == Seq::new(pieces@.len(), |i: int| pieces@[i]@),
            v@.get("single"@) matches Some(list) && list.as_array() == Some(all),
            v@.get("special_tokens"@) == Some(special@),
            forall|j: int|
                0 <= j < i ==> has_piece(special@, #[trigger] all[j], add_special_tokens),
        decreases pieces@.len() - i,
    {
        assert(all[i as int] == pieces@[i as int]@);
        if !piece_is_there(special, &pieces[i], add_special_tokens) {
            let ghost listed = v@.get("single"@)->0.as_array()->0;
            assert(!has_piece(special@, listed[i as int], add_special_tokens));
            return false;
        }
        i += 1;
    }
    true
}

fn step_processes(v: &Json, add_special_tokens: bool) -> (r: bool)
    ensures
        r == processes(v@, add_special_tokens),
{
    type_is(v, "RobertaProcessing") || type_is(v, "BertProcessing") || type_is(v, "ByteLevel") || (
    type_is(v, "TemplateProcessing") && template_is_whole(v, add_special_tokens))
}

/// Whether a post-processor, as a tokenizer's file writes it, can process every
/// encoded text.
pub fn post_processor_fits(v: &Json, add_special_tokens: bool) -> (r: bool)
    ensures
        r == can_follow(steps_of(v@, "processors"@), add_special_tokens),
{
    let parts = steps(v, "processors");
    let ghost all = parts_of(parts@);
    let mut templates: usize = 0;
    let ghost mut first: int = 0;
    let mut i: usize = 0;
    while i < parts.len()
        invariant
            i <= parts@.len(),
            all == parts_of(parts@),
            all == steps_of(v@, "processors"@),
            forall|j: int| 0 <= j < i ==> processes(#[trigger] all[j], add_special_tokens),
            templates <= 1,
            templates == 1 ==> 0 <= first < i && is_template(all[first]),
            forall|j: int|
                0 <= j < i && is_template(#[trigger] all[j]) ==> templates == 1 && j == first,
        decreases parts@.len() - i,
    {
        assert(all[i as int] == parts@[i as int]@);
        if !step_processes(parts[i], add_special_tokens) {
            assert(!processes(all[i as int], add_special_tokens));
            return false;
        }
        if type_is(parts[i], "TemplateProcessing") {
            if templates == 1 {
                assert(is_template(all[first]) && is_template(all[i as int]));
                return false;
            }
            templates = 1;
            proof {
                first = i as int;
            }
        }
        i += 1;
    }
    true
}

fn step_takes_all(v: &Json) -> (r: bool)
    ensures
        r == takes_all_tokens(v@),
{
    if type_is(v, "Strip") {
        if let Some(n) = v.get("stop") {
            if n.as_i64() == Some(0) {
                return true;
            }
        }
    }
    if type_is(v, "Replace") {
        if let Some(p) = v.get("pattern") {
            if p.get("String").is_some() {
                return true;
            }
        }
    }
    type_is(v, "ByteLevel") || type_is(v, "WordPiece") || type_is(v, "Metaspace") || type_is(
        v,
        "CTC",
    ) || type_is(v, "Fuse") || type_is(v, "ByteFallback")
}

/// Whether a decoder, as a tokenizer's file writes it, takes any tokens.
pub fn decoder_fits(v: &Json) -> (r: bool)
    ensures
        r == forall|i: int|
            0 <= i < steps_of(v@, "decoders"@).len() ==> takes_all_tokens(
                #[trigger] steps_of(v@, "decoders"@)[i],
            ),
{
    let parts = steps(v, "decoders");
    let ghost all = parts_of(parts@);
    let mut i: usize = 0;
    while i < parts.len()
        invariant
            i <= parts@.len(),
            all == parts_of(parts@),
            all == steps_of(v@, "decoders"@),
            forall|j: int| 0 <= j < i ==> takes_all_tokens(#[trigger] all[j]),
        decreases parts@.len() - i,
    {
        assert(all[i as int] == parts@[i as int]@);
        if !step_takes_all(parts[i]) {
            assert(!takes_all_tokens(steps_of(v@, "decoders"@)[i as int]));
            return false;
        }
        i += 1;
    }
    true
}

/// Whether the tokenizer can decode any ids.
pub fn can_decode(tok: &Tokenizer) -> (r: bool)
    ensures
        r == can_decode_all(*tok),
{
    match decoder(tok) {
        Some(Some(v)) => decoder_fits(&Json::from_value(&v)),
        Some(None) => false,
        None => true,
    }
}

/// Whether a decoder, as a tokenizer's file writes it, takes one or more tokens of any
/// kind.
pub fn decoder_takes_some(v: &Json) -> (r: bool)
    ensures
        r == take_some_tokens(steps_of(v@, "decoders"@)),
{
    let parts = steps(v, "decoders");
    let ghost all = parts_of(parts@);
    let mut drops = false;
    let ghost mut first: int = 0;
    let mut i: usize = 0;
    while i < parts.len()
        invariant
            i <= parts@.len(),
            all == parts_of(parts@),
            all == steps_of(v@, "decoders"@),
            forall|j: int|
                0 <= j < i ==> takes_all_tokens(#[trigger] all[j]) || goes_by_suffix(all[j]),
            drops ==> 0 <= first < i && drops_tokens(all[first]),
            forall|j: int| 0 <= j < i && drops_tokens(#[trigger] all[j]) ==> drops,
            forall|j: int, k: int|
                0 <= j < k < i && goes_by_suffix(#[trigger] all[k]) ==> !drops_tokens(
                    #[trigger] all[j],
                ),
        decreases parts@.len() - i,
    {
        assert(all[i as int] == parts@[i as int]@);
        if type_is(parts[i], "BPEDecoder") {
            assert(goes_by_suffix(all[i as int]));
            if drops {
                assert(drops_tokens(all[first]));
                return false;
            }
        } else if !step_takes_all(parts[i]) {
            assert(!takes_all_tokens(all[i as int]) && !goes_by_suffix(all[i as int]));
            return false;
        }
        if !drops && type_is(parts[i], "CTC") {
            drops = true;
            proof {
                first = i as int;
            }
        }
        i += 1;
    }
    true
}

/// Whether the tokenizer can decode `ids`, with special tokens kept.
pub fn can_decode_these(tok: &Tokenizer, ids: &Vec<u32>) -> (r: bool)
    ensures
        r == can_decode_ids(*tok, ids@),
{
    if can_decode(tok) {
        return true;
    }
    let takes_some = match decoder(tok) {
        Some(Some(v)) => decoder_takes_some(&Json::from_value(&v)),
        Some(None) => false,
        None => true,
    };
    if !takes_some {
        return false;
    }
    let mut i: usize = 0;
    while i < ids.len()
        invariant
            i <= ids@.len(),
            can_decode_some(*tok),
            forall|j: int| 0 <= j < i ==> token_of(*tok, #[trigger] ids@[j]) is None,
        decreases ids@.len() - i,
    {
        if token(tok, ids[i]).is_some() {
            assert(token_of(*tok, ids@[i as int]) is Some);
            return true;
        }
        i += 1;
    }
    false
}

/// Whether the tokenizer can cut a text of any length to its own limit.
fn truncates(tok: &Tokenizer, add_special_tokens: bool) -> (r: bool)
    ensures
        r == can_truncate(*tok, add_special_tokens),
{
    match truncation(tok) {
        None => true,
        Some((max_length, stride)) => {
            if add_special_tokens {
                let added = added_tokens(tok);
                max_length == added || (max_length > added && stride < max_length - added)
            } else {
                max_length == 0 || stride < max_length
            }
        },
    }
}

fn normalizes(tok: &Tokenizer) -> (r: bool)
    ensures
        r == can_normalize(*tok),
{
    match normalizer(tok) {
        Some(Some(v)) => normalizer_fits(&Json::from_value(&v)),
        Some(None) => false,
        None => true,
    }
}

fn splits(tok: &Tokenizer, len: usize) -> (r: bool)
    ensures
        r == can_split(*tok, len as nat),
{
    let rewritten = normalizer(tok).is_some();
    match pre_tokenizer(tok) {
        Some(Some(v)) => pre_tokenizer_fits(&Json::from_value(&v), rewritten, len),
        Some(None) => false,
        None => true,
    }
}

fn processes_all(tok: &Tokenizer, add_special_tokens: bool) -> (r: bool)
    ensures
        r == can_process(*tok, add_special_tokens),
{
    match post_processor(tok) {
        Some(Some(v)) => post_processor_fits(&Json::from_value(&v), add_special_tokens),
        Some(None) => false,
        None => true,
    }
}

fn encodes_some(tok: &Tokenizer, add_special_tokens: bool) -> (r: bool)
    ensures
        r == can_encode_some(*tok, add_special_tokens),
{
    let finds = match added_vocabulary(tok) {
        Some(v) => added_tokens_fit(&Json::from_value(&v)),
        None => false,
    };
    finds && normalizes(tok) && truncates(tok, add_special_tokens) && processes_all(
        tok,
        add_special_tokens,
    ) && padding_fits(padding(tok))
}

/// Whether the tokenizer can encode a text.
pub fn can_encode_one(tok: &Tokenizer, text: &str, add_special_tokens: bool) -> (r: bool)
    ensures
        r == can_encode_text(*tok, text@, add_special_tokens),
{
    encodes_some(tok, add_special_tokens) && splits(tok, text.unicode_len())
}

/// Whether the tokenizer can encode each of a list of texts.
pub fn can_encode(tok: &Tokenizer, texts: &Vec<String>, add_special_tokens: bool) -> (r: bool)
    ensures
        r == can_encode_all(*tok, texts_of(texts@), add_special_tokens),
{
    let ghost all = texts_of(texts@);
    let some = encodes_some(tok, add_special_tokens);
    let mut i: usize = 0;
    while i < texts.len()
        invariant
            i <= texts@.len(),
            all == texts_of(texts@),
            some == can_encode_some(*tok, add_special_tokens),
            forall|j: int|
                0 <= j < i ==> can_encode_text(*tok, #[trigger] all[j], add_special_tokens),
        decreases texts@.len() - i,
    {
        assert(all[i as int] == texts@[i as int]@);
        if !some || !splits(tok, texts[i].as_str().unicode_len()) {
            assert(!can_encode_text(*tok, all[i as int], add_special_tokens));
            return false;
        }
        i += 1;
    }
    true
}

/// Puts the name of a step before the text of its failure; a success is kept.
pub fn labelled<T>(step: &str, outcome: Result<T, String>) -> (r: Result<T, String>)
    ensures
        match outcome {
            Ok(value) => r == Ok::<T, String>(value),
            Err(e) => r matches Err(message) && message@ == step@ + e@,
        },
{
    match outcome {
        Ok(value) => Ok(value),
        Err(e) => {
            let mut message = step.to_owned();
            message.append(e.as_str());
            Err(message)
        },
    }
}

} // verus!
