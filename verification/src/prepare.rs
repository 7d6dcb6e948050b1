//! What a tokenizer does to a text before its model reads it, as far as it decides
//! whether the text can be encoded.
//!
//! The steps are read as the tokenizer's file writes them. A step is admitted where
//! it ends on every text: it rewrites or cuts at characters or at a literal, or it
//! searches one of two patterns that go back no further than the text is long, in a
//! text that is short against the number of times a search may go back.

use crate::json::{Json, JsonView};
use crate::text::same_text;
use crate::tokens::{has_type, parts_of, steps, steps_of, type_is};
use vstd::prelude::*;

verus! {

/// The most characters of a text in which a pattern is searched. A search may go
/// back ten million times, and the admitted patterns go back about twice a character.
pub const LONGEST_SEARCHED: usize = 1000000;

/// The greatest length that the tokenizer may be told to pad to.
pub const LONGEST_PADDED: usize = 1000000;

/// The text that stands under a key, if one does.
pub open spec fn text_under(v: JsonView, key: Seq<char>) -> Option<Seq<char>> {
    match v.get(key) {
        Some(t) => t.as_str(),
        None => None,
    }
}

/// Whether a text of some length stands under a key.
pub open spec fn has_text(v: JsonView, key: Seq<char>) -> bool {
    text_under(v, key) matches Some(t) && t.len() > 0
}

/// The truth value that stands under a key, if one does.
pub open spec fn flag_under(v: JsonView, key: Seq<char>) -> Option<bool> {
    match v.get(key) {
        Some(JsonView::Bool(b)) => Some(b),
        _ => None,
    }
}

/// Whether a step looks for a literal of some length.
pub open spec fn has_literal(v: JsonView) -> bool {
    v.get("pattern"@) matches Some(p) && has_text(p, "String"@)
}

/// Whether a step of a normalizer puts a text of some length before a text, or in
/// the place of a literal.
pub open spec fn rewrites_plainly(v: JsonView) -> bool {
    ||| has_type(v, "Prepend"@) && has_text(v, "prepend"@)
    ||| has_type(v, "Replace"@) && has_literal(v) && has_text(v, "content"@)
}

/// Whether every step of a normalizer rewrites plainly.
pub open spec fn rewrite_plainly(steps: Seq<JsonView>) -> bool {
    forall|i: int| 0 <= i < steps.len() ==> rewrites_plainly(#[trigger] steps[i])
}

/// Whether a step of a pre-tokenizer cuts at characters of some kind or at a literal,
/// or does not cut.
pub open spec fn splits_plainly(v: JsonView) -> bool {
    ||| has_type(v, "Whitespace"@)
    ||| has_type(v, "WhitespaceSplit"@)
    ||| has_type(v, "Metaspace"@)
    ||| has_type(v, "Digits"@)
    ||| has_type(v, "Punctuation"@)
    ||| has_type(v, "CharDelimiterSplit"@)
    ||| has_type(v, "BertPreTokenizer"@)
    ||| has_type(v, "Split"@) && has_literal(v)
    ||| has_type(v, "ByteLevel"@) && flag_under(v, "use_regex"@) == Some(false)
}

/// The pattern of words, numbers of up to three digits, signs and blanks. Each of its
/// alternatives goes back at most once for a character: over blanks without a line
/// end, and over blanks before a word.
pub open spec fn word_pattern() -> Seq<char> {
    "(?i:'s|'t|'re|'ve|'m|'ll|'d)|[^\\r\\n\\p{L}\\p{N}]?\\p{L}+|\\p{N}{1,3}| ?[^\\s\\p{L}\\p{N}]+[\\r\\n]*|\\s*[\\r\\n]+|\\s+(?!\\S)|\\s+"@
}

/// Whether a step of a pre-tokenizer cuts by a pattern that goes back no further than
/// the text is long: the pattern of words, or the one that a byte-level step has of
/// its own, which goes back over blanks before a word alone.
pub open spec fn searches_briefly(v: JsonView) -> bool {
    ||| has_type(v, "Split"@) && (v.get("pattern"@) matches Some(p) && text_under(p, "Regex"@)
        == Some(word_pattern()))
    ||| has_type(v, "ByteLevel"@) && flag_under(v, "use_regex"@) == Some(true)
}

/// Whether the steps of a pre-tokenizer end on every text of `len` characters: each
/// cuts plainly, but that the first may search briefly in a text that is not too long
/// and that no normalizer has `rewritten`.
pub open spec fn split_in_time(steps: Seq<JsonView>, rewritten: bool, len: nat) -> bool {
    forall|i: int|
        0 <= i < steps.len() ==> splits_plainly(#[trigger] steps[i]) || i == 0 && !rewritten && len
            <= LONGEST_SEARCHED && searches_briefly(steps[i])
}

/// Whether an added token takes the blanks on one side of it, by the name of the side.
pub open spec fn takes_blanks(token: JsonView, side: Seq<char>) -> bool {
    flag_under(token, side) != Some(false)
}

/// Whether added tokens can be found in every text: not, where one takes the blanks
/// on its right that another takes on its left.
pub open spec fn can_be_found(tokens: JsonView) -> bool {
    tokens.as_array() matches Some(items) && ((forall|i: int|
        0 <= i < items.len() ==> !takes_blanks(#[trigger] items[i], "lstrip"@)) || (forall|i: int|
        0 <= i < items.len() ==> !takes_blanks(#[trigger] items[i], "rstrip"@)))
}

/// Whether a tokenizer pads to a length that a list can have, by the fixed length and
/// by the number that every length is made a multiple of.
pub open spec fn pads_within(padding: Option<(Option<usize>, Option<usize>)>) -> bool {
    match padding {
        None => true,
        Some((fixed, multiple)) => {
            &&& fixed matches Some(n) ==> n <= LONGEST_PADDED
            &&& multiple matches Some(n) ==> n <= LONGEST_PADDED
        },
    }
}

fn text_at<'a>(v: &'a Json, key: &str) -> (r: Option<&'a String>)
    ensures
        match r {
            Some(t) => text_under(v@, key@) == Some(t@),
            None => text_under(v@, key@) is None,
        },
{
    match v.get(key) {
        Some(t) => t.as_str(),
        None => None,
    }
}

fn some_text_at(v: &Json, key: &str) -> (r: bool)
    ensures
        r == has_text(v@, key@),
{
    match text_at(v, key) {
        Some(t) => t.as_str().unicode_len() > 0,
        None => false,
    }
}

fn flag_at(v: &Json, key: &str) -> (r: Option<bool>)
    ensures
        r == flag_under(v@, key@),
{
    match v.get(key) {
        Some(Json::Bool(b)) => Some(*b),
        _ => None,
    }
}

fn looks_for_literal(v: &Json) -> (r: bool)
    ensures
        r == has_literal(v@),
{
    match v.get("pattern") {
        Some(p) => some_text_at(p, "String"),
        None => false,
    }
}

fn step_rewrites(v: &Json) -> (r: bool)
    ensures
        r == rewrites_plainly(v@),
{
    (type_is(v, "Prepend") && some_text_at(v, "prepend")) || (type_is(v, "Replace")
        && looks_for_literal(v) && some_text_at(v, "content"))
}

/// Whether a normalizer, as a tokenizer's file writes it, ends on every text.
pub fn normalizer_fits(v: &Json) -> (r: bool)
    ensures
        r == rewrite_plainly(steps_of(v@, "normalizers"@)),
{
    let parts = steps(v, "normalizers");
    let ghost all = parts_of(parts@);
    let mut i: usize = 0;
    while i < parts.len()
        invariant
            i <= parts@.len(),
            all == parts_of(parts@),
            all == steps_of(v@, "normalizers"@),
            forall|j: int| 0 <= j < i ==> rewrites_plainly(#[trigger] all[j]),
        decreases parts@.len() - i,
    {
        assert(all[i as int] == parts@[i as int]@);
        if !step_rewrites(parts[i]) {
            assert(!rewrites_plainly(all[i as int]));
            return false;
        }
        i += 1;
    }
    true
}

fn step_splits(v: &Json) -> (r: bool)
    ensures
        r == splits_plainly(v@),
{
    if type_is(v, "Split") && looks_for_literal(v) {
        return true;
    }
    if type_is(v, "ByteLevel") && flag_at(v, "use_regex") == Some(false) {
        return true;
    }
    step_splits_by_kind(v)
}

fn step_splits_by_kind(v: &Json) -> (r: bool)
    ensures
        r == (has_type(v@, "Whitespace"@) || has_type(v@, "WhitespaceSplit"@) || has_type(
            v@,
            "Metaspace"@,
        ) || has_type(v@, "Digits"@) || has_type(v@, "Punctuation"@) || has_type(
            v@,
            "CharDelimiterSplit"@,
        ) || has_type(v@, "BertPreTokenizer"@)),
{
    type_is(v, "Whitespace") || type_is(v, "WhitespaceSplit") || type_is(v, "Metaspace") || type_is(
        v,
        "Digits",
    ) || type_is(v, "Punctuation") || type_is(v, "CharDelimiterSplit") || type_is(
        v,
        "BertPreTokenizer",
    )
}

fn step_searches(v: &Json) -> (r: bool)
    ensures
        r == searches_briefly(v@),
{
    if type_is(v, "Split") {
        if let Some(p) = v.get("pattern") {
            if let Some(t) = text_at(p, "Regex") {
                if same_text(
                    t.as_str(),
                    "(?i:'s|'t|'re|'ve|'m|'ll|'d)|[^\\r\\n\\p{L}\\p{N}]?\\p{L}+|\\p{N}{1,3}| ?[^\\s\\p{L}\\p{N}]+[\\r\\n]*|\\s*[\\r\\n]+|\\s+(?!\\S)|\\s+",
                ) {
                    return true;
                }
            }
        }
    }
    type_is(v, "ByteLevel") && flag_at(v, "use_regex") == Some(true)
}

/// Whether a pre-tokenizer, as a tokenizer's file writes it, ends on every text of
/// `len` characters, that a normalizer may have `rewritten`.
pub fn pre_tokenizer_fits(v: &Json, rewritten: bool, len: usize) -> (r: bool)
    ensures
        r == split_in_time(steps_of(v@, "pretokenizers"@), rewritten, len as nat),
{
    let parts = steps(v, "pretokenizers");
    let ghost all = parts_of(parts@);
    let mut i: usize = 0;
    while i < parts.len()
        invariant
            i <= parts@.len(),
            all == parts_of(parts@),
            all == steps_of(v@, "pretokenizers"@),
            forall|j: int|
                0 <= j < i ==> splits_plainly(#[trigger] all[j]) || j == 0 && !rewritten && len
                    <= LONGEST_SEARCHED && searches_briefly(all[j]),
        decreases parts@.len() - i,
    {
        assert(all[i as int] == parts@[i as int]@);
        let fits = step_splits(parts[i]) || (i == 0 && !rewritten && len <= LONGEST_SEARCHED
            && step_searches(parts[i]));
        if !fits {
            assert(!splits_plainly(all[i as int]));
            return false;
        }
        i += 1;
    }
    true
}

fn none_takes_blanks(items: &Vec<Json>, side: &str) -> (r: bool)
    ensures
        r == forall|i: int|
            0 <= i < items@.len() ==> !takes_blanks((#[trigger] items@[i])@, side@),
{
    let mut i: usize = 0;
    while i < items.len()
        invariant
            i <= items@.len(),
            forall|j: int| 0 <= j < i ==> !takes_blanks((#[trigger] items@[j])@, side@),
        decreases items@.len() - i,
    {
        if flag_at(&items[i], side) != Some(false) {
            assert(takes_blanks(items@[i as int]@, side@));
            return false;
        }
        i += 1;
    }
    true
}

/// Whether the added tokens of a tokenizer, as its file writes them, can be found in
/// every text.
pub fn added_tokens_fit(v: &Json) -> (r: bool)
    ensures
        r == can_be_found(v@),
{
    match v.as_array() {
        Some(items) => {
            let ghost all = v@.as_array()->0;
            let left = none_takes_blanks(items, "lstrip");
            let right = none_takes_blanks(items, "rstrip");
            proof {
                assert(forall|i: int| 0 <= i < items@.len() ==> #[trigger] all[i] == items@[i]@);
                assert(all.len() == items@.len());
                if !left {
                    let i = choose|i: int|
                        0 <= i < items@.len() && takes_blanks((#[trigger] items@[i])@, "lstrip"@);
                    assert(takes_blanks(all[i], "lstrip"@));
                }
                if !right {
                    let i = choose|i: int|
                        0 <= i < items@.len() && takes_blanks((#[trigger] items@[i])@, "rstrip"@);
                    assert(takes_blanks(all[i], "rstrip"@));
                }
            }
            left || right
        },
        None => false,
    }
}

/// Whether a tokenizer pads to a length that a list can have.
pub fn padding_fits(padding: Option<(Option<usize>, Option<usize>)>) -> (r: bool)
    ensures
        r == pads_within(padding),
{
    match padding {
        None => true,
        Some((fixed, multiple)) => {
            let short = match fixed {
                Some(n) => n <= LONGEST_PADDED,
                None => true,
            };
            let narrow = match multiple {
                Some(n) => n <= LONGEST_PADDED,
                None => true,
            };
            short && narrow
        },
    }
}

} // verus!
