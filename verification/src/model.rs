//! Which model runs: the checkpoint's place in the cache, and its architecture.

use crate::json::{Json, JsonView};
use crate::text::{dash_slashes, dashed, same_text};
use vstd::prelude::*;

verus! {

/// The architectures that there is a forward pass for.
#[derive(Clone, Copy, Debug, PartialEq, Eq, Structural)]
pub enum Architecture {
    /// The bidirectional cross-encoder.
    Nemotron,
    /// The encoder-decoder.
    Kalm,
}

/// The repository of the model that runs where none is chosen.
pub fn default_repo() -> (r: &'static str)
    ensures
        r@ == "nvidia/llama-nemotron-rerank-1b-v2"@,
{
    "nvidia/llama-nemotron-rerank-1b-v2"
}

/// Where below the home directory the snapshots of a repository lie.
pub open spec fn snapshots_path(repo: Seq<char>) -> Seq<char> {
    ".cache/huggingface/hub/models--"@ + dashed(repo) + "/snapshots"@
}

/// Where below the home directory the snapshots of a repository lie: in a directory
/// named by the repository's id, with dashes for its slash.
pub fn snapshots_dir(repo: &str) -> (r: String)
    ensures
        r@ == snapshots_path(repo@),
{
    let mut path = ".cache/huggingface/hub/models--".to_owned();
    path.append(dash_slashes(repo).as_str());
    path.append("/snapshots");
    path
}

/// Whether a list holds a text.
pub open spec fn lists_text(items: Seq<JsonView>, text: Seq<char>) -> bool {
    exists|i: int| 0 <= i < items.len() && (#[trigger] items[i]).as_str() == Some(text)
}

/// Whether a configuration names `text` as its model type.
pub open spec fn has_model_type(v: JsonView, text: Seq<char>) -> bool {
    v.get("model_type"@) matches Some(t) && t.as_str() == Some(text)
}

/// Whether a configuration lists `text` among its architectures.
pub open spec fn has_architecture(v: JsonView, text: Seq<char>) -> bool {
    v.get("architectures"@) matches Some(list) && list.as_array() matches Some(items)
        && lists_text(items, text)
}

/// The architecture that a configuration names, if it is known.
pub open spec fn architecture_of(v: JsonView) -> Option<Architecture> {
    if has_model_type(v, "llama_bidirec"@) {
        Some(Architecture::Nemotron)
    } else if has_model_type(v, "t5gemma2"@) || has_architecture(
        v,
        "T5Gemma2ForConditionalGeneration"@,
    ) {
        Some(Architecture::Kalm)
    } else {
        None
    }
}

fn model_type_is(v: &Json, text: &str) -> (r: bool)
    ensures
        r == has_model_type(v@, text@),
{
    match v.get("model_type") {
        Some(t) => match t.as_str() {
            Some(s) => same_text(s.as_str(), text),
            None => false,
        },
        None => false,
    }
}

fn architectures_list(v: &Json, text: &str) -> (r: bool)
    ensures
        r == has_architecture(v@, text@),
{
    match v.get("architectures") {
        Some(list) => match list.as_array() {
            Some(items) => {
                let ghost all = Seq::new(items@.len(), |i: int| items@[i]@);
                let mut i: usize = 0;
                while i < items.len()
                    invariant
                        i <= items@.len(),
                        all == Seq::new(items@.len(), |i: int| items@[i]@),
                        v@.get("architectures"@) matches Some(list) && list.as_array() == Some(all),
                        forall|j: int|
                            0 <= j < i ==> (#[trigger] all[j]).as_str() != Some(text@),
                    decreases items@.len() - i,
                {
                    assert(all[i as int] == items@[i as int]@);
                    if let Some(s) = items[i].as_str() {
                        if same_text(s.as_str(), text) {
                            return true;
                        }
                    }
                    i += 1;
                }
                false
            },
            None => false,
        },
        None => false,
    }
}

impl Architecture {
    /// Reads off a configuration which architecture the checkpoint has.
    pub fn detect(config: &Json) -> (r: Option<Self>)
        ensures
            r == architecture_of(config@),
    {
        if model_type_is(config, "llama_bidirec") {
            Some(Architecture::Nemotron)
        } else if model_type_is(config, "t5gemma2") || architectures_list(
            config,
            "T5Gemma2ForConditionalGeneration",
        ) {
            Some(Architecture::Kalm)
        } else {
            None
        }
    }
}

proof fn lemma_dashed_joins(a: Seq<char>, b: Seq<char>)
    ensures
        dashed(a + b) == dashed(a) + dashed(b),
    decreases b.len(),
{
    if b.len() == 0 {
        assert(a + b =~= a);
        assert(dashed(a) + dashed(b) =~= dashed(a));
    } else {
        lemma_dashed_joins(a, b.drop_last());
        assert((a + b).drop_last() =~= a + b.drop_last());
        assert((a + b).last() == b.last());
        assert(dashed(a + b) =~= dashed(a) + dashed(b));
    }
}

proof fn lemma_dashed_keeps(s: Seq<char>)
    requires
        forall|i: int| 0 <= i < s.len() ==> #[trigger] s[i] != '/',
    ensures
        dashed(s) == s,
    decreases s.len(),
{
    if s.len() > 0 {
        lemma_dashed_keeps(s.drop_last());
        assert(s.drop_last() + seq![s.last()] =~= s);
    }
}

/// The snapshots of `<org>/<name>` lie in `models--<org>--<name>`.
pub proof fn law_snapshots_of_any_repository(org: Seq<char>, name: Seq<char>)
    requires
        forall|i: int| 0 <= i < org.len() ==> #[trigger] org[i] != '/',
        forall|i: int| 0 <= i < name.len() ==> #[trigger] name[i] != '/',
    ensures
        snapshots_path(org + "/"@ + name) == ".cache/huggingface/hub/models--"@ + (org + "--"@
            + name) + "/snapshots"@,
{
    reveal_strlit("/");
    reveal_strlit("--");
    lemma_dashed_joins(org + "/"@, name);
    lemma_dashed_joins(org, "/"@);
    lemma_dashed_keeps(org);
    lemma_dashed_keeps(name);
    assert("/"@.drop_last() =~= seq![]);
    assert(dashed("/"@.drop_last()) =~= seq![]);
    assert(dashed("/"@) =~= "--"@);
}

} // verus!
