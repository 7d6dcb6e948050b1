//! The names of weights in a checkpoint, and which of them are loaded.

use crate::graph::{Part, Side, Slot, Stack, WeightKey};
use crate::text::{append_decimal, begins_with, contains_part, ends_in};
use crate::text::{decimal, has_part, is_digit, is_prefix, is_suffix, lemma_decimal, stands_at};
use vstd::prelude::*;

verus! {

/// What the names of a stack's weights begin with.
pub open spec fn stack_prefix(stack: Stack) -> Seq<char> {
    match stack {
        Stack::Nemotron => "model."@,
        Stack::Kalm(Side::Encoder) => "model.encoder."@,
        Stack::Kalm(Side::Decoder) => "model.decoder."@,
    }
}

/// The name of a weight within its layer.
pub open spec fn part_suffix(part: Part) -> Seq<char> {
    match part {
        Part::InputNorm => "input_layernorm.weight"@,
        Part::PostAttentionNorm => "post_attention_layernorm.weight"@,
        Part::PreSelfAttnNorm => "pre_self_attn_layernorm.weight"@,
        Part::PostSelfAttnNorm => "post_self_attn_layernorm.weight"@,
        Part::PreFeedforwardNorm => "pre_feedforward_layernorm.weight"@,
        Part::PostFeedforwardNorm => "post_feedforward_layernorm.weight"@,
        Part::QProj => "self_attn.q_proj.weight"@,
        Part::KProj => "self_attn.k_proj.weight"@,
        Part::VProj => "self_attn.v_proj.weight"@,
        Part::OProj => "self_attn.o_proj.weight"@,
        Part::QNorm => "self_attn.q_norm.weight"@,
        Part::KNorm => "self_attn.k_norm.weight"@,
        Part::GateProj => "mlp.gate_proj.weight"@,
        Part::UpProj => "mlp.up_proj.weight"@,
        Part::DownProj => "mlp.down_proj.weight"@,
    }
}

/// The name of a weight in its checkpoint.
pub open spec fn key_name(key: WeightKey) -> Seq<char> {
    match key.slot {
        Slot::Embedding => stack_prefix(key.stack) + "embed_tokens.weight"@,
        Slot::FinalNorm => stack_prefix(key.stack) + "norm.weight"@,
        Slot::ScoreHead => "score.weight"@,
        Slot::Layer(i, part) => stack_prefix(key.stack) + "layers."@ + decimal(i as nat) + "."@
            + part_suffix(part),
    }
}

fn part_text(part: Part) -> (r: &'static str)
    ensures
        r@ == part_suffix(part),
{
    match part {
        Part::InputNorm => "input_layernorm.weight",
        Part::PostAttentionNorm => "post_attention_layernorm.weight",
        Part::PreSelfAttnNorm => "pre_self_attn_layernorm.weight",
        Part::PostSelfAttnNorm => "post_self_attn_layernorm.weight",
        Part::PreFeedforwardNorm => "pre_feedforward_layernorm.weight",
        Part::PostFeedforwardNorm => "post_feedforward_layernorm.weight",
        Part::QProj => "self_attn.q_proj.weight",
        Part::KProj => "self_attn.k_proj.weight",
        Part::VProj => "self_attn.v_proj.weight",
        Part::OProj => "self_attn.o_proj.weight",
        Part::QNorm => "self_attn.q_norm.weight",
        Part::KNorm => "self_attn.k_norm.weight",
        Part::GateProj => "mlp.gate_proj.weight",
        Part::UpProj => "mlp.up_proj.weight",
        Part::DownProj => "mlp.down_proj.weight",
    }
}

/// Writes the name of a weight in its checkpoint.
pub fn weight_name(key: WeightKey) -> (r: String)
    ensures
        r@ == key_name(key),
{
    let prefix: &str = match key.stack {
        Stack::Nemotron => "model.",
        Stack::Kalm(Side::Encoder) => "model.encoder.",
        Stack::Kalm(Side::Decoder) => "model.decoder.",
    };
    let mut name = prefix.to_owned();
    match key.slot {
        Slot::Embedding => {
            name.append("embed_tokens.weight");
        },
        Slot::FinalNorm => {
            name.append("norm.weight");
        },
        Slot::ScoreHead => {
            return "score.weight".to_owned();
        },
        Slot::Layer(i, part) => {
            name.append("layers.");
            append_decimal(&mut name, i);
            name.append(".");
            name.append(part_text(part));
        },
    }
    name
}

/// Whether a weight of the encoder-decoder checkpoint is loaded: those of the two
/// stacks, but not those of the image tower or of its projector.
pub open spec fn is_kept(name: Seq<char>) -> bool {
    &&& !has_part(name, "vision_tower"@)
    &&& !has_part(name, "multi_modal"@)
    &&& is_prefix(name, "model.encoder."@) || is_prefix(name, "model.decoder."@)
}

/// Whether a weight of the encoder-decoder checkpoint is loaded.
pub fn keep_weight(name: &str) -> (r: bool)
    ensures
        r == is_kept(name@),
{
    if contains_part(name, "vision_tower") || contains_part(name, "multi_modal") {
        return false;
    }
    begins_with(name, "model.encoder.") || begins_with(name, "model.decoder.")
}

/// Whether a file name has the extension of weight files. A name that is nothing
/// but the extension has none.
pub open spec fn is_weight_file_name(name: Seq<char>) -> bool {
    is_suffix(name, ".safetensors"@) && name != ".safetensors"@
}

/// Whether a file name has the extension of weight files.
pub fn is_weight_file(name: &str) -> (r: bool)
    ensures
        r == is_weight_file_name(name@),
{
    ends_in(name, ".safetensors") && !crate::text::same_text(name, ".safetensors")
}

/// Whether neither of the pairs that begin the two excluded names stands in `s`.
spec fn has_no_start(s: Seq<char>) -> bool {
    forall|p: int|
        0 <= p < s.len() - 1 ==> !(s[p] == 'v' && #[trigger] s[p + 1] == 'i') && !(s[p] == 'm'
            && s[p + 1] == 'u')
}

proof fn lemma_no_start_joins(a: Seq<char>, b: Seq<char>)
    requires
        has_no_start(a),
        has_no_start(b),
        a.len() > 0 ==> a.last() != 'v' && a.last() != 'm',
    ensures
        has_no_start(a + b),
{
    let s = a + b;
    assert forall|p: int| 0 <= p < s.len() - 1 implies !(s[p] == 'v' && #[trigger] s[p + 1] == 'i')
        && !(s[p] == 'm' && s[p + 1] == 'u') by {
        if p + 1 < a.len() {
            assert(s[p] == a[p] && s[p + 1] == a[p + 1]);
        } else if p >= a.len() {
            let q = p - a.len();
            assert(s[p] == b[q] && s[p + 1] == b[q + 1]);
        }
    }
}

proof fn lemma_no_start_excludes(s: Seq<char>)
    requires
        has_no_start(s),
    ensures
        !has_part(s, "vision_tower"@),
        !has_part(s, "multi_modal"@),
{
    reveal_strlit("vision_tower");
    reveal_strlit("multi_modal");
    if has_part(s, "vision_tower"@) {
        let at = choose|at: int| #[trigger] stands_at(s, "vision_tower"@, at);
        assert(s.subrange(at, at + "vision_tower"@.len())[0] == 'v');
        assert(s.subrange(at, at + "vision_tower"@.len())[1] == 'i');
        assert(s[at + 1] == 'i');
    }
    if has_part(s, "multi_modal"@) {
        let at = choose|at: int| #[trigger] stands_at(s, "multi_modal"@, at);
        assert(s.subrange(at, at + "multi_modal"@.len())[0] == 'm');
        assert(s.subrange(at, at + "multi_modal"@.len())[1] == 'u');
        assert(s[at + 1] == 'u');
    }
}

proof fn lemma_part_has_no_start(part: Part)
    ensures
        has_no_start(part_suffix(part)),
{
    match part {
        Part::InputNorm => {
            reveal_strlit("input_layernorm.weight");
        },
        Part::PostAttentionNorm => {
            reveal_strlit("post_attention_layernorm.weight");
        },
        Part::PreSelfAttnNorm => {
            reveal_strlit("pre_self_attn_layernorm.weight");
        },
        Part::PostSelfAttnNorm => {
            reveal_strlit("post_self_attn_layernorm.weight");
        },
        Part::PreFeedforwardNorm => {
            reveal_strlit("pre_feedforward_layernorm.weight");
        },
        Part::PostFeedforwardNorm => {
            reveal_strlit("post_feedforward_layernorm.weight");
        },
        Part::QProj => {
            reveal_strlit("self_attn.q_proj.weight");
        },
        Part::KProj => {
            reveal_strlit("self_attn.k_proj.weight");
        },
        Part::VProj => {
            reveal_strlit("self_attn.v_proj.weight");
        },
        Part::OProj => {
            reveal_strlit("self_attn.o_proj.weight");
        },
        Part::QNorm => {
            reveal_strlit("self_attn.q_norm.weight");
        },
        Part::KNorm => {
            reveal_strlit("self_attn.k_norm.weight");
        },
        Part::GateProj => {
            reveal_strlit("mlp.gate_proj.weight");
        },
        Part::UpProj => {
            reveal_strlit("mlp.up_proj.weight");
        },
        Part::DownProj => {
            reveal_strlit("mlp.down_proj.weight");
        },
    }
}

/// The loader keeps every weight that the two stacks of the encoder-decoder read.
pub proof fn law_read_weights_are_kept(key: WeightKey)
    requires
        key.stack is Kalm,
        key.slot !is ScoreHead,
    ensures
        is_kept(key_name(key)),
{
    let prefix = stack_prefix(key.stack);
    reveal_strlit("model.encoder.");
    reveal_strlit("model.decoder.");
    assert(has_no_start(prefix));
    let name = key_name(key);
    match key.slot {
        Slot::Embedding => {
            reveal_strlit("embed_tokens.weight");
            lemma_no_start_joins(prefix, "embed_tokens.weight"@);
        },
        Slot::FinalNorm => {
            reveal_strlit("norm.weight");
            lemma_no_start_joins(prefix, "norm.weight"@);
        },
        Slot::ScoreHead => {},
        Slot::Layer(i, part) => {
            let digits = decimal(i as nat);
            reveal_strlit("layers.");
            reveal_strlit(".");
            lemma_decimal(i as nat);
            assert(has_no_start(digits));
            lemma_part_has_no_start(part);
            lemma_no_start_joins(prefix, "layers."@);
            lemma_no_start_joins(prefix + "layers."@, digits);
            assert(is_digit(digits.last()));
            lemma_no_start_joins(prefix + "layers."@ + digits, "."@);
            lemma_no_start_joins(prefix + "layers."@ + digits + "."@, part_suffix(part));
        },
    }
    lemma_no_start_excludes(name);
    assert(name.take(prefix.len() as int) =~= prefix);
}

} // verus!
