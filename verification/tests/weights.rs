use mlx_rerank::graph::{Part, Side, Slot, Stack, WeightKey};
use mlx_rerank::kalm_score::check_weights;
use mlx_rerank::weights::{is_weight_file, keep_weight, weight_name};

fn name(stack: Stack, slot: Slot) -> String {
    weight_name(WeightKey { stack, slot })
}

#[test]
fn names_of_the_cross_encoder() {
    let n = |slot| name(Stack::Nemotron, slot);
    assert_eq!(n(Slot::Embedding), "model.embed_tokens.weight");
    assert_eq!(n(Slot::FinalNorm), "model.norm.weight");
    assert_eq!(n(Slot::ScoreHead), "score.weight");
    let l = |part| name(Stack::Nemotron, Slot::Layer(12, part));
    assert_eq!(l(Part::InputNorm), "model.layers.12.input_layernorm.weight");
    assert_eq!(l(Part::PostAttentionNorm), "model.layers.12.post_attention_layernorm.weight");
    assert_eq!(l(Part::QProj), "model.layers.12.self_attn.q_proj.weight");
    assert_eq!(l(Part::KProj), "model.layers.12.self_attn.k_proj.weight");
    assert_eq!(l(Part::VProj), "model.layers.12.self_attn.v_proj.weight");
    assert_eq!(l(Part::OProj), "model.layers.12.self_attn.o_proj.weight");
    assert_eq!(l(Part::GateProj), "model.layers.12.mlp.gate_proj.weight");
    assert_eq!(l(Part::UpProj), "model.layers.12.mlp.up_proj.weight");
    assert_eq!(l(Part::DownProj), "model.layers.12.mlp.down_proj.weight");
}

#[test]
fn names_of_the_encoder_decoder() {
    let encoder = Stack::Kalm(Side::Encoder);
    let decoder = Stack::Kalm(Side::Decoder);
    assert_eq!(name(encoder, Slot::Embedding), "model.encoder.embed_tokens.weight");
    assert_eq!(name(decoder, Slot::FinalNorm), "model.decoder.norm.weight");
    let l = |part| name(decoder, Slot::Layer(0, part));
    assert_eq!(l(Part::PreSelfAttnNorm), "model.decoder.layers.0.pre_self_attn_layernorm.weight");
    assert_eq!(l(Part::PostSelfAttnNorm), "model.decoder.layers.0.post_self_attn_layernorm.weight");
    assert_eq!(
        l(Part::PreFeedforwardNorm),
        "model.decoder.layers.0.pre_feedforward_layernorm.weight"
    );
    assert_eq!(
        l(Part::PostFeedforwardNorm),
        "model.decoder.layers.0.post_feedforward_layernorm.weight"
    );
    assert_eq!(l(Part::QNorm), "model.decoder.layers.0.self_attn.q_norm.weight");
    assert_eq!(l(Part::KNorm), "model.decoder.layers.0.self_attn.k_norm.weight");
}

#[test]
fn weights_that_are_loaded() {
    assert!(keep_weight("model.encoder.layers.3.mlp.up_proj.weight"));
    assert!(keep_weight("model.decoder.norm.weight"));
    assert!(!keep_weight("model.encoder.vision_tower.patch.weight"));
    assert!(!keep_weight("model.encoder.multi_modal_projector.weight"));
    assert!(!keep_weight("model.norm.weight"));
    assert!(!keep_weight("lm_head.weight"));
    assert!(!keep_weight("xmodel.encoder.norm.weight"));
    for side in [Side::Encoder, Side::Decoder] {
        for i in [0usize, 17, 1000] {
            assert!(keep_weight(&name(Stack::Kalm(side), Slot::Layer(i, Part::KNorm))));
        }
    }
}

#[test]
fn weight_files_by_extension() {
    for file in ["model.safetensors", "model-00001-of-00002.safetensors", "a.b.safetensors"] {
        assert!(is_weight_file(file));
    }
    for file in ["model.safetensors.index.json", ".safetensors", "safetensors", "config.json", ""] {
        assert!(!is_weight_file(file));
    }
}

#[test]
fn checkpoints_that_lack_weights() {
    let names = |list: &[&str]| list.iter().map(|s| s.to_string()).collect::<Vec<String>>();
    let none = "no model.encoder.*/model.decoder.* weights found";
    assert_eq!(check_weights(&vec![]).unwrap(), none);
    assert_eq!(check_weights(&names(&["lm_head.weight"])).unwrap(), none);
    assert_eq!(check_weights(&names(&["model.encoder.vision_tower.w"])).unwrap(), none);
    assert_eq!(
        check_weights(&names(&["model.decoder.norm.weight"])).unwrap(),
        "missing model.encoder.embed_tokens.weight"
    );
    let whole = names(&["model.decoder.norm.weight", "model.encoder.embed_tokens.weight"]);
    assert_eq!(check_weights(&whole), None);
}
