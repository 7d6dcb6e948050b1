use mlx_rerank::json::Json;
use mlx_rerank::model::{default_repo, snapshots_dir, Architecture};

#[test]
fn snapshots_of_repositories() {
    assert_eq!(
        snapshots_dir(default_repo()),
        ".cache/huggingface/hub/models--nvidia--llama-nemotron-rerank-1b-v2/snapshots"
    );
    assert_eq!(
        snapshots_dir("KaLM-Embedding/KaLM-Reranker-V1-Small"),
        ".cache/huggingface/hub/models--KaLM-Embedding--KaLM-Reranker-V1-Small/snapshots"
    );
}

#[test]
fn architectures_are_detected() {
    let detect = |text: &str| Architecture::detect(&Json::parse(text).unwrap());
    assert_eq!(detect(r#"{"model_type": "llama_bidirec"}"#), Some(Architecture::Nemotron));
    assert_eq!(detect(r#"{"model_type": "t5gemma2"}"#), Some(Architecture::Kalm));
    assert_eq!(
        detect(r#"{"architectures": ["X", "T5Gemma2ForConditionalGeneration"]}"#),
        Some(Architecture::Kalm)
    );
    assert_eq!(
        detect(
            r#"{"model_type": "llama_bidirec",
                "architectures": ["T5Gemma2ForConditionalGeneration"]}"#
        ),
        Some(Architecture::Nemotron)
    );
    for text in [
        "{}",
        "[]",
        r#"{"model_type": "llama"}"#,
        r#"{"model_type": 3, "architectures": "T5Gemma2ForConditionalGeneration"}"#,
        r#"{"architectures": [null, 1, "T5Gemma2"]}"#,
    ] {
        assert_eq!(detect(text), None, "{text}");
    }
}
