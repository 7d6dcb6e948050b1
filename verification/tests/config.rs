use mlx_rerank::graph::{LayerType, Side};
use mlx_rerank::json::Json;
use mlx_rerank::kalm_config::{cfg_f64, cfg_i64, rope_table, KalmConfig, RopeParams, ONE_BITS};

const SIDE: &str = r#"{"rope_parameters": {
    "full_attention": {"rope_theta": 1000000.0, "factor": 8.0},
    "sliding_attention": {"rope_theta": 10000}}}"#;

fn text_config() -> String {
    r#"{"hidden_size": 640, "head_dim": 256, "num_attention_heads": 4,
        "num_key_value_heads": 1, "rms_norm_eps": 1e-06, "num_hidden_layers": 2,
        "query_pre_attn_scalar": 256,
        "layer_types": ["sliding_attention", "full_attention"],
        "rope_parameters": {
            "full_attention": {"rope_theta": 1000000.0, "factor": 8.0},
            "sliding_attention": {"rope_theta": 10000.0, "factor": null}}}"#
        .to_string()
}

fn decoder() -> String {
    r#"{"num_hidden_layers": 1, "layer_types": ["full_attention", 7],
        "rope_parameters": {
            "full_attention": {"rope_theta": 1000000.0},
            "sliding_attention": {"rope_theta": 10000.0, "factor": "x"}}}"#
        .to_string()
}

fn config(ec: &str, dc: &str) -> Result<KalmConfig, String> {
    let text = format!("{{\"encoder\": {{\"text_config\": {ec}}}, \"decoder\": {dc}}}");
    KalmConfig::from_json(&Json::parse(&text).unwrap())
}

fn without(text: String, key: &str) -> String {
    text.replace(&format!("\"{key}\""), "\"unknown\"")
}

fn bits(x: f64) -> u64 {
    x.to_bits()
}

#[test]
fn configuration_is_read() {
    let cfg = config(&text_config(), &decoder()).unwrap();
    assert_eq!((cfg.h, cfg.hd, cfg.nh, cfg.nkv), (640, 256, 4, 1));
    assert_eq!((cfg.enl, cfg.dnl), (2, 1));
    assert_eq!((cfg.eps, cfg.qpas), (bits(1e-6), bits(256.0)));
    assert_eq!(cfg.elt, vec!["sliding_attention", "full_attention"]);
    assert_eq!(cfg.dlt, vec!["full_attention", "full_attention"]);
    assert_eq!(cfg.enc_rope.full, RopeParams { theta: bits(1e6), factor: bits(8.0) });
    assert_eq!(cfg.enc_rope.sliding, RopeParams { theta: bits(1e4), factor: bits(1.0) });
    assert_eq!(cfg.dec_rope.full, RopeParams { theta: bits(1e6), factor: ONE_BITS });
    assert_eq!(cfg.dec_rope.sliding, RopeParams { theta: bits(1e4), factor: ONE_BITS });
    assert!(cfg.is_wf());
    assert_eq!(cfg.type_of_layer(Side::Encoder, 0), LayerType::Sliding);
    assert_eq!(cfg.type_of_layer(Side::Encoder, 1), LayerType::Full);
    assert_eq!(cfg.type_of_layer(Side::Decoder, 0), LayerType::Full);
}

#[test]
fn whole_numbers_are_reals_too() {
    let v = Json::parse(r#"{"a": 3, "b": 2.5, "c": "x", "d": -1}"#).unwrap();
    assert_eq!(cfg_f64(&v, "a"), Ok(bits(3.0)));
    assert_eq!(cfg_f64(&v, "b"), Ok(bits(2.5)));
    assert_eq!(cfg_f64(&v, "c"), Err("config missing numeric c".to_string()));
    assert_eq!(cfg_f64(&v, "e"), Err("config missing numeric e".to_string()));
    assert_eq!(cfg_i64(&v, "d"), Ok(-1));
    assert_eq!(cfg_i64(&v, "b"), Err("config missing int b".to_string()));
    assert_eq!(cfg_i64(&v, "e"), Err("config missing int e".to_string()));
}

#[test]
fn errors_of_the_encoder() {
    let cases = [
        ("hidden_size", "config missing int hidden_size"),
        ("head_dim", "config missing int head_dim"),
        ("num_attention_heads", "config missing int num_attention_heads"),
        ("num_key_value_heads", "config missing int num_key_value_heads"),
        ("rms_norm_eps", "config missing numeric rms_norm_eps"),
        ("num_hidden_layers", "config missing int num_hidden_layers"),
        ("query_pre_attn_scalar", "config missing numeric query_pre_attn_scalar"),
        ("layer_types", "missing encoder layer_types"),
        ("rope_parameters", "missing rope_parameters"),
    ];
    for (key, message) in cases {
        let e = config(&without(text_config(), key), &decoder()).unwrap_err();
        assert_eq!(e, message);
    }
}

#[test]
fn errors_of_the_decoder() {
    let cases = [
        ("num_hidden_layers", "config missing int num_hidden_layers"),
        ("layer_types", "missing decoder layer_types"),
        ("rope_parameters", "missing rope_parameters"),
    ];
    for (key, message) in cases {
        let e = config(&text_config(), &without(decoder(), key)).unwrap_err();
        assert_eq!(e, message);
    }
}

#[test]
fn errors_of_the_whole() {
    let err = |text: &str| KalmConfig::from_json(&Json::parse(text).unwrap()).unwrap_err();
    assert_eq!(err("{}"), "config missing encoder.text_config");
    assert_eq!(err("[]"), "config missing encoder.text_config");
    assert_eq!(err(r#"{"encoder": {}}"#), "config missing encoder.text_config");
    assert_eq!(err(r#"{"encoder": {"text_config": {}}}"#), "config missing decoder");
}

#[test]
fn the_first_error_is_reported() {
    let ec = without(without(text_config(), "rms_norm_eps"), "head_dim");
    assert_eq!(config(&ec, "{}").unwrap_err(), "config missing int head_dim");
    let ec = without(text_config(), "rope_parameters");
    assert_eq!(config(&ec, "{}").unwrap_err(), "config missing int num_hidden_layers");
}

#[test]
fn rotary_parameters() {
    let table = rope_table(&Json::parse(SIDE).unwrap()).unwrap();
    assert_eq!(table.full, RopeParams { theta: bits(1e6), factor: bits(8.0) });
    assert_eq!(table.sliding, RopeParams { theta: bits(1e4), factor: ONE_BITS });
    let err = |text: &str| rope_table(&Json::parse(text).unwrap()).unwrap_err();
    assert_eq!(err("{}"), "missing rope_parameters");
    assert_eq!(
        err(r#"{"rope_parameters": {}}"#),
        "missing rope_parameters.full_attention"
    );
    assert_eq!(
        err(r#"{"rope_parameters": {"full_attention": {}}}"#),
        "config missing numeric rope_theta"
    );
    assert_eq!(
        err(r#"{"rope_parameters": {"full_attention": {"rope_theta": 1}}}"#),
        "missing rope_parameters.sliding_attention"
    );
    assert_eq!(ONE_BITS, bits(1.0));
}

#[test]
fn ill_formed_configurations_are_noticed() {
    let ec = text_config().replace("\"num_hidden_layers\": 2", "\"num_hidden_layers\": 3");
    assert!(!config(&ec, &decoder()).unwrap().is_wf());
    let ec = text_config().replace("\"head_dim\": 256", "\"head_dim\": 2147483647");
    assert!(!config(&ec, &decoder()).unwrap().is_wf());
    let ec = text_config().replace("\"hidden_size\": 640", "\"hidden_size\": 4294967297");
    assert_eq!(config(&ec, &decoder()).unwrap().h, 1);
}

#[test]
fn json_values() {
    let v = Json::parse(r#"{"a": [1, "x", null, true, -2.5], "b": {"c": "d"}}"#).unwrap();
    let items = v.get("a").unwrap().as_array().unwrap();
    assert_eq!(items.len(), 5);
    assert_eq!(items[0].as_i64(), Some(1));
    assert_eq!(items[1].as_str().unwrap(), "x");
    assert!(matches!(items[2], Json::Null));
    assert!(matches!(items[3], Json::Bool(true)));
    assert_eq!(items[4].as_i64(), None);
    assert_eq!(items[4].as_real(), Some(bits(-2.5)));
    assert_eq!(v.get("b").unwrap().get("c").unwrap().as_str().unwrap(), "d");
    assert!(v.get("c").is_none());
    assert!(items[0].get("a").is_none());
    assert!(v.as_array().is_none() && v.as_str().is_none());
}

#[test]
fn documents_that_are_not_json() {
    for text in ["", "{", "{\"a\": }", "nul", "{} {}", "'a'"] {
        assert!(Json::parse(text).is_err(), "{text:?}");
    }
    assert!(Json::parse(" {} ").is_ok());
    let twice = Json::parse(r#"{"a": 1, "a": 2}"#).unwrap();
    assert_eq!(twice.get("a").unwrap().as_i64(), Some(2));
}
