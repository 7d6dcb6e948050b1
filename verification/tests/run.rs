use mlx_rerank::graph::{LayerType, Side};
use mlx_rerank::json::Json;
use mlx_rerank::kalm::KalmModel;
use mlx_rerank::kalm_config::KalmConfig;
use mlx_rerank::kalm_score::{answer_id, first_ids, judge_prompt, prompt_of_ids, SUBB_DEFAULT};
use mlx_rerank::nemotron::prompt;
use mlx_rerank::prepare::{added_tokens_fit, normalizer_fits, padding_fits, pre_tokenizer_fits};
use mlx_rerank::prepare::{LONGEST_PADDED, LONGEST_SEARCHED};
use mlx_rerank::run::{can_run, deferred, perchunk, prompts, run, run_overlap, run_perchunk};
use mlx_rerank::run::{tokenize_batch, Step, SUB_BATCH};
use mlx_rerank::tokens::{can_decode, can_decode_these, can_encode, can_encode_one, decoder_fits};
use mlx_rerank::tokens::{decoder_takes_some, labelled, pads, post_processor_fits};
use tokenizers::{PaddingParams, PaddingStrategy, Tokenizer};

/// A tokenizer of words; an unknown word is 0, or an error without `unk`.
fn tokenizer(truncation: &str, post: &str, unk: bool) -> Tokenizer {
    decoding(truncation, post, unk, "null")
}

fn decoding(truncation: &str, post: &str, unk: bool, decoder: &str) -> Tokenizer {
    let words = ["[UNK]", "question", "passage", ":", "q", "a", "b", "c", "yes", "no", "[E]"];
    let vocab: Vec<String> =
        words.iter().enumerate().map(|(i, w)| format!("\"{w}\": {i}")).collect();
    let unk = if unk { "[UNK]" } else { "[NONE]" };
    let text = format!(
        r#"{{"version": "1.0", "truncation": {truncation}, "padding": null, "added_tokens": [],
            "normalizer": null, "pre_tokenizer": {{"type": "Whitespace"}},
            "post_processor": {post}, "decoder": {decoder},
            "model": {{"type": "WordLevel", "vocab": {{{}}}, "unk_token": "{unk}"}}}}"#,
        vocab.join(", ")
    );
    text.parse().unwrap()
}

const ENDING: &str = r#"{"type": "TemplateProcessing",
    "single": [{"Sequence": {"id": "A", "type_id": 0}},
               {"SpecialToken": {"id": "[E]", "type_id": 0}}],
    "pair": [{"Sequence": {"id": "A", "type_id": 0}}, {"Sequence": {"id": "B", "type_id": 0}}],
    "special_tokens": {"[E]": {"id": "[E]", "ids": [10], "tokens": ["[E]"]}}}"#;

fn cut(max_length: usize, stride: usize) -> String {
    format!(
        r#"{{"direction": "Right", "max_length": {max_length}, "strategy": "LongestFirst",
            "stride": {stride}}}"#
    )
}

fn docs(list: &[&str]) -> Vec<String> {
    list.iter().map(|s| s.to_string()).collect()
}

#[test]
fn prompts_are_written() {
    assert_eq!(prompt("who?", "me"), "question:who? \n \n passage:me");
    assert_eq!(prompt("", ""), "question: \n \n passage:");
    assert_eq!(
        judge_prompt("who?"),
        "<bos><start_of_turn>user\nJudge whether the Document meets the requirements based on \
         the Query and the Instruct provided. Note that the answer can only be \"yes\" or \
         \"no\".\n\n<Instruct>: Given a search query, retrieve relevant documents that answer \
         the query\n<Query>: who?<end_of_turn>\n<start_of_turn>model\n\n\n\n"
    );
}

#[test]
fn steps_of_a_deferred_run() {
    assert_eq!(deferred(0), vec![Step::EvalAll]);
    assert_eq!(
        deferred(2),
        vec![Step::Forward(0), Step::Forward(1), Step::EvalAll, Step::Read(0), Step::Read(1)]
    );
}

#[test]
fn steps_with_a_barrier_behind_each() {
    assert_eq!(perchunk(0), vec![]);
    assert_eq!(
        perchunk(2),
        vec![
            Step::Forward(0),
            Step::Eval(0),
            Step::Read(0),
            Step::Forward(1),
            Step::Eval(1),
            Step::Read(1),
        ]
    );
}

#[test]
fn batches_are_encoded_with_special_tokens() {
    let tok = tokenizer("null", ENDING, true);
    assert!(can_encode_one(&tok, "a b", true));
    let encs = tokenize_batch(&tok, docs(&["a b", "zzz", ""])).unwrap();
    assert_eq!(encs, vec![vec![5, 6, 10], vec![0, 10], vec![10]]);
}

#[test]
fn texts_of_a_batch_are_encoded_by_themselves() {
    let mut tok = tokenizer("null", ENDING, true);
    assert!(!pads(&tok));
    let all = docs(&["a b c", "a", "zzz b"]);
    let encs = tokenize_batch(&tok, all.clone()).unwrap();
    for (text, enc) in all.iter().zip(&encs) {
        assert_eq!(tok.encode(text.as_str(), true).unwrap().get_ids(), enc.as_slice());
        assert_eq!(tokenize_batch(&tok, vec![text.clone()]).unwrap(), vec![enc.clone()]);
    }
    tok.with_padding(Some(PaddingParams::default()));
    assert!(pads(&tok));
    let padded = tokenize_batch(&tok, docs(&["a b", "a"])).unwrap();
    assert_eq!(padded, vec![vec![5, 6, 10], vec![5, 10, 0]]);
}

#[test]
fn runs_sort_and_group_the_prompts() {
    let tok = tokenizer("null", ENDING, true);
    let all = docs(&["a b c", "a", "b c", "c"]);
    let run = run(&tok, "q", &all, 2).unwrap();
    let encoded = |words: &[u32]| {
        let mut ids = vec![1, 3, 4, 2, 3];
        ids.extend(words);
        ids.push(10);
        ids
    };
    assert_eq!(run.plan.encs[0], encoded(&[5, 6, 7]));
    assert_eq!(run.plan.encs[1], encoded(&[5]));
    assert_eq!(run.plan.order, vec![1, 3, 2, 0]);
    assert_eq!(run.plan.chunk_idx, vec![vec![1, 3], vec![2, 0]]);
    assert_eq!(run.steps, deferred(2));
}

#[test]
fn kinds_of_run_share_their_plan() {
    let tok = tokenizer("null", ENDING, true);
    let all = docs(&["a b c", "a", "b c", "c", ""]);
    let plain = run(&tok, "q", &all, SUB_BATCH).unwrap();
    let barriers = run_perchunk(&tok, "q", &all, SUB_BATCH).unwrap();
    let overlapped = run_overlap(&tok, "q", &all, SUB_BATCH).unwrap();
    for other in [&barriers, &overlapped] {
        assert_eq!(other.plan.encs, plain.plan.encs);
        assert_eq!(other.plan.order, plain.plan.order);
        assert_eq!(other.plan.chunk_idx, plain.plan.chunk_idx);
    }
    assert_eq!(barriers.steps, perchunk(1));
    assert_eq!(overlapped.steps, plain.steps);
    assert_eq!((SUB_BATCH, SUBB_DEFAULT), (10, 25));
}

#[test]
fn a_run_without_documents() {
    let tok = tokenizer("null", "null", true);
    let run = run(&tok, "q", &vec![], 10).unwrap();
    assert!(run.plan.chunk_idx.is_empty());
    assert_eq!(run.steps, vec![Step::EvalAll]);
}

#[test]
fn failures_of_the_tokenizer_are_reported() {
    let tok = tokenizer("null", "null", false);
    let direct = tok.encode("zzz", true).unwrap_err().to_string();
    let e = run(&tok, "q", &docs(&["zzz"]), 10).unwrap_err();
    assert_eq!(e, format!("tokenize: {direct}"));
    assert_eq!(tokenize_batch(&tok, docs(&["zzz"])).unwrap_err(), direct);
}

#[test]
fn tokenizers_that_cannot_cut() {
    assert!(can_encode_one(&tokenizer("null", "null", true), "a b", true));
    assert!(can_encode_one(&tokenizer(&cut(4, 0), ENDING, true), "a b", true));
    assert!(can_encode_one(&tokenizer(&cut(4, 2), ENDING, true), "a b", true));
    assert!(!can_encode_one(&tokenizer(&cut(4, 3), ENDING, true), "a b", true));
    assert!(can_encode_one(&tokenizer(&cut(4, 3), ENDING, true), "a b", false));
    assert!(!can_encode_one(&tokenizer(&cut(4, 4), ENDING, true), "a b", false));
    assert!(can_encode_one(&tokenizer(&cut(1, 0), ENDING, true), "a b", true));
    assert!(!can_encode_one(&tokenizer(&cut(0, 0), ENDING, true), "a b", true));
    assert!(can_encode_one(&tokenizer(&cut(0, 0), ENDING, true), "a b", false));
}

#[test]
fn tokenizers_that_cannot_decode() {
    let strip = |start: usize, stop: usize| {
        format!(r#"{{"type": "Strip", "content": "a", "start": {start}, "stop": {stop}}}"#)
    };
    let chain = |items: &str| format!(r#"{{"type": "Sequence", "decoders": [{items}]}}"#);
    let fuse = r#"{"type": "Fuse"}"#;
    let suffix = r#"{"type": "BPEDecoder", "suffix": "</w>"}"#;
    let fails = |decoder: &str| !can_decode(&decoding("null", "null", true, decoder));
    assert!(!fails("null"));
    assert!(!fails(fuse));
    assert!(!fails(&strip(1, 0)));
    assert!(fails(&strip(0, 1)));
    assert!(fails(suffix));
    assert!(!fails(&chain("")));
    assert!(!fails(&chain(&format!("{fuse}, {}", strip(3, 0)))));
    assert!(fails(&chain(&format!("{fuse}, {}", strip(1, 1)))));
    assert!(fails(&chain(&chain(suffix))));
}

#[test]
fn replacing_decoders_search_for_a_literal() {
    let replace = |pattern: &str| {
        let decoder = format!(r#"{{"type": "Replace", "pattern": {pattern}, "content": "x"}}"#);
        decoding("null", "null", true, &decoder)
    };
    let literal = replace(r#"{"String": "a"}"#);
    assert!(can_decode(&literal));
    assert!(!can_decode(&replace(r#"{"Regex": "a+"}"#)));
    assert_eq!(KalmModel::dtext(&literal, "a b").unwrap(), judge_prompt("xb"));
}

#[test]
fn decoders_are_read_from_their_description() {
    let fits = |text: &str| decoder_fits(&Json::parse(text).unwrap());
    assert!(fits(r#"{"type": "ByteFallback"}"#));
    assert!(fits(r#"{"type": "Replace", "pattern": {"String": "_"}, "content": " "}"#));
    assert!(!fits(r#"{"type": "Replace", "pattern": {"Regex": "_"}, "content": " "}"#));
    assert!(fits(r#"{"type": "Strip", "content": " ", "start": 1, "stop": 0}"#));
    assert!(!fits(r#"{"type": "Strip", "content": " ", "start": 0, "stop": 1}"#));
    let inner = r#"{"type": "BPEDecoder", "suffix": "</w>"}"#;
    assert!(!fits(&format!(r#"{{"type": "Sequence", "decoders": [{inner}]}}"#)));
}

#[test]
fn decoders_by_suffix_need_a_token() {
    let suffix = r#"{"type": "BPEDecoder", "suffix": "b"}"#;
    let tok = decoding("null", "null", true, suffix);
    assert!(!can_decode(&tok));
    assert!(can_decode_these(&tok, &vec![5]));
    assert!(can_decode_these(&tok, &vec![99, 5]));
    assert!(!can_decode_these(&tok, &vec![99]));
    assert!(!can_decode_these(&tok, &vec![]));
    assert_eq!(prompt_of_ids(&tok, &vec![5, 6, 7]).unwrap(), judge_prompt("a c"));
    assert_eq!(KalmModel::try_dtext(&tok, "a b c"), Some(Ok(judge_prompt("a c"))));
    assert_eq!(KalmModel::dtext(&tok, "a b c").unwrap(), judge_prompt("a c"));
    assert_eq!(KalmModel::try_dtext(&tok, "  "), None);
    let strict = decoding("null", "null", false, suffix);
    let direct = strict.encode("zzz", false).unwrap_err().to_string();
    let failed = KalmModel::try_dtext(&strict, "zzz");
    assert_eq!(failed, Some(Err(format!("tok query: {direct}"))));
}

#[test]
fn decoders_by_suffix_do_not_follow_what_drops_tokens() {
    let takes = |items: &str| {
        let text = format!(r#"{{"type": "Sequence", "decoders": [{items}]}}"#);
        decoder_takes_some(&Json::parse(&text).unwrap())
    };
    let suffix = r#"{"type": "BPEDecoder", "suffix": "</w>"}"#;
    let drops = r#"{"type": "CTC", "pad_token": "_", "word_delimiter_token": "|",
        "cleanup": true}"#;
    let cuts = r#"{"type": "Strip", "content": " ", "start": 0, "stop": 1}"#;
    let fuse = r#"{"type": "Fuse"}"#;
    assert!(takes("") && takes(suffix) && takes(drops));
    assert!(takes(&format!("{fuse}, {suffix}, {suffix}")));
    assert!(takes(&format!("{suffix}, {drops}")));
    assert!(!takes(&format!("{drops}, {fuse}, {suffix}")));
    assert!(!takes(&format!("{suffix}, {cuts}")));
}

/// A template for one text, with a table of special tokens.
fn template(single: &str, specials: &str) -> String {
    format!(
        r#"{{"type": "TemplateProcessing", "single": [{single}],
            "pair": [{{"Sequence": {{"id": "A", "type_id": 0}}}},
                     {{"Sequence": {{"id": "B", "type_id": 0}}}}],
            "special_tokens": {{{specials}}}}}"#
    )
}

const FIRST: &str = r#"{"Sequence": {"id": "A", "type_id": 0}}"#;
const SECOND: &str = r#"{"Sequence": {"id": "B", "type_id": 0}}"#;
const MARK: &str = r#"{"SpecialToken": {"id": "[E]", "type_id": 0}}"#;
const MARKED: &str = r#""[E]": {"id": "[E]", "ids": [10], "tokens": ["[E]"]}"#;

#[test]
fn templates_that_do_not_fit_one_text() {
    let fits = |post: &str, specials: bool| {
        post_processor_fits(&Json::parse(post).unwrap(), specials)
    };
    let marked = format!("{FIRST}, {MARK}");
    for specials in [false, true] {
        assert!(fits(&template(FIRST, ""), specials));
        assert!(fits(&template(&marked, MARKED), specials));
        assert!(!fits(&template(SECOND, MARKED), specials));
        assert_eq!(fits(&template(&marked, ""), specials), !specials);
    }
    let chain = |items: &str| format!(r#"{{"type": "Sequence", "processors": [{items}]}}"#);
    let bytes = r#"{"type": "ByteLevel", "add_prefix_space": true, "trim_offsets": false,
        "use_regex": true}"#;
    let good = template(&marked, MARKED);
    assert!(fits(bytes, true));
    assert!(fits(&chain(""), true));
    assert!(fits(&chain(&format!("{bytes}, {good}")), true));
    assert!(!fits(&chain(&format!("{good}, {good}")), true));
    assert!(!fits(&chain(&template(SECOND, "")), true));
}

#[test]
fn tokenizers_whose_template_does_not_fit() {
    let marked = format!("{FIRST}, {MARK}");
    let good = tokenizer("null", &template(&marked, MARKED), true);
    assert!(can_encode_one(&good, "a b", true) && can_encode_one(&good, "a b", false));
    let other = tokenizer("null", &template(SECOND, ""), true);
    assert!(!can_encode_one(&other, "a b", true) && !can_encode_one(&other, "a b", false));
    let chained = format!(
        r#"{{"type": "Sequence", "processors": [{}, {}]}}"#,
        template(&marked, MARKED),
        template(&marked, MARKED)
    );
    assert!(!can_encode_one(&tokenizer("null", &chained, true), "a b", true));
}

#[test]
fn nothing_is_asked_of_a_tokenizer_without_documents() {
    let other = tokenizer("null", &template(SECOND, ""), true);
    let model = KalmModel { cfg: config(), yes_id: 1, no_id: 2 };
    assert!(model.score(&other, "a", &vec![], 0).unwrap().is_none());
    let empty = run(&other, "a", &vec![], 0).unwrap();
    assert!(empty.plan.encs.is_empty() && empty.plan.chunk_idx.is_empty());
    assert_eq!(tokenize_batch(&other, vec![]).unwrap(), Vec::<Vec<u32>>::new());
}

#[test]
fn later_tokens_of_a_query_are_not_read() {
    let tok = tokenizer("null", ENDING, true);
    let long = vec!["a"; 512].join(" ");
    let prompt = KalmModel::dtext(&tok, &format!("{long} b")).unwrap();
    assert_eq!(KalmModel::dtext(&tok, &format!("{long} c q")).unwrap(), prompt);
    assert_ne!(KalmModel::dtext(&tok, &format!("b {long}")).unwrap(), prompt);
}

#[test]
fn decoders_join_the_tokens_of_a_query() {
    let fused = decoding("null", "null", true, r#"{"type": "Fuse"}"#);
    assert_eq!(KalmModel::dtext(&fused, "a b zzz").unwrap(), judge_prompt("ab[UNK]"));
    let cut = r#"{"type": "Strip", "content": "q", "start": 1, "stop": 0}"#;
    let cut = decoding("null", "null", true, cut);
    assert_eq!(KalmModel::dtext(&cut, "question a").unwrap(), judge_prompt("uestiona"));
}

#[test]
fn failures_name_their_step() {
    assert_eq!(labelled("tok docs: ", Ok(vec![1u32])), Ok(vec![1]));
    let e: Result<u32, String> = labelled("tok docs: ", Err("x".to_string()));
    assert_eq!(e, Err("tok docs: x".to_string()));
}

#[test]
fn own_limits_of_a_tokenizer() {
    let tok = tokenizer(&cut(3, 0), ENDING, true);
    let encs = tokenize_batch(&tok, docs(&["a b c a b c", "a"])).unwrap();
    assert_eq!(encs, vec![vec![5, 6, 10], vec![5, 10]]);
}

const CONFIG: &str = r#"{
    "encoder": {"text_config": {
        "hidden_size": 8, "head_dim": 4, "num_attention_heads": 2, "num_key_value_heads": 1,
        "rms_norm_eps": 1e-6, "num_hidden_layers": 1, "query_pre_attn_scalar": 4,
        "layer_types": ["full_attention"],
        "rope_parameters": {"full_attention": {"rope_theta": 10000.0},
                            "sliding_attention": {"rope_theta": 10000.0}}}},
    "decoder": {"num_hidden_layers": 1, "layer_types": ["sliding_attention"],
        "rope_parameters": {"full_attention": {"rope_theta": 10000.0},
                            "sliding_attention": {"rope_theta": 10000.0}}}
}"#;

fn config() -> KalmConfig {
    KalmConfig::from_json(&Json::parse(CONFIG).unwrap()).unwrap()
}

fn names() -> Vec<String> {
    docs(&["model.encoder.embed_tokens.weight", "model.decoder.norm.weight"])
}

#[test]
fn answers_have_token_ids() {
    let tok = tokenizer("null", ENDING, true);
    let model = KalmModel::load(config(), &names(), &tok).unwrap();
    assert_eq!((model.yes_id, model.no_id), (8, 9));
    assert_eq!(model.cfg.type_of_layer(Side::Decoder, 0), LayerType::Sliding);
}

#[test]
fn checkpoints_are_checked_before_the_answers() {
    let tok = tokenizer("null", "null", false);
    let e = KalmModel::load(config(), &vec![], &tok).err().unwrap();
    assert_eq!(e, "no model.encoder.*/model.decoder.* weights found");
}

#[test]
fn answers_are_taken_from_their_last_token() {
    assert_eq!(answer_id("yes", Ok(vec![4, 7])), Ok(7));
    assert_eq!(answer_id("yes", Ok(vec![])), Err("empty yes encoding".to_string()));
    assert_eq!(answer_id("no", Ok(vec![])), Err("empty no encoding".to_string()));
    assert_eq!(answer_id("no", Err("x".to_string())), Err("tok no: x".to_string()));
}

#[test]
fn queries_are_decoded_into_the_prompt() {
    let tok = tokenizer("null", ENDING, true);
    assert_eq!(KalmModel::dtext(&tok, "  a   b:c zzz").unwrap(), judge_prompt("a b : c [UNK]"));
    let long = vec!["a"; 600].join(" ");
    let kept = vec!["a"; 512].join(" ");
    assert_eq!(KalmModel::dtext(&tok, &long).unwrap(), judge_prompt(&kept));
    let strict = tokenizer("null", "null", false);
    let direct = strict.encode("zzz", false).unwrap_err().to_string();
    assert_eq!(KalmModel::dtext(&strict, "zzz").unwrap_err(), format!("tok query: {direct}"));
}

#[test]
fn ids_are_cut() {
    let ids: Vec<u32> = (0..600).collect();
    assert_eq!(first_ids(&ids), ids[..512].to_vec());
    assert_eq!(first_ids(&vec![3, 4]), vec![3, 4]);
}

#[test]
fn documents_are_planned_in_sorted_sub_batches() {
    let tok = tokenizer("null", ENDING, true);
    let model = KalmModel::load(config(), &names(), &tok).unwrap();
    let plan = model.score(&tok, "q", &docs(&["a b c", "a", "b c"]), 2).unwrap().unwrap();
    assert_eq!(plan.plan.encs[1], vec![0, 0, 0, 5]);
    assert_eq!(plan.plan.order, vec![1, 2, 0]);
    assert_eq!(plan.batches.len(), 2);
    assert_eq!((plan.batches[0].rows, plan.batches[0].width), (2, 5));
    assert_eq!((plan.batches[1].rows, plan.batches[1].width), (1, 6));
    assert_eq!(plan.batches[0].mask, vec![1, 1, 1, 1, 0, 1, 1, 1, 1, 1]);
    let text = KalmModel::dtext(&tok, "q").unwrap();
    let ids: Vec<i32> =
        tok.encode(text, false).unwrap().get_ids().iter().map(|&i| i as i32).collect();
    assert_eq!(plan.prompt, ids);
    assert_eq!(plan.program.pools.len(), 2);
    assert_eq!(plan.scores(&vec![0.1f32, 0.2, 0.3], f32::NAN), vec![0.3, 0.1, 0.2]);
}

#[test]
fn no_documents_need_no_plan() {
    let strict = tokenizer("null", "null", false);
    let model = KalmModel { cfg: config(), yes_id: 1, no_id: 2 };
    assert!(model.score(&strict, "zzz", &vec![], 25).unwrap().is_none());
    let direct = strict.encode("<Document>: a", false).unwrap_err().to_string();
    let e = model.score(&strict, "a", &docs(&["a"]), 25).err().unwrap();
    assert_eq!(e, format!("tok docs: {direct}"));
}

/// A tokenizer of words with these parts before its model.
fn prepared(added: &str, normalizer: &str, pre_tokenizer: &str) -> Tokenizer {
    let text = format!(
        r#"{{"version": "1.0", "truncation": null, "padding": null, "added_tokens": [{added}],
            "normalizer": {normalizer}, "pre_tokenizer": {pre_tokenizer},
            "post_processor": null, "decoder": null,
            "model": {{"type": "WordLevel", "vocab": {{"[UNK]": 0, "a": 1, "b": 2, "_b": 3}},
                       "unk_token": "[UNK]"}}}}"#
    );
    text.parse().unwrap()
}

const WORDS: &str = r#"{"type": "Whitespace"}"#;

/// The pattern of words, as a tokenizer's file writes it.
const SEARCH: &str = r#"{"type": "Split", "behavior": "Isolated", "invert": false,
    "pattern": {"Regex": "(?i:'s|'t|'re|'ve|'m|'ll|'d)|[^\\r\\n\\p{L}\\p{N}]?\\p{L}+|\\p{N}{1,3}| ?[^\\s\\p{L}\\p{N}]+[\\r\\n]*|\\s*[\\r\\n]+|\\s+(?!\\S)|\\s+"}}"#;

#[test]
fn steps_before_the_model_are_admitted() {
    let fits = |text: &str| normalizer_fits(&Json::parse(text).unwrap());
    let replace = |pattern: &str, content: &str| {
        format!(r#"{{"type": "Replace", "pattern": {pattern}, "content": "{content}"}}"#)
    };
    let literal = replace(r#"{"String": " "}"#, "_");
    assert!(fits(&literal));
    assert!(fits(r#"{"type": "Prepend", "prepend": "_"}"#));
    assert!(!fits(r#"{"type": "Prepend", "prepend": ""}"#));
    assert!(!fits(&replace(r#"{"String": ""}"#, "_")));
    assert!(!fits(&replace(r#"{"String": " "}"#, "")));
    assert!(!fits(&replace(r#"{"Regex": " "}"#, "_")));
    assert!(!fits(r#"{"type": "Precompiled", "precompiled_charsmap": ""}"#));
    let chain = |items: &str| format!(r#"{{"type": "Sequence", "normalizers": [{items}]}}"#);
    assert!(fits(&chain("")));
    assert!(fits(&chain(&format!("{literal}, {}", chain(&literal)))));
    assert!(!fits(&chain(&format!(r#"{literal}, {{"type": "NFC"}}"#))));
}

#[test]
fn patterns_are_searched_in_short_texts_alone() {
    let fits = |text: &str, rewritten, len| {
        pre_tokenizer_fits(&Json::parse(text).unwrap(), rewritten, len)
    };
    let bytes = |regex: bool| {
        format!(
            r#"{{"type": "ByteLevel", "add_prefix_space": false, "trim_offsets": true,
                "use_regex": {regex}}}"#
        )
    };
    let split = |pattern: &str| {
        format!(
            r#"{{"type": "Split", "pattern": {pattern}, "behavior": "Isolated",
                "invert": false}}"#
        )
    };
    let chain = |items: &str| format!(r#"{{"type": "Sequence", "pretokenizers": [{items}]}}"#);
    let long = LONGEST_SEARCHED + 1;
    assert!(fits(WORDS, true, long));
    assert!(fits(&bytes(false), true, long));
    assert!(fits(&split(r#"{"String": " "}"#), true, long));
    assert!(!fits(&split(r#"{"String": ""}"#), false, 0));
    assert!(!fits(&split(r#"{"Regex": "(a|aa)+b"}"#), false, 0));
    for searching in [SEARCH.to_string(), bytes(true)] {
        assert!(fits(&searching, false, LONGEST_SEARCHED));
        assert!(!fits(&searching, false, long));
        assert!(!fits(&searching, true, 0));
        assert!(fits(&chain(&format!("{searching}, {}", bytes(false))), false, 9));
        assert!(!fits(&chain(&format!("{}, {searching}", bytes(false))), false, 9));
    }
}

#[test]
fn blanks_that_two_added_tokens_claim() {
    let token = |left: bool, right: bool| {
        format!(
            r#"{{"id": 1, "content": "a", "single_word": false, "lstrip": {left},
                "rstrip": {right}, "normalized": false, "special": false}}"#
        )
    };
    let fit = |items: &str| added_tokens_fit(&Json::parse(&format!("[{items}]")).unwrap());
    assert!(fit(""));
    assert!(fit(&format!("{}, {}", token(true, false), token(true, false))));
    assert!(fit(&format!("{}, {}", token(false, true), token(false, false))));
    assert!(!fit(&format!("{}, {}", token(false, true), token(true, false))));
    assert!(!fit(&token(true, true)));
    assert!(!fit("{}"));
    assert!(!added_tokens_fit(&Json::parse("{}").unwrap()));
}

#[test]
fn lengths_to_pad_to() {
    assert!(padding_fits(None));
    assert!(padding_fits(Some((None, None))));
    assert!(padding_fits(Some((Some(LONGEST_PADDED), Some(8)))));
    assert!(!padding_fits(Some((Some(LONGEST_PADDED + 1), None))));
    assert!(!padding_fits(Some((None, Some(LONGEST_PADDED + 1)))));
}

#[test]
fn tokenizers_are_asked_before_they_encode() {
    let text = "a b";
    let plain = prepared("", "null", WORDS);
    assert!(can_encode_one(&plain, text, false));
    assert_eq!(tokenize_batch(&plain, docs(&[text])).unwrap(), vec![vec![1, 2]]);
    let replace = r#"{"type": "Replace", "pattern": {"String": " "}, "content": " _"}"#;
    let rewritten = prepared("", replace, r#"{"type": "WhitespaceSplit"}"#);
    assert!(can_encode_one(&rewritten, text, false));
    assert_eq!(tokenize_batch(&rewritten, docs(&[text])).unwrap(), vec![vec![1, 3]]);
    assert!(!can_encode_one(&prepared("", r#"{"type": "NFC"}"#, WORDS), text, false));
    let searched = prepared("", "null", SEARCH);
    assert!(can_encode_one(&searched, text, false));
    assert_eq!(tokenize_batch(&searched, docs(&["a", "b9"])).unwrap(), vec![vec![1], vec![2, 0]]);
    let long = "a".repeat(LONGEST_SEARCHED + 1);
    assert!(!can_encode_one(&searched, &long, false));
    assert!(can_encode_one(&plain, &long, false));
    assert!(!can_encode(&searched, &docs(&["a", &long]), false));
    assert!(can_encode(&searched, &docs(&["a", "b"]), false));
    assert!(!can_encode_one(&prepared("", "null", &SEARCH.replace("{1,3}", "+")), "a", false));
    let both = r#"{"id": 1, "content": "a", "single_word": false, "lstrip": true, "rstrip": true,
        "normalized": false, "special": false}"#;
    assert!(!can_encode_one(&prepared(both, "null", WORDS), text, false));
    let mut padded = prepared("", "null", WORDS);
    padded.with_padding(Some(PaddingParams {
        strategy: PaddingStrategy::Fixed(LONGEST_PADDED + 1),
        ..PaddingParams::default()
    }));
    assert!(!can_encode_one(&padded, text, false));
    padded.with_padding(Some(PaddingParams {
        strategy: PaddingStrategy::Fixed(3),
        pad_id: 2,
        ..PaddingParams::default()
    }));
    assert!(can_encode_one(&padded, text, false));
    assert_eq!(tokenize_batch(&padded, docs(&["a"])).unwrap(), vec![vec![1, 2, 2]]);
}

#[test]
fn runs_are_asked_before_they_begin() {
    let tok = tokenizer("null", ENDING, true);
    assert_eq!(prompts("q", &docs(&["a", "b"])), vec![prompt("q", "a"), prompt("q", "b")]);
    assert!(can_run(&tok, "q", &docs(&["a", "b"])));
    let other = tokenizer("null", &template(SECOND, ""), true);
    assert!(!can_run(&other, "q", &docs(&["a"])));
    assert!(can_run(&other, "q", &vec![]));
    assert!(run(&other, "q", &vec![], 0).is_ok());
}

#[test]
fn a_run_fails_as_one_of_its_texts_does() {
    let strict = tokenizer("null", "null", false);
    let failed = run(&strict, "q", &docs(&["a", "zzz"]), 2).unwrap_err();
    let alone = strict.encode(prompt("q", "zzz"), true).unwrap_err().to_string();
    assert_eq!(failed, format!("tokenize: {alone}"));
}

#[test]
fn scoring_is_tried() {
    let tok = tokenizer("null", ENDING, true);
    let model = KalmModel::load(config(), &names(), &tok).unwrap();
    let all = docs(&["a b c", "a", "b c"]);
    let tried = model.try_score(&tok, "q", &all, 2).unwrap().unwrap().unwrap();
    let plan = model.score(&tok, "q", &all, 2).unwrap().unwrap();
    assert_eq!((&tried.plan.encs, &tried.prompt), (&plan.plan.encs, &plan.prompt));
    assert!(model.try_score(&tok, "q", &vec![], 0).unwrap().unwrap().is_none());
    let strict = tokenizer("null", "null", false);
    let e = model.try_score(&strict, "a", &all, 2).unwrap().err().unwrap();
    assert_eq!(e, model.score(&strict, "a", &all, 2).err().unwrap());
    let other = tokenizer("null", &template(SECOND, ""), true);
    assert!(model.try_score(&other, "q", &all, 2).is_none());
    assert!(model.try_score(&other, "q", &vec![], 2).unwrap().unwrap().is_none());
    let cutting = r#"{"type": "Strip", "content": "a", "start": 0, "stop": 1}"#;
    let short = decoding("null", "null", true, cutting);
    assert!(model.try_score(&short, "a", &all, 2).is_none());
}
