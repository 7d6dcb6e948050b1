use mlx_rerank::json::Json;
use mlx_rerank::request::{decide, first_payload, handle, reply, Action, Payload, PayloadError};
use mlx_rerank::request::{Ranked, RerankRequest, Status};

const BODY: &str = r#"{"query": "q", "documents": ["a", "b", "c"], "top_n": 2, "model": "m"}"#;

fn refused(action: Action) -> Status {
    match action {
        Action::Refuse(status) => status,
        Action::Score(_) => panic!("scored"),
    }
}

fn accepted(action: Action) -> RerankRequest {
    match action {
        Action::Refuse(status) => panic!("{status:?}"),
        Action::Score(request) => request,
    }
}

#[test]
fn requests_are_read() {
    let request = accepted(handle("POST", "/rerank", BODY));
    assert_eq!(request.payload.query, "q");
    assert_eq!(request.payload.documents, vec!["a", "b", "c"]);
    assert_eq!(request.top_n, Some(2));
}

#[test]
fn the_number_of_results_is_optional() {
    let request = accepted(handle("POST", "/rerank", r#"{"query": "", "documents": []}"#));
    assert_eq!(request.top_n, None);
    assert!(request.payload.documents.is_empty());
    let body = r#"{"query": "q", "documents": ["a"], "top_n": null}"#;
    assert_eq!(accepted(handle("POST", "/rerank", body)).top_n, None);
    let body = r#"{"query": "q", "documents": ["a"], "top_n": 0}"#;
    assert_eq!(accepted(handle("POST", "/rerank", body)).top_n, Some(0));
}

#[test]
fn other_routes_are_not_found() {
    for (method, path) in [
        ("GET", "/rerank"),
        ("POST", "/"),
        ("POST", "/rerank/"),
        ("POST", "/v1/rerank"),
        ("post", "/rerank"),
        ("PUT", "/rerank"),
    ] {
        assert_eq!(refused(handle(method, path, BODY)), Status::NotFound);
        assert_eq!(refused(handle(method, path, "{")), Status::NotFound);
    }
}

#[test]
fn malformed_bodies_are_refused() {
    for body in [
        "",
        "{",
        "[]",
        "{}",
        r#"{"query": "q"}"#,
        r#"{"documents": []}"#,
        r#"{"query": 1, "documents": []}"#,
        r#"{"query": "q", "documents": "a"}"#,
        r#"{"query": "q", "documents": ["a", 1]}"#,
        r#"{"query": "q", "documents": [null]}"#,
        r#"{"query": "q", "documents": [], "top_n": -1}"#,
        r#"{"query": "q", "documents": [], "top_n": 1.5}"#,
        r#"{"query": "q", "documents": [], "top_n": "3"}"#,
    ] {
        assert_eq!(refused(handle("POST", "/rerank", body)), Status::Malformed, "{body}");
    }
    assert_eq!(refused(decide(None)), Status::Malformed);
    assert_eq!(refused(decide(Some(Json::Null))), Status::Malformed);
}

#[test]
fn status_codes() {
    assert_eq!(Status::Done.code(), 200);
    assert_eq!(Status::Malformed.code(), 400);
    assert_eq!(Status::NotFound.code(), 404);
    assert_eq!(Status::ScoringFailed.code(), 500);
}

fn bits(scores: &[f32]) -> Vec<u32> {
    scores.iter().map(|s| s.to_bits()).collect()
}

#[test]
fn results_are_best_first_and_cut() {
    let scores = bits(&[8.12, 1.0, 10.31, 9.84]);
    let ranked = |index: usize| Ranked { index, score: scores[index] };
    let all = reply(Some(scores.clone()), None);
    assert_eq!(all.status, Status::Done);
    assert_eq!(all.results, vec![ranked(2), ranked(3), ranked(0), ranked(1)]);
    let two = reply(Some(scores.clone()), Some(2));
    assert_eq!(two.results, vec![ranked(2), ranked(3)]);
    assert_eq!(reply(Some(scores.clone()), Some(9)).results.len(), 4);
    assert_eq!(reply(Some(scores.clone()), Some(0)).results.len(), 0);
    assert_eq!(reply(Some(vec![]), Some(3)).status, Status::Done);
}

#[test]
fn scoring_that_fails() {
    assert_eq!(reply(None, Some(1)).status, Status::ScoringFailed);
    assert!(reply(None, None).results.is_empty());
    let uncomparable = reply(Some(bits(&[1.0, f32::NAN])), None);
    assert_eq!(uncomparable.status, Status::ScoringFailed);
    assert!(uncomparable.results.is_empty());
}

#[test]
fn the_first_line_holds_the_payload() {
    let text = format!("{BODY}\n{{\"query\": \"other\"}}\n");
    let mut payload = first_payload(&text).unwrap();
    assert_eq!(payload.query, "q");
    payload.keep_first(2);
    assert_eq!(payload.documents, vec!["a", "b"]);
    payload.keep_first(100);
    assert_eq!(payload.documents.len(), 2);
    payload.keep_first(0);
    assert!(payload.documents.is_empty());
}

#[test]
fn files_without_a_payload() {
    assert!(matches!(first_payload(""), Err(PayloadError::Empty)));
    assert!(matches!(first_payload("\n{}"), Err(PayloadError::NotJson(_))));
    assert!(matches!(first_payload("{"), Err(PayloadError::NotJson(_))));
    assert!(matches!(first_payload("{}"), Err(PayloadError::Incomplete)));
    let half = r#"{"query": "q", "documents": [1]}"#;
    assert!(matches!(first_payload(half), Err(PayloadError::Incomplete)));
}

#[test]
fn payloads_from_values() {
    let v = Json::parse(r#"{"documents": ["x"], "query": "y"}"#).unwrap();
    let payload = Payload::from_json(&v).unwrap();
    assert_eq!((payload.query.as_str(), payload.documents.len()), ("y", 1));
    assert!(Payload::from_json(&Json::Null).is_none());
}
