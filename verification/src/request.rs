//! Requests: a query with documents, read from JSON, and how the server answers.

use crate::json::{document_of, Json, JsonView};
use crate::rank::{can_rank, is_rankable, is_ranking, is_top, real_key, top};
use crate::rank::{law_ranking_descends, law_ranking_lists_all};
use crate::text::{first_line, first_line_of, same_text};
use vstd::prelude::*;

verus! {

/// The texts of a list, if it holds nothing else.
pub open spec fn texts_in(items: Seq<JsonView>) -> Option<Seq<Seq<char>>> {
    if forall|i: int| 0 <= i < items.len() ==> (#[trigger] items[i]).as_str() is Some {
        Some(Seq::new(items.len(), |i: int| items[i].as_str()->0))
    } else {
        None
    }
}

/// The query of a request.
pub open spec fn query_in(v: JsonView) -> Option<Seq<char>> {
    match v.get("query"@) {
        Some(q) => q.as_str(),
        None => None,
    }
}

/// The documents of a request.
pub open spec fn documents_in(v: JsonView) -> Option<Seq<Seq<char>>> {
    match v.get("documents"@) {
        Some(d) => match d.as_array() {
            Some(items) => texts_in(items),
            None => None,
        },
        None => None,
    }
}

/// The number of results that a request asks for: all, where it does not say; no
/// number at all, where it says anything but a count.
pub open spec fn top_n_in(v: JsonView) -> Option<Option<nat>> {
    match v.get("top_n"@) {
        None => Some(None),
        Some(JsonView::Null) => Some(None),
        Some(n) => match n.as_i64() {
            Some(k) => if 0 <= k <= usize::MAX {
                Some(Some(k as nat))
            } else {
                None
            },
            None => None,
        },
    }
}

/// The character views of documents.
pub open spec fn views_of(docs: Seq<String>) -> Seq<Seq<char>> {
    Seq::new(docs.len(), |i: int| docs[i]@)
}

/// A query and the documents to rank for it.
#[derive(Debug)]
pub struct Payload {
    pub query: String,
    pub documents: Vec<String>,
}

impl Payload {
    /// Whether this is what `v` holds.
    pub open spec fn is_in(&self, v: JsonView) -> bool {
        &&& query_in(v) == Some(self.query@)
        &&& documents_in(v) == Some(views_of(self.documents@))
    }

    fn texts(items: &Vec<Json>) -> (r: Option<Vec<String>>)
        ensures
            match r {
                Some(texts) => texts_in(Seq::new(items@.len(), |i: int| items@[i]@)) == Some(
                    views_of(texts@),
                ),
                None => texts_in(Seq::new(items@.len(), |i: int| items@[i]@)) is None,
            },
    {
        let ghost all = Seq::new(items@.len(), |i: int| items@[i]@);
        let mut texts: Vec<String> = Vec::new();
        let mut i: usize = 0;
        while i < items.len()
            invariant
                i <= items@.len(),
                all == Seq::new(items@.len(), |i: int| items@[i]@),
                texts@.len() == i,
                forall|j: int|
                    0 <= j < i ==> (#[trigger] all[j]).as_str() == Some(texts@[j]@),
            decreases items@.len() - i,
        {
            match items[i].as_str() {
                Some(text) => texts.push(text.clone()),
                None => {
                    assert(all[i as int].as_str() is None);
                    return None;
                },
            }
            i += 1;
        }
        assert(texts_in(all)->0 =~= views_of(texts@));
        Some(texts)
    }

    /// Reads a query and documents, if the value holds both.
    pub fn from_json(v: &Json) -> (r: Option<Self>)
        ensures
            match r {
                Some(p) => p.is_in(v@),
                None => query_in(v@) is None || documents_in(v@) is None,
            },
    {
        let query = v.get("query")?.as_str()?.clone();
        let documents = Self::texts(v.get("documents")?.as_array()?)?;
        Some(Payload { query, documents })
    }

    /// Keeps the first `n` documents, or all where there are not as many.
    pub fn keep_first(&mut self, n: usize)
        ensures
            final(self).query == old(self).query,
            final(self).documents@ == old(self).documents@.take(
                if n < old(self).documents@.len() {
                    n as int
                } else {
                    old(self).documents@.len() as int
                },
            ),
    {
        let ghost before = self.documents@;
        if n < self.documents.len() {
            self.documents.truncate(n);
            assert(self.documents@ =~= before.take(n as int));
        } else {
            assert(self.documents@ =~= before.take(before.len() as int));
        }
    }
}

/// Why there is no payload in a file.
#[derive(Debug)]
pub enum PayloadError {
    /// The file has no line.
    Empty,
    /// The first line is no JSON document.
    NotJson(serde_json::Error),
    /// The first line holds no query, or no list of documents.
    Incomplete,
}

/// Reads the payload on the first line of a file's contents.
pub fn first_payload(contents: &str) -> (r: Result<Payload, PayloadError>)
    ensures
        match r {
            Ok(payload) => first_line_of(contents@) matches Some(line) && document_of(
                line,
            ) matches Some(v) && payload.is_in(v),
            Err(PayloadError::Empty) => first_line_of(contents@) is None,
            Err(PayloadError::NotJson(_)) => first_line_of(contents@) matches Some(line)
                && document_of(line) is None,
            Err(PayloadError::Incomplete) => first_line_of(contents@) matches Some(line)
                && document_of(line) matches Some(v) && (query_in(v) is None || documents_in(
                v,
            ) is None),
        },
{
    let line = match first_line(contents) {
        Some(line) => line,
        None => return Err(PayloadError::Empty),
    };
    match Json::parse(line.as_str()) {
        Ok(v) => match Payload::from_json(&v) {
            Some(payload) => Ok(payload),
            None => Err(PayloadError::Incomplete),
        },
        Err(e) => Err(PayloadError::NotJson(e)),
    }
}

/// A request to rank documents.
#[derive(Debug)]
pub struct RerankRequest {
    pub payload: Payload,
    /// The number of results to give back; all, where there is none.
    pub top_n: Option<usize>,
}

/// Whether a value is a request: what else it holds is ignored.
pub open spec fn is_request(v: JsonView) -> bool {
    query_in(v) is Some && documents_in(v) is Some && top_n_in(v) is Some
}

/// A count over naturals.
pub open spec fn count_of(n: Option<usize>) -> Option<nat> {
    match n {
        Some(k) => Some(k as nat),
        None => None,
    }
}

impl RerankRequest {
    /// Whether this is what `v` holds.
    pub open spec fn is_in(&self, v: JsonView) -> bool {
        self.payload.is_in(v) && top_n_in(v) == Some(count_of(self.top_n))
    }

    fn limit(v: &Json) -> (r: Option<Option<usize>>)
        ensures
            match r {
                Some(n) => top_n_in(v@) == Some(count_of(n)),
                None => top_n_in(v@) is None,
            },
    {
        match v.get("top_n") {
            None => Some(None),
            Some(Json::Null) => Some(None),
            Some(n) => match n.as_i64() {
                Some(k) => if k >= 0 && k as u64 <= usize::MAX as u64 {
                    Some(Some(k as usize))
                } else {
                    None
                },
                None => None,
            },
        }
    }

    /// Reads a request, if the value is one.
    pub fn from_json(v: &Json) -> (r: Option<Self>)
        ensures
            match r {
                Some(request) => request.is_in(v@),
                None => !is_request(v@),
            },
    {
        let payload = Payload::from_json(v)?;
        let top_n = Self::limit(v)?;
        Some(RerankRequest { payload, top_n })
    }
}

/// How a request ends.
#[derive(Clone, Copy, Debug, PartialEq, Eq, Structural)]
pub enum Status {
    Done,
    Malformed,
    NotFound,
    ScoringFailed,
}

impl Status {
    /// The HTTP status code.
    pub open spec fn http_code(self) -> u16 {
        match self {
            Status::Done => 200,
            Status::Malformed => 400,
            Status::NotFound => 404,
            Status::ScoringFailed => 500,
        }
    }

    /// The HTTP status code.
    pub fn code(&self) -> (r: u16)
        ensures
            r == self.http_code(),
    {
        match self {
            Status::Done => 200,
            Status::Malformed => 400,
            Status::NotFound => 404,
            Status::ScoringFailed => 500,
        }
    }
}

/// Whether a request is for the one route that there is.
pub open spec fn is_rerank_route(method: Seq<char>, path: Seq<char>) -> bool {
    method == "POST"@ && path == "/rerank"@
}

/// What the server does with a request.
#[derive(Debug)]
pub enum Action {
    /// Answer at once, with no results.
    Refuse(Status),
    /// Score the documents and answer with the best.
    Score(RerankRequest),
}

/// What the server does with the parsed body of a request on its route: without
/// a value, or with a value that is no request, the body is malformed.
pub open spec fn is_action_on(action: Action, body: Option<JsonView>) -> bool {
    match action {
        Action::Refuse(status) => status == Status::Malformed && (body matches Some(v)
            ==> !is_request(v)),
        Action::Score(request) => body matches Some(v) && request.is_in(v),
    }
}

/// Decides on the parsed body of a request on the server's route.
pub fn decide(body: Option<Json>) -> (r: Action)
    ensures
        is_action_on(
            r,
            match body {
                Some(v) => Some(v@),
                None => None,
            },
        ),
{
    match body {
        Some(v) => match RerankRequest::from_json(&v) {
            Some(request) => Action::Score(request),
            None => Action::Refuse(Status::Malformed),
        },
        None => Action::Refuse(Status::Malformed),
    }
}

/// Decides on a request. Anything but `POST /rerank` is not found, whatever its
/// body; a body that is no JSON document or no request is malformed.
pub fn handle(method: &str, path: &str, body: &str) -> (r: Action)
    ensures
        !is_rerank_route(method@, path@) ==> r == Action::Refuse(Status::NotFound),
        is_rerank_route(method@, path@) ==> is_action_on(r, document_of(body@)),
{
    if !same_text(method, "POST") || !same_text(path, "/rerank") {
        return Action::Refuse(Status::NotFound);
    }
    match Json::parse(body) {
        Ok(v) => decide(Some(v)),
        Err(_) => decide(None),
    }
}

/// One document of an answer.
#[derive(Clone, Copy, Debug, PartialEq, Eq, Structural)]
pub struct Ranked {
    /// The document's position in the request.
    pub index: usize,
    /// The bits of its relevance score.
    pub score: u32,
}

/// An answer to a request whose documents were scored.
#[derive(Debug)]
pub struct Reply {
    pub status: Status,
    /// The results, best first.
    pub results: Vec<Ranked>,
}

/// The positions of the results.
pub open spec fn indices(results: Seq<Ranked>) -> Seq<usize> {
    Seq::new(results.len(), |i: int| results[i].index)
}

/// Whether `results` are the best `top_n` of `scores`, best first, or all of them.
pub open spec fn are_results(results: Seq<Ranked>, scores: Seq<u32>, top_n: Option<usize>) -> bool {
    &&& match top_n {
        Some(n) => is_top(scores, n as int, indices(results)),
        None => is_ranking(scores, indices(results)),
    }
    &&& forall|i: int|
        0 <= i < results.len() ==> (#[trigger] results[i]).index < scores.len() && results[i].score
            == scores[results[i].index as int]
}

/// Answers a request with the scores of its documents, or with a failure where
/// scoring failed or gave scores that cannot be compared.
pub fn reply(scores: Option<Vec<u32>>, top_n: Option<usize>) -> (r: Reply)
    ensures
        match scores {
            Some(s) => if can_rank(s@) {
                r.status == Status::Done && are_results(r.results@, s@, top_n)
            } else {
                r.status == Status::ScoringFailed && r.results@.len() == 0
            },
            None => r.status == Status::ScoringFailed && r.results@.len() == 0,
        },
{
    let scores = match scores {
        Some(s) => s,
        None => {
            return Reply { status: Status::ScoringFailed, results: Vec::new() };
        },
    };
    if !is_rankable(&scores) {
        return Reply { status: Status::ScoringFailed, results: Vec::new() };
    }
    let order = top(&scores, top_n);
    proof {
        match top_n {
            Some(n) => lemma_top_is_in_range(scores@, n as int, order@),
            None => law_ranking_lists_all(scores@, order@),
        }
    }
    let mut results: Vec<Ranked> = Vec::new();
    let mut i: usize = 0;
    while i < order.len()
        invariant
            i <= order@.len(),
            results@.len() == i,
            forall|j: int| 0 <= j < order@.len() ==> #[trigger] order@[j] < scores@.len(),
            forall|j: int|
                0 <= j < i ==> (#[trigger] results@[j]).index == order@[j] && results@[j].score
                    == scores@[order@[j] as int],
        decreases order@.len() - i,
    {
        results.push(Ranked { index: order[i], score: scores[order[i]] });
        i += 1;
    }
    assert(indices(results@) =~= order@);
    Reply { status: Status::Done, results }
}

proof fn lemma_top_is_in_range(scores: Seq<u32>, limit: int, top: Seq<usize>)
    requires
        limit >= 0,
        is_top(scores, limit, top),
    ensures
        top.len() == if limit < scores.len() {
            limit
        } else {
            scores.len() as int
        },
        forall|i: int| 0 <= i < top.len() ==> #[trigger] top[i] < scores.len(),
{
    let order = choose|order: Seq<usize>| #[trigger]
        is_ranking(scores, order) && top == order.take(
            if limit < order.len() {
                limit
            } else {
                order.len() as int
            },
        );
    law_ranking_lists_all(scores, order);
}

/// An answer holds as many results as the request asks for and has documents.
pub proof fn law_results_count(results: Seq<Ranked>, scores: Seq<u32>, top_n: Option<usize>)
    requires
        are_results(results, scores, top_n),
    ensures
        results.len() == match top_n {
            Some(n) => if n < scores.len() {
                n as int
            } else {
                scores.len() as int
            },
            None => scores.len() as int,
        },
{
    match top_n {
        Some(n) => lemma_top_is_in_range(scores, n as int, indices(results)),
        None => law_ranking_lists_all(scores, indices(results)),
    }
}

/// The results of an answer descend by score, and none stands in it twice.
pub proof fn law_results_descend(
    results: Seq<Ranked>,
    scores: Seq<u32>,
    top_n: Option<usize>,
    i: int,
    j: int,
)
    requires
        are_results(results, scores, top_n),
        0 <= i < j < results.len(),
    ensures
        real_key(results[i].score) >= real_key(results[j].score),
        results[i].index != results[j].index,
{
    let top = indices(results);
    let order = match top_n {
        Some(n) => choose|order: Seq<usize>| #[trigger]
            is_ranking(scores, order) && top == order.take(
                if n < order.len() {
                    n as int
                } else {
                    order.len() as int
                },
            ),
        None => top,
    };
    law_results_count(results, scores, top_n);
    law_ranking_lists_all(scores, order);
    assert(top[i] == order[i] && top[j] == order[j]);
    law_ranking_descends(scores, order, i, j);
}

} // verus!
