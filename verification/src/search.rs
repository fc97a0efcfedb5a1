//! The search endpoint's logic: reading the query, the SQL of the two
//! searches (vector similarity and BM25), merging their ranked results by
//! title for reciprocal rank fusion, and the response.
use vstd::prelude::*;
use crate::text::{decimal, decimal_string, join, join_words, trim, trim_str};
use crate::morphology::{ipadic_segmentation, morphology};

verus! {

/// The number of hits that each of the two searches asks for.
pub const SEARCH_TOP_K: usize = 10;

/// The constant `k` of reciprocal rank fusion: a hit at rank `r` (counted
/// from 0) scores `1 / (k + r + 1)`.
pub const RRF_K: usize = 60;

/// The number of fused hits that a search returns.
pub const FUSED_LIMIT: usize = 5;

/// A search request: the text typed by the user.
#[derive(Debug, Clone)]
pub struct SearchRequest {
    pub text: String,
}

/// A hit of one of the searches.
#[derive(Debug)]
pub struct SearchResult {
    pub title: String,
    pub url: String,
    pub thumbnail: Option<String>,
}

/// A hit as the response shows it.
#[derive(Debug, Clone)]
pub struct SearchResultItem {
    pub title: String,
    pub url: String,
    pub thumbnail: Option<String>,
}

/// The response of the search endpoint.
#[derive(Debug, Clone)]
pub struct SearchResponse {
    pub status: bool,
    pub results: Vec<SearchResultItem>,
    pub msg: Option<String>,
}

fn clone_opt(s: &Option<String>) -> (r: Option<String>)
    ensures
        r == *s,
{
    match s {
        Some(x) => Some(x.clone()),
        None => None,
    }
}

impl SearchResult {
    /// A copy of the hit.
    pub fn duplicate(&self) -> (r: SearchResult)
        ensures
            r == *self,
    {
        SearchResult {
            title: self.title.clone(),
            url: self.url.clone(),
            thumbnail: clone_opt(&self.thumbnail),
        }
    }
}

/// The failed response with the given message and no results.
pub fn failure_response(msg: String) -> (r: SearchResponse)
    ensures
        !r.status,
        r.results.len() == 0,
        r.msg == Some(msg),
{
    SearchResponse { status: false, results: Vec::new(), msg: Some(msg) }
}

/// The steps of a search that can fail before the two searches run.
#[derive(Debug, Clone, Copy)]
pub enum SearchStep {
    Connect,
    Embed,
    Tokenize,
}

/// What a failed step is called in the response.
pub open spec fn step_prefix(step: SearchStep) -> Seq<char> {
    match step {
        SearchStep::Connect => "Error connecting to database: "@,
        SearchStep::Embed => "Error generating embedding: "@,
        SearchStep::Tokenize => "Error generating tokens: "@,
    }
}

/// The failed response for a step that failed with the given error.
pub fn step_failure(step: SearchStep, error: &str) -> (r: SearchResponse)
    ensures
        !r.status,
        r.results.len() == 0,
        (r.msg matches Some(m) && m@ == step_prefix(step) + error@),
{
    let mut msg = match step {
        SearchStep::Connect => String::from_str("Error connecting to database: "),
        SearchStep::Embed => String::from_str("Error generating embedding: "),
        SearchStep::Tokenize => String::from_str("Error generating tokens: "),
    };
    msg.append(error);
    failure_response(msg)
}

/// The query of a request: its text, trimmed; an empty query is answered at
/// once with a failed response saying so.
pub fn prepare_query(req: &SearchRequest) -> (r: Result<String, SearchResponse>)
    ensures
        (trim(req.text@).len() > 0 ==> (r matches Ok(q) && q@ == trim(req.text@))),
        (trim(req.text@).len() == 0 ==> (r matches Err(resp) && (!resp.status && resp.results.len()
            == 0 && (resp.msg matches Some(m) && m@ == "Query is empty"@)))),
{
    let q = trim_str(req.text.as_str());
    if q.unicode_len() == 0 {
        Err(failure_response(String::from_str("Query is empty")))
    } else {
        Ok(q)
    }
}

/// The text embedded for a query: the query prefix that the e5 model
/// expects, then the query.
pub fn query_text(text: &str) -> (r: String)
    ensures
        r@ == "query: "@ + text@,
{
    let mut r = String::from_str("query: ");
    r.append(text);
    r
}

/// The successful response listing the given hits in their order.
pub fn success_response(results: &Vec<SearchResult>) -> (r: SearchResponse)
    ensures
        r.status,
        r.msg is None,
        r.results.len() == results.len(),
        forall|i: int|
            0 <= i < results.len() ==> (#[trigger] r.results[i]).title == results[i].title
                && r.results[i].url == results[i].url && r.results[i].thumbnail
                == results[i].thumbnail,
{
    let mut items: Vec<SearchResultItem> = Vec::new();
    let mut i: usize = 0;
    while i < results.len()
        invariant
            0 <= i <= results.len(),
            items.len() == i,
            forall|k: int|
                0 <= k < i ==> (#[trigger] items[k]).title == results[k].title && items[k].url
                    == results[k].url && items[k].thumbnail == results[k].thumbnail,
        decreases results.len() - i,
    {
        let r = results[i].duplicate();
        items.push(SearchResultItem { title: r.title, url: r.url, thumbnail: r.thumbnail });
        i = i + 1;
    }
    SearchResponse { status: true, results: items, msg: None }
}

/// Whether the response is a failure with the given message and no hits.
pub open spec fn fails_with(resp: SearchResponse, msg: Seq<char>) -> bool {
    &&& !resp.status
    &&& resp.results.len() == 0
    &&& resp.msg matches Some(m) && m@ == msg
}

/// Whether the response is a success listing the given hits in their order.
pub open spec fn lists_hits(resp: SearchResponse, hits: Seq<SearchResult>) -> bool {
    &&& resp.status
    &&& resp.msg is None
    &&& resp.results.len() == hits.len()
    &&& forall|i: int|
        0 <= i < hits.len() ==> (#[trigger] resp.results[i]).title == hits[i].title
            && resp.results[i].url == hits[i].url && resp.results[i].thumbnail == hits[i].thumbnail
}

/// Where a search stands: not begun, connecting to the database, embedding
/// the query, running the two searches, or answered.
#[derive(Debug)]
pub enum SearchState {
    Start,
    Connecting { text: String },
    Embedding { text: String },
    Searching,
    Done,
}

/// What the search is told: the request, whether the database connection
/// and the query's embedding succeeded (with the error when not), and the
/// fused hits of the two searches.
#[derive(Debug)]
pub enum SearchEvent {
    Begin(SearchRequest),
    Connected(Result<(), String>),
    Embedded(Result<(), String>),
    Ranked(Vec<SearchResult>),
}

/// What the search asks for next: to connect, to embed a text, to run the
/// vector search with the embedding and the BM25 search over the given
/// tokens and fuse their hits, or to answer.
#[derive(Debug)]
pub enum SearchAction {
    Connect,
    Embed { text: String },
    Search { tokens: String },
    Reply(SearchResponse),
}

/// Whether the event is the one that the search waits for in that state.
pub open spec fn search_expects(state: SearchState, event: SearchEvent) -> bool {
    match state {
        SearchState::Start => event is Begin,
        SearchState::Connecting { .. } => event is Connected,
        SearchState::Embedding { .. } => event is Embedded,
        SearchState::Searching => event is Ranked,
        SearchState::Done => false,
    }
}

/// One step of a search. An empty query is answered at once; then the
/// database is connected, the query embedded and segmented into tokens, and
/// the two searches run; the first of these steps that fails answers with
/// its error, and the fused hits are the answer otherwise.
pub fn search_step(state: SearchState, event: SearchEvent) -> (r: (SearchState, SearchAction))
    requires
        search_expects(state, event),
    ensures
        match (state, event) {
            (SearchState::Start, SearchEvent::Begin(req)) => if trim(req.text@).len() == 0 {
                r.0 is Done && (r.1 matches SearchAction::Reply(resp) && fails_with(
                    resp,
                    "Query is empty"@,
                ))
            } else {
                (r.0 matches SearchState::Connecting { text } && text@ == trim(req.text@))
                    && r.1 is Connect
            },
            (SearchState::Connecting { text }, SearchEvent::Connected(c)) => match c {
                Ok(_) => (r.0 matches SearchState::Embedding { text: t } && t@ == text@) && (
                r.1 matches SearchAction::Embed { text: q } && q@ == "query: "@ + text@),
                Err(e) => r.0 is Done && (r.1 matches SearchAction::Reply(resp) && fails_with(
                    resp,
                    step_prefix(SearchStep::Connect) + e@,
                )),
            },
            (SearchState::Embedding { text }, SearchEvent::Embedded(c)) => match c {
                Ok(_) => match ipadic_segmentation(text@) {
                    Some(tokens) => r.0 is Searching && (r.1 matches SearchAction::Search {
                        tokens: t,
                    } && t@ == join(tokens, seq![' '])),
                    None => r.0 is Done && (r.1 matches SearchAction::Reply(resp) && !resp.status
                        && resp.results.len() == 0 && (resp.msg matches Some(m) && m@.len()
                        >= step_prefix(SearchStep::Tokenize).len() && m@.subrange(
                        0,
                        step_prefix(SearchStep::Tokenize).len() as int,
                    ) == step_prefix(SearchStep::Tokenize))),
                },
                Err(e) => r.0 is Done && (r.1 matches SearchAction::Reply(resp) && fails_with(
                    resp,
                    step_prefix(SearchStep::Embed) + e@,
                )),
            },
            (SearchState::Searching, SearchEvent::Ranked(hits)) => r.0 is Done && (
            r.1 matches SearchAction::Reply(resp) && lists_hits(resp, hits@)),
            _ => false,
        },
{
    match (state, event) {
        (SearchState::Start, SearchEvent::Begin(req)) => match prepare_query(&req) {
            Ok(text) => (SearchState::Connecting { text }, SearchAction::Connect),
            Err(resp) => (SearchState::Done, SearchAction::Reply(resp)),
        },
        (SearchState::Connecting { text }, SearchEvent::Connected(c)) => match c {
            Ok(_) => {
                let q = query_text(text.as_str());
                (SearchState::Embedding { text }, SearchAction::Embed { text: q })
            },
            Err(e) => (
                SearchState::Done,
                SearchAction::Reply(step_failure(SearchStep::Connect, e.as_str())),
            ),
        },
        (SearchState::Embedding { text }, SearchEvent::Embedded(c)) => match c {
            Ok(_) => match morphology(text.as_str()) {
                Ok(tokens) => {
                    let t = join_words(&tokens);
                    (SearchState::Searching, SearchAction::Search { tokens: t })
                },
                Err(e) => {
                    let resp = step_failure(SearchStep::Tokenize, e.message.as_str());
                    proof {
                        let p = step_prefix(SearchStep::Tokenize);
                        assert((p + e.message@).subrange(0, p.len() as int) =~= p);
                    }
                    (SearchState::Done, SearchAction::Reply(resp))
                },
            },
            Err(e) => (
                SearchState::Done,
                SearchAction::Reply(step_failure(SearchStep::Embed, e.as_str())),
            ),
        },
        (SearchState::Searching, SearchEvent::Ranked(hits)) => (
            SearchState::Done,
            SearchAction::Reply(success_response(&hits)),
        ),
        (SearchState::Done, _) => {
            proof {
                assert(false);
            }
            (SearchState::Done, SearchAction::Connect)
        },
        (SearchState::Start, _) => {
            proof {
                assert(false);
            }
            (SearchState::Done, SearchAction::Connect)
        },
        (SearchState::Connecting { .. }, _) => {
            proof {
                assert(false);
            }
            (SearchState::Done, SearchAction::Connect)
        },
        (SearchState::Embedding { .. }, _) => {
            proof {
                assert(false);
            }
            (SearchState::Done, SearchAction::Connect)
        },
        (SearchState::Searching, _) => {
            proof {
                assert(false);
            }
            (SearchState::Done, SearchAction::Connect)
        },
    }
}

/// The SQL of the vector similarity search over `table`, best `top_k` hits
/// first; the query embedding is its parameter `$1`.
pub open spec fn vector_search_sql_of(table: Seq<char>, top_k: nat) -> Seq<char> {
    "SELECT title, url, thumbnail, embeds <=> $1::text::vector AS score FROM "@ + table
        + " ORDER BY score LIMIT "@ + decimal(top_k)
}

/// The SQL of the BM25 search over `table`, best `top_k` hits first; the
/// query tokens are its parameter `$1`, matched through the index
/// `<table>_tokens_idx`.
pub open spec fn bm25_sql_of(table: Seq<char>, top_k: nat) -> Seq<char> {
    "SELECT title, url, thumbnail, tokens <@> to_bm25query($1, '"@ + table
        + "_tokens_idx') AS score FROM "@ + table + " ORDER BY score ASC LIMIT "@ + decimal(top_k)
}

pub fn vector_search_sql(table: &str, top_k: usize) -> (r: String)
    ensures
        r@ == vector_search_sql_of(table@, top_k as nat),
{
    let mut r = String::from_str(
        "SELECT title, url, thumbnail, embeds <=> $1::text::vector AS score FROM ",
    );
    r.append(table);
    r.append(" ORDER BY score LIMIT ");
    let k = decimal_string(top_k);
    r.append(k.as_str());
    r
}

pub fn bm25_sql(table: &str, top_k: usize) -> (r: String)
    ensures
        r@ == bm25_sql_of(table@, top_k as nat),
{
    let mut r = String::from_str("SELECT title, url, thumbnail, tokens <@> to_bm25query($1, '");
    r.append(table);
    r.append("_tokens_idx') AS score FROM ");
    r.append(table);
    r.append(" ORDER BY score ASC LIMIT ");
    let k = decimal_string(top_k);
    r.append(k.as_str());
    r
}

/// A title merged from the two searches: the hit kept for it, its rank in
/// the vector search (the last one, if the title came more than once) and
/// all of its ranks in the BM25 search. Its fused score is the sum of
/// `1 / (RRF_K + rank + 1)` over these ranks.
#[derive(Debug)]
pub struct FusedResult {
    pub result: SearchResult,
    pub embed_rank: Option<usize>,
    pub token_ranks: Vec<usize>,
}

/// The titles of the hits.
pub open spec fn titles(s: Seq<SearchResult>) -> Seq<Seq<char>> {
    Seq::new(s.len(), |i: int| s[i].title@)
}

/// The titles in the order in which they first come, each once.
pub open spec fn distinct(s: Seq<Seq<char>>) -> Seq<Seq<char>>
    decreases s.len(),
{
    if s.len() == 0 {
        seq![]
    } else if distinct(s.drop_last()).contains(s.last()) {
        distinct(s.drop_last())
    } else {
        distinct(s.drop_last()).push(s.last())
    }
}

/// The index of the last occurrence of `t` in `s`.
pub open spec fn last_index(s: Seq<Seq<char>>, t: Seq<char>) -> Option<int>
    decreases s.len(),
{
    if s.len() == 0 {
        None
    } else if s.last() == t {
        Some(s.len() - 1)
    } else {
        last_index(s.drop_last(), t)
    }
}

/// The indices of the occurrences of `t` in `s`, ascending.
pub open spec fn indices_of(s: Seq<Seq<char>>, t: Seq<char>) -> Seq<int>
    decreases s.len(),
{
    if s.len() == 0 {
        seq![]
    } else if s.last() == t {
        indices_of(s.drop_last(), t).push(s.len() - 1)
    } else {
        indices_of(s.drop_last(), t)
    }
}

pub open spec fn opt_int(o: Option<usize>) -> Option<int> {
    match o {
        Some(x) => Some(x as int),
        None => None,
    }
}

pub open spec fn ints(s: Seq<usize>) -> Seq<int> {
    Seq::new(s.len(), |i: int| s[i] as int)
}

/// The merge of the two ranked lists by title: one entry per title, in the
/// order in which the titles first come (vector hits, then BM25 hits); each
/// entry with the title's last vector rank, all its BM25 ranks, and the hit
/// of that last vector rank, or, when the vector search did not find the
/// title, its first BM25 hit.
pub open spec fn fused_matches(
    r: Seq<FusedResult>,
    embed: Seq<SearchResult>,
    token: Seq<SearchResult>,
) -> bool {
    let all = titles(embed) + titles(token);
    &&& r.len() == distinct(all).len()
    &&& forall|k: int|
        0 <= k < r.len() ==> {
            let t = (#[trigger] r[k]).result.title@;
            &&& t == distinct(all)[k]
            &&& opt_int(r[k].embed_rank) == last_index(titles(embed), t)
            &&& ints(r[k].token_ranks@) == indices_of(titles(token), t)
            &&& r[k].result == match r[k].embed_rank {
                Some(e) => embed[e as int],
                None => token[r[k].token_ranks@[0] as int],
            }
        }
}

pub proof fn lemma_push_contains(s: Seq<Seq<char>>, x: Seq<char>, t: Seq<char>)
    ensures
        s.push(x).contains(t) <==> (s.contains(t) || t == x),
{
    if s.contains(t) {
        let i = choose|i: int| 0 <= i < s.len() && s[i] == t;
        assert(s.push(x)[i] == t);
    }
    if t == x {
        assert(s.push(x)[s.len() as int] == t);
    }
    if s.push(x).contains(t) {
        let i = choose|i: int| 0 <= i < s.push(x).len() && s.push(x)[i] == t;
        if i < s.len() {
            assert(s[i] == t);
        }
    }
}

pub proof fn lemma_distinct_contains(s: Seq<Seq<char>>, t: Seq<char>)
    ensures
        distinct(s).contains(t) <==> s.contains(t),
    decreases s.len(),
{
    if s.len() > 0 {
        let d = distinct(s.drop_last());
        lemma_distinct_contains(s.drop_last(), t);
        lemma_distinct_contains(s.drop_last(), s.last());
        assert(s =~= s.drop_last().push(s.last()));
        lemma_push_contains(s.drop_last(), s.last(), t);
        lemma_push_contains(d, s.last(), t);
    }
}

pub proof fn lemma_distinct_unique(s: Seq<Seq<char>>)
    ensures
        distinct(s).no_duplicates(),
    decreases s.len(),
{
    if s.len() > 0 {
        lemma_distinct_unique(s.drop_last());
    }
}

pub proof fn lemma_last_index(s: Seq<Seq<char>>, t: Seq<char>)
    ensures
        last_index(s, t) is None <==> !s.contains(t),
        last_index(s, t) matches Some(i) ==> 0 <= i < s.len() && s[i] == t,
    decreases s.len(),
{
    if s.len() > 0 {
        lemma_last_index(s.drop_last(), t);
        if s.contains(t) && s.last() != t {
            let i = choose|i: int| 0 <= i < s.len() && s[i] == t;
            assert(s.drop_last()[i] == t);
        }
        if s.drop_last().contains(t) {
            let i = choose|i: int| 0 <= i < s.drop_last().len() && s.drop_last()[i] == t;
            assert(s[i] == t);
        }
        if s.last() == t {
            assert(s[s.len() - 1] == t);
        }
    }
}

pub proof fn lemma_indices_of(s: Seq<Seq<char>>, t: Seq<char>)
    ensures
        indices_of(s, t).len() == 0 <==> !s.contains(t),
        forall|k: int|
            0 <= k < indices_of(s, t).len() ==> 0 <= #[trigger] indices_of(s, t)[k] < s.len()
                && s[indices_of(s, t)[k]] == t,
    decreases s.len(),
{
    if s.len() > 0 {
        lemma_indices_of(s.drop_last(), t);
        if s.contains(t) && s.last() != t {
            let i = choose|i: int| 0 <= i < s.len() && s[i] == t;
            assert(s.drop_last()[i] == t);
        }
        if s.drop_last().contains(t) {
            let i = choose|i: int| 0 <= i < s.drop_last().len() && s.drop_last()[i] == t;
            assert(s[i] == t);
        }
        if s.last() == t {
            assert(s[s.len() - 1] == t);
        }
        let d = indices_of(s.drop_last(), t);
        assert forall|k: int|
            0 <= k < indices_of(s, t).len() implies 0 <= #[trigger] indices_of(s, t)[k] < s.len()
            && s[indices_of(s, t)[k]] == t by {
            if k < d.len() {
                assert(indices_of(s, t)[k] == d[k]);
                assert(s.drop_last()[d[k]] == t);
            }
        }
    }
}

/// Each title comes once in the fused list, and the fused titles are those
/// that either search found.
pub proof fn lemma_fused_titles(r: Seq<FusedResult>, embed: Seq<SearchResult>, token: Seq<SearchResult>)
    requires
        fused_matches(r, embed, token),
    ensures
        forall|i: int, j: int|
            0 <= i < j < r.len() ==> (#[trigger] r[i]).result.title@ != (#[trigger] r[j]).result.title@,
        forall|t: Seq<char>|
            (exists|k: int| 0 <= k < r.len() && (#[trigger] r[k]).result.title@ == t) <==> (titles(
                embed,
            ).contains(t) || titles(token).contains(t)),
{
    let all = titles(embed) + titles(token);
    lemma_distinct_unique(all);
    assert forall|i: int, j: int| 0 <= i < j < r.len() implies (#[trigger] r[i]).result.title@
        != (#[trigger] r[j]).result.title@ by {
        assert(distinct(all)[i] != distinct(all)[j]);
    }
    assert forall|t: Seq<char>|
        (exists|k: int| 0 <= k < r.len() && (#[trigger] r[k]).result.title@ == t) <==> (titles(
            embed,
        ).contains(t) || titles(token).contains(t)) by {
        lemma_distinct_contains(all, t);
        if exists|k: int| 0 <= k < r.len() && (#[trigger] r[k]).result.title@ == t {
            let k = choose|k: int| 0 <= k < r.len() && (#[trigger] r[k]).result.title@ == t;
            assert(distinct(all)[k] == t);
        }
        if titles(embed).contains(t) {
            let k = choose|k: int| 0 <= k < titles(embed).len() && titles(embed)[k] == t;
            assert(all[k] == t);
        }
        if titles(token).contains(t) {
            let k = choose|k: int| 0 <= k < titles(token).len() && titles(token)[k] == t;
            assert(all[titles(embed).len() + k] == t);
        }
        if all.contains(t) {
            let k = choose|k: int| 0 <= k < all.len() && all[k] == t;
            if k < titles(embed).len() {
                assert(titles(embed)[k] == t);
            } else {
                assert(titles(token)[k - titles(embed).len()] == t);
            }
        }
        if distinct(all).contains(t) {
            let k = choose|k: int| 0 <= k < distinct(all).len() && distinct(all)[k] == t;
            assert(r[k].result.title@ == t);
        }
    }
}

/// Whether hit `i` ranks before hit `j`: a higher score first, and among
/// equal scores the hit that came first.
pub open spec fn ranks_before(keys: Seq<u64>, i: int, j: int) -> bool {
    keys[i] > keys[j] || (keys[i] == keys[j] && i < j)
}

/// Whether `r` lists the indices of the `limit` best-scored hits, best
/// first, hits with equal scores in the order in which they came (what a
/// stable sort by descending score followed by `take(limit)` keeps).
pub open spec fn is_top_selection(keys: Seq<u64>, limit: nat, r: Seq<usize>) -> bool {
    &&& r.len() == (if keys.len() < limit {
        keys.len()
    } else {
        limit
    })
    &&& forall|p: int| 0 <= p < r.len() ==> (#[trigger] r[p]) < keys.len()
    &&& forall|p: int, q: int|
        0 <= p < q < r.len() ==> ranks_before(keys, #[trigger] r[p] as int, #[trigger] r[q] as int)
    &&& forall|i: int, p: int|
        0 <= i < keys.len() && 0 <= p < r.len() && !has_index(r, i) ==> #[trigger] ranks_before(
            keys,
            r[p] as int,
            i,
        )
}

/// The indices of the `limit` best-scored hits, best first, hits with equal
/// scores in the order in which they came. `keys[i]` is hit `i`'s score, in
/// any encoding that orders as the scores do.
pub fn top_indices(keys: &Vec<u64>, limit: usize) -> (r: Vec<usize>)
    ensures
        is_top_selection(keys@, limit as nat, r@),
{
    let n = keys.len();
    let want: usize = if n < limit {
        n
    } else {
        limit
    };
    let mut chosen: Vec<bool> = Vec::new();
    let mut i: usize = 0;
    while i < n
        invariant
            n == keys.len(),
            0 <= i <= n,
            chosen.len() == i,
            forall|k: int| 0 <= k < i ==> !chosen[k],
        decreases n - i,
    {
        chosen.push(false);
        i = i + 1;
    }
    let mut out: Vec<usize> = Vec::new();
    while out.len() < want
        invariant
            n == keys.len(),
            want <= n,
            want == (if n < limit {
                n
            } else {
                limit
            }),
            chosen.len() == n,
            out.len() <= want,
            forall|p: int| 0 <= p < out.len() ==> (#[trigger] out[p]) < n,
            forall|k: int| 0 <= k < n ==> (chosen[k] <==> #[trigger] has_index(out@, k)),
            forall|p: int, q: int|
                0 <= p < q < out.len() ==> ranks_before(keys@, #[trigger] out[p] as int, #[trigger] out[q] as int),
            forall|k: int, p: int|
                0 <= k < n && 0 <= p < out.len() && !chosen[k] ==> #[trigger] ranks_before(
                    keys@,
                    out[p] as int,
                    k,
                ),
        decreases want - out.len(),
    {
        // some index is still free, since fewer than n were taken
        proof {
            if forall|k: int| 0 <= k < n ==> chosen[k] {
                assert forall|k: int| 0 <= k < n implies #[trigger] has_index(out@, k) by {
                    assert(chosen[k]);
                }
                lemma_indices_pigeonhole(out@, n as int);
            }
        }
        let mut best: Option<usize> = None;
        let mut j: usize = 0;
        while j < n
            invariant
                n == keys.len(),
                chosen.len() == n,
                0 <= j <= n,
                match best {
                    Some(b) => b < j && !chosen[b as int] && forall|k: int|
                        0 <= k < j && !chosen[k] && k != b ==> ranks_before(keys@, b as int, k),
                    None => forall|k: int| 0 <= k < j ==> chosen[k],
                },
            decreases n - j,
        {
            if !chosen[j] {
                match best {
                    None => {
                        best = Some(j);
                    },
                    Some(b) => {
                        if keys[j] > keys[b] {
                            best = Some(j);
                        }
                    },
                }
            }
            j = j + 1;
        }
        let b = match best {
            Some(b) => b,
            None => {
                proof {
                    assert(false);
                }
                0
            },
        };
        let ghost before_out = out@;
        let ghost old_chosen = chosen@;
        out.push(b);
        chosen.set(b, true);
        proof {
            assert forall|k: int| 0 <= k < n implies (chosen[k] <==> #[trigger] has_index(out@, k)) by {
                if k == b {
                    assert(out@[out@.len() - 1] == b);
                } else {
                    assert(chosen[k] == old_chosen[k]);
                    assert(old_chosen[k] == has_index(before_out, k));
                    if has_index(before_out, k) {
                        let p = choose|p: int| 0 <= p < before_out.len() && before_out[p] == k as usize;
                        assert(out@[p] == k as usize);
                    }
                    if has_index(out@, k) {
                        let p = choose|p: int| 0 <= p < out@.len() && out@[p] == k as usize;
                        assert(p < before_out.len());
                        assert(before_out[p] == k as usize);
                    }
                }
            }
            assert forall|p: int, q: int| 0 <= p < q < out.len() implies ranks_before(
                keys@,
                #[trigger] out[p] as int,
                #[trigger] out[q] as int,
            ) by {
                if q == out.len() - 1 {
                    assert(out[q] == b);
                    assert(out[p] == before_out[p]);
                }
            }
        }
    }
    out
}

pub open spec fn has_index(s: Seq<usize>, k: int) -> bool {
    0 <= k <= usize::MAX && s.contains(k as usize)
}

/// A list of indices below `n` that holds each of them has at least `n`
/// entries.
proof fn lemma_indices_pigeonhole(s: Seq<usize>, n: int)
    requires
        0 <= n <= usize::MAX,
        forall|k: int| 0 <= k < n ==> #[trigger] has_index(s, k),
    ensures
        s.len() >= n,
    decreases n,
{
    if n > 0 {
        let p = choose|p: int| 0 <= p < s.len() && s[p] == (n - 1) as usize;
        let t = s.remove(p);
        assert(has_index(s, n - 1));
        assert forall|k: int| 0 <= k < n - 1 implies #[trigger] has_index(t, k) by {
            assert(has_index(s, k));
            let q = choose|q: int| 0 <= q < s.len() && s[q] == k as usize;
            if q < p {
                assert(t[q] == k as usize);
            } else {
                assert(q != p);
                assert(t[q - 1] == k as usize);
            }
        }
        lemma_indices_pigeonhole(t, n - 1);
    }
}

/// The titles of the selected hits, in the order of the selection.
pub open spec fn selected_titles(titles: Seq<Seq<char>>, r: Seq<usize>) -> Seq<Seq<char>> {
    Seq::new(r.len(), |p: int| titles[r[p] as int])
}

/// The conditions under which two top selections over two lists of titles
/// are compared: each list holds each title once, both hold the same
/// titles, a title has the same score in both, and no score comes twice in
/// either list.
pub open spec fn same_scored_titles(
    titles1: Seq<Seq<char>>,
    keys1: Seq<u64>,
    titles2: Seq<Seq<char>>,
    keys2: Seq<u64>,
) -> bool {
    &&& titles1.len() == keys1.len()
    &&& titles2.len() == keys2.len()
    &&& titles1.no_duplicates()
    &&& titles2.no_duplicates()
    &&& titles1.to_set() == titles2.to_set()
    &&& keys1.no_duplicates()
    &&& keys2.no_duplicates()
    &&& forall|i: int, j: int|
        0 <= i < titles1.len() && 0 <= j < titles2.len() && #[trigger] titles1[i]
            == #[trigger] titles2[j] ==> keys1[i] == keys2[j]
}

/// At the first place where two such selections would differ in score, the
/// first cannot score higher.
proof fn lemma_top_key_not_above(
    titles1: Seq<Seq<char>>,
    keys1: Seq<u64>,
    r1: Seq<usize>,
    titles2: Seq<Seq<char>>,
    keys2: Seq<u64>,
    r2: Seq<usize>,
    limit: nat,
    p: int,
)
    requires
        same_scored_titles(titles1, keys1, titles2, keys2),
        is_top_selection(keys1, limit, r1),
        is_top_selection(keys2, limit, r2),
        r1.len() == r2.len(),
        0 <= p < r1.len(),
        forall|q: int| 0 <= q < p ==> keys1[#[trigger] r1[q] as int] == keys2[r2[q] as int],
    ensures
        !(keys1[r1[p] as int] > keys2[r2[p] as int]),
{
    let i = r1[p] as int;
    let a = titles1[i];
    assert(titles1.to_set().contains(a));
    assert(titles2.to_set().contains(a));
    let j = choose|j: int| 0 <= j < titles2.len() && titles2[j] == a;
    assert(keys1[i] == keys2[j]);
    if keys1[i] > keys2[r2[p] as int] {
        if has_index(r2, j) {
            let q = choose|q: int| 0 <= q < r2.len() && r2[q] == j as usize;
            if q < p {
                assert(keys1[r1[q] as int] == keys2[r2[q] as int]);
                assert(ranks_before(keys1, r1[q] as int, r1[p] as int));
                assert(r1[q] != r1[p]);
            } else if q > p {
                assert(ranks_before(keys2, r2[p] as int, r2[q] as int));
            }
        } else {
            assert(ranks_before(keys2, r2[p] as int, j));
        }
    }
}

/// The selections agree in score up to place `p`.
proof fn lemma_top_keys_agree(
    titles1: Seq<Seq<char>>,
    keys1: Seq<u64>,
    r1: Seq<usize>,
    titles2: Seq<Seq<char>>,
    keys2: Seq<u64>,
    r2: Seq<usize>,
    limit: nat,
    p: int,
)
    requires
        same_scored_titles(titles1, keys1, titles2, keys2),
        is_top_selection(keys1, limit, r1),
        is_top_selection(keys2, limit, r2),
        r1.len() == r2.len(),
        0 <= p <= r1.len(),
    ensures
        forall|q: int| 0 <= q < p ==> keys1[#[trigger] r1[q] as int] == keys2[r2[q] as int],
    decreases p,
{
    if p > 0 {
        lemma_top_keys_agree(titles1, keys1, r1, titles2, keys2, r2, limit, p - 1);
        lemma_top_key_not_above(titles1, keys1, r1, titles2, keys2, r2, limit, p - 1);
        assert(same_scored_titles(titles2, keys2, titles1, keys1));
        lemma_top_key_not_above(titles2, keys2, r2, titles1, keys1, r1, limit, p - 1);
    }
}

/// The top selection depends only on the score of each title: two lists
/// that hold the same titles, each once, with the same score for each title
/// and no score twice, give the same titles in the same order, whatever the
/// order of the lists.
pub proof fn lemma_top_titles_determined(
    titles1: Seq<Seq<char>>,
    keys1: Seq<u64>,
    r1: Seq<usize>,
    titles2: Seq<Seq<char>>,
    keys2: Seq<u64>,
    r2: Seq<usize>,
    limit: nat,
)
    requires
        same_scored_titles(titles1, keys1, titles2, keys2),
        is_top_selection(keys1, limit, r1),
        is_top_selection(keys2, limit, r2),
    ensures
        selected_titles(titles1, r1) == selected_titles(titles2, r2),
{
    titles1.unique_seq_to_set();
    titles2.unique_seq_to_set();
    assert(r1.len() == r2.len());
    lemma_top_keys_agree(titles1, keys1, r1, titles2, keys2, r2, limit, r1.len() as int);
    assert forall|p: int| 0 <= p < r1.len() implies titles1[#[trigger] r1[p] as int] == titles2[r2[p] as int] by {
        let a = titles1[r1[p] as int];
        assert(titles1.to_set().contains(a));
        assert(titles2.to_set().contains(a));
        let j = choose|j: int| 0 <= j < titles2.len() && titles2[j] == a;
        assert(keys2[j] == keys2[r2[p] as int]);
    }
    assert(selected_titles(titles1, r1) =~= selected_titles(titles2, r2));
}

/// The list holding the one value of an option, or nothing.
pub open spec fn opt_seq(o: Option<int>) -> Seq<int> {
    match o {
        Some(x) => seq![x],
        None => seq![],
    }
}

/// All the ranks that a fused title holds: its vector rank, if any, then its
/// BM25 ranks. Its fused score is a sum over them.
pub open spec fn ranks_of(f: FusedResult) -> Seq<int> {
    opt_seq(opt_int(f.embed_rank)) + ints(f.token_ranks@)
}

/// The titles of the fused entries, in their order.
pub open spec fn fused_titles(r: Seq<FusedResult>) -> Seq<Seq<char>> {
    Seq::new(r.len(), |k: int| r[k].result.title@)
}

/// In a list that holds each title once, the occurrences of a title are
/// its last occurrence alone.
pub proof fn lemma_unique_indices(s: Seq<Seq<char>>, t: Seq<char>)
    requires
        s.no_duplicates(),
    ensures
        indices_of(s, t) == opt_seq(last_index(s, t)),
    decreases s.len(),
{
    if s.len() > 0 {
        let d = s.drop_last();
        assert(d.no_duplicates());
        lemma_unique_indices(d, t);
        if s.last() == t {
            lemma_indices_of(d, t);
            if d.contains(t) {
                let i = choose|i: int| 0 <= i < d.len() && d[i] == t;
                assert(s[i] == s[s.len() - 1]);
            }
            assert(indices_of(d, t) =~= Seq::<int>::empty());
            assert(indices_of(s, t) =~= seq![s.len() - 1]);
        }
    }
}

/// Fusing the two lists in either order gives the same titles, each once,
/// and each title holds the same ranks, so the same fused score; this holds
/// when each list holds each title once.
pub proof fn lemma_fuse_symmetric(
    r1: Seq<FusedResult>,
    r2: Seq<FusedResult>,
    embed: Seq<SearchResult>,
    token: Seq<SearchResult>,
)
    requires
        titles(embed).no_duplicates(),
        titles(token).no_duplicates(),
        fused_matches(r1, embed, token),
        fused_matches(r2, token, embed),
    ensures
        fused_titles(r1).no_duplicates(),
        fused_titles(r2).no_duplicates(),
        fused_titles(r1).to_set() == fused_titles(r2).to_set(),
        forall|k: int, m: int|
            0 <= k < r1.len() && 0 <= m < r2.len() && #[trigger] r1[k].result.title@
                == #[trigger] r2[m].result.title@ ==> ranks_of(r1[k]).to_multiset()
                == ranks_of(r2[m]).to_multiset(),
{
    lemma_fused_titles(r1, embed, token);
    lemma_fused_titles(r2, token, embed);
    let f1 = fused_titles(r1);
    let f2 = fused_titles(r2);
    assert forall|i: int, j: int| 0 <= i < f1.len() && 0 <= j < f1.len() && i != j implies f1[i]
        != f1[j] by {
        if i < j {
            assert(r1[i].result.title@ != r1[j].result.title@);
        } else {
            assert(r1[j].result.title@ != r1[i].result.title@);
        }
    }
    assert forall|i: int, j: int| 0 <= i < f2.len() && 0 <= j < f2.len() && i != j implies f2[i]
        != f2[j] by {
        if i < j {
            assert(r2[i].result.title@ != r2[j].result.title@);
        } else {
            assert(r2[j].result.title@ != r2[i].result.title@);
        }
    }
    assert forall|t: Seq<char>| f1.to_set().contains(t) <==> f2.to_set().contains(t) by {
        if f1.contains(t) {
            let k = choose|k: int| 0 <= k < f1.len() && f1[k] == t;
            assert(r1[k].result.title@ == t);
            assert(titles(embed).contains(t) || titles(token).contains(t));
            let m = choose|m: int| 0 <= m < r2.len() && (#[trigger] r2[m]).result.title@ == t;
            assert(f2[m] == t);
        }
        if f2.contains(t) {
            let m = choose|m: int| 0 <= m < f2.len() && f2[m] == t;
            assert(r2[m].result.title@ == t);
            assert(titles(embed).contains(t) || titles(token).contains(t));
            let k = choose|k: int| 0 <= k < r1.len() && (#[trigger] r1[k]).result.title@ == t;
            assert(f1[k] == t);
        }
    }
    assert(f1.to_set() =~= f2.to_set());
    assert forall|k: int, m: int|
        0 <= k < r1.len() && 0 <= m < r2.len() && #[trigger] r1[k].result.title@
            == #[trigger] r2[m].result.title@ implies ranks_of(r1[k]).to_multiset()
            == ranks_of(r2[m]).to_multiset() by {
        let t = r1[k].result.title@;
        lemma_unique_indices(titles(embed), t);
        lemma_unique_indices(titles(token), t);
        let a = opt_seq(last_index(titles(embed), t));
        let b = opt_seq(last_index(titles(token), t));
        assert(ranks_of(r1[k]) == a + b);
        assert(ranks_of(r2[m]) == b + a);
        vstd::seq_lib::lemma_multiset_commutative(a, b);
        vstd::seq_lib::lemma_multiset_commutative(b, a);
        assert(a.to_multiset().add(b.to_multiset()) =~= b.to_multiset().add(a.to_multiset()));
    }
}

/// Reciprocal rank fusion is symmetric in the two lists: when each list
/// holds each title once, and the fused score of a title depends only on the
/// ranks it holds, with no two titles scoring alike, fusing the vector hits
/// with the BM25 hits and fusing them the other way round select the same
/// titles in the same order.
pub proof fn lemma_rrf_symmetric(
    embed: Seq<SearchResult>,
    token: Seq<SearchResult>,
    r1: Seq<FusedResult>,
    keys1: Seq<u64>,
    top1: Seq<usize>,
    r2: Seq<FusedResult>,
    keys2: Seq<u64>,
    top2: Seq<usize>,
    limit: nat,
)
    requires
        titles(embed).no_duplicates(),
        titles(token).no_duplicates(),
        fused_matches(r1, embed, token),
        fused_matches(r2, token, embed),
        keys1.len() == r1.len(),
        keys2.len() == r2.len(),
        forall|k: int, m: int|
            0 <= k < r1.len() && 0 <= m < r2.len() && ranks_of(#[trigger] r1[k]).to_multiset()
                == ranks_of(#[trigger] r2[m]).to_multiset() ==> keys1[k] == keys2[m],
        keys1.no_duplicates(),
        keys2.no_duplicates(),
        is_top_selection(keys1, limit, top1),
        is_top_selection(keys2, limit, top2),
    ensures
        selected_titles(fused_titles(r1), top1) == selected_titles(fused_titles(r2), top2),
{
    lemma_fuse_symmetric(r1, r2, embed, token);
    let f1 = fused_titles(r1);
    let f2 = fused_titles(r2);
    assert forall|i: int, j: int|
        0 <= i < f1.len() && 0 <= j < f2.len() && #[trigger] f1[i] == #[trigger] f2[j] implies keys1[i]
        == keys2[j] by {
        assert(r1[i].result.title@ == r2[j].result.title@);
    }
    lemma_top_titles_determined(f1, keys1, top1, f2, keys2, top2, limit);
}

/// Where the entry for `title` stands in `out`, if there is one.
fn find_title(out: &Vec<FusedResult>, title: &String) -> (r: Option<usize>)
    ensures
        match r {
            Some(k) => k < out.len() && out[k as int].result.title@ == title@,
            None => forall|k: int| 0 <= k < out.len() ==> (#[trigger] out[k]).result.title@ != title@,
        },
{
    let mut k: usize = 0;
    while k < out.len()
        invariant
            0 <= k <= out.len(),
            forall|m: int| 0 <= m < k ==> (#[trigger] out[m]).result.title@ != title@,
        decreases out.len() - k,
    {
        if out[k].result.title == *title {
            return Some(k);
        }
        k = k + 1;
    }
    None
}

/// Merges the hits of the vector search and of the BM25 search by title, for
/// reciprocal rank fusion: a title found again in the vector search takes the
/// new rank and hit; a title found again in the BM25 search adds a rank.
pub fn fuse_by_title(embed: &Vec<SearchResult>, token: &Vec<SearchResult>) -> (r: Vec<FusedResult>)
    ensures
        fused_matches(r@, embed@, token@),
{
    let ghost et = titles(embed@);
    let ghost tt = titles(token@);
    let mut out: Vec<FusedResult> = Vec::new();
    let mut i: usize = 0;
    assert(et.take(0) =~= Seq::<Seq<char>>::empty());
    while i < embed.len()
        invariant
            0 <= i <= embed.len(),
            et == titles(embed@),
            out.len() == distinct(et.take(i as int)).len(),
            forall|k: int|
                0 <= k < out.len() ==> {
                    let t = (#[trigger] out[k]).result.title@;
                    &&& t == distinct(et.take(i as int))[k]
                    &&& opt_int(out[k].embed_rank) == last_index(et.take(i as int), t)
                    &&& out[k].token_ranks@.len() == 0
                    &&& out[k].embed_rank is Some
                    &&& out[k].result == embed@[out[k].embed_rank->0 as int]
                },
        decreases embed.len() - i,
    {
        let ghost p = et.take(i as int);
        let ghost t = embed@[i as int].title@;
        assert(et.take(i + 1) =~= p.push(t));
        assert(et.take(i + 1).drop_last() =~= p);
        proof {
            lemma_distinct_contains(p, t);
            lemma_distinct_unique(p);
        }
        match find_title(&out, &embed[i].title) {
            Some(k) => {
                assert(distinct(p).contains(t)) by {
                    assert(distinct(p)[k as int] == t);
                }
                let ghost old_out = out@;
                let hit = embed[i].duplicate();
                out[k].embed_rank = Some(i);
                out[k].result = hit;
                assert forall|m: int| 0 <= m < out.len() implies {
                    let tm = (#[trigger] out[m]).result.title@;
                    &&& tm == distinct(et.take(i + 1))[m]
                    &&& opt_int(out[m].embed_rank) == last_index(et.take(i + 1), tm)
                    &&& out[m].token_ranks@.len() == 0
                    &&& out[m].embed_rank is Some
                    &&& out[m].result == embed@[out[m].embed_rank->0 as int]
                } by {
                    if m != k {
                        assert(out[m] == old_out[m]);
                        assert(distinct(p)[m] != distinct(p)[k as int]);
                    }
                }
            },
            None => {
                assert(!distinct(p).contains(t)) by {
                    if distinct(p).contains(t) {
                        let k = choose|k: int| 0 <= k < distinct(p).len() && distinct(p)[k] == t;
                        assert(out[k].result.title@ == t);
                    }
                }
                let ghost old_out = out@;
                out.push(FusedResult { result: embed[i].duplicate(), embed_rank: Some(i), token_ranks: Vec::new() });
                assert forall|m: int| 0 <= m < out.len() implies {
                    let tm = (#[trigger] out[m]).result.title@;
                    &&& tm == distinct(et.take(i + 1))[m]
                    &&& opt_int(out[m].embed_rank) == last_index(et.take(i + 1), tm)
                    &&& out[m].token_ranks@.len() == 0
                    &&& out[m].embed_rank is Some
                    &&& out[m].result == embed@[out[m].embed_rank->0 as int]
                } by {
                    if m < old_out.len() {
                        assert(out[m] == old_out[m]);
                        assert(distinct(p)[m] != t);
                    }
                }
            },
        }
        i = i + 1;
    }
    assert(et.take(embed.len() as int) =~= et);
    let mut j: usize = 0;
    assert(et + tt.take(0) =~= et);
    assert(tt.take(0) =~= Seq::<Seq<char>>::empty());
    while j < token.len()
        invariant
            0 <= j <= token.len(),
            et == titles(embed@),
            tt == titles(token@),
            out.len() == distinct(et + tt.take(j as int)).len(),
            forall|k: int|
                0 <= k < out.len() ==> {
                    let t = (#[trigger] out[k]).result.title@;
                    &&& t == distinct(et + tt.take(j as int))[k]
                    &&& opt_int(out[k].embed_rank) == last_index(et, t)
                    &&& ints(out[k].token_ranks@) == indices_of(tt.take(j as int), t)
                    &&& (out[k].embed_rank is None ==> out[k].token_ranks@.len() > 0)
                    &&& out[k].result == match out[k].embed_rank {
                        Some(e) => embed@[e as int],
                        None => token@[out[k].token_ranks@[0] as int],
                    }
                },
        decreases token.len() - j,
    {
        let ghost q = tt.take(j as int);
        let ghost p = et + q;
        let ghost t = token@[j as int].title@;
        assert(tt.take(j + 1) =~= q.push(t));
        assert(tt.take(j + 1).drop_last() =~= q);
        assert(et + tt.take(j + 1) =~= p.push(t));
        assert((et + tt.take(j + 1)).drop_last() =~= p);
        proof {
            lemma_distinct_contains(p, t);
            lemma_distinct_unique(p);
        }
        match find_title(&out, &token[j].title) {
            Some(k) => {
                assert(distinct(p).contains(t)) by {
                    assert(distinct(p)[k as int] == t);
                }
                let ghost old_out = out@;
                out[k].token_ranks.push(j);
                assert forall|m: int| 0 <= m < out.len() implies {
                    let tm = (#[trigger] out[m]).result.title@;
                    &&& tm == distinct(et + tt.take(j + 1))[m]
                    &&& opt_int(out[m].embed_rank) == last_index(et, tm)
                    &&& ints(out[m].token_ranks@) == indices_of(tt.take(j + 1), tm)
                    &&& (out[m].embed_rank is None ==> out[m].token_ranks@.len() > 0)
                    &&& out[m].result == match out[m].embed_rank {
                        Some(e) => embed@[e as int],
                        None => token@[out[m].token_ranks@[0] as int],
                    }
                } by {
                    if m != k {
                        assert(out[m] == old_out[m]);
                        assert(distinct(p)[m] != distinct(p)[k as int]);
                    } else {
                        assert(ints(out[m].token_ranks@) =~= ints(old_out[m].token_ranks@).push(
                            j as int,
                        ));
                        if old_out[m].embed_rank is None {
                            assert(out[m].token_ranks@[0] == old_out[m].token_ranks@[0]);
                        }
                    }
                }
            },
            None => {
                assert(!distinct(p).contains(t)) by {
                    if distinct(p).contains(t) {
                        let k = choose|k: int| 0 <= k < distinct(p).len() && distinct(p)[k] == t;
                        assert(out[k].result.title@ == t);
                    }
                }
                assert(!et.contains(t)) by {
                    if et.contains(t) {
                        let k = choose|k: int| 0 <= k < et.len() && et[k] == t;
                        assert(p[k] == t);
                    }
                }
                assert(!q.contains(t)) by {
                    if q.contains(t) {
                        let k = choose|k: int| 0 <= k < q.len() && q[k] == t;
                        assert(p[et.len() + k] == t);
                    }
                }
                proof {
                    lemma_last_index(et, t);
                    lemma_indices_of(q, t);
                }
                let ghost old_out = out@;
                let mut ranks: Vec<usize> = Vec::new();
                ranks.push(j);
                out.push(FusedResult { result: token[j].duplicate(), embed_rank: None, token_ranks: ranks });
                assert forall|m: int| 0 <= m < out.len() implies {
                    let tm = (#[trigger] out[m]).result.title@;
                    &&& tm == distinct(et + tt.take(j + 1))[m]
                    &&& opt_int(out[m].embed_rank) == last_index(et, tm)
                    &&& ints(out[m].token_ranks@) == indices_of(tt.take(j + 1), tm)
                    &&& (out[m].embed_rank is None ==> out[m].token_ranks@.len() > 0)
                    &&& out[m].result == match out[m].embed_rank {
                        Some(e) => embed@[e as int],
                        None => token@[out[m].token_ranks@[0] as int],
                    }
                } by {
                    if m < old_out.len() {
                        assert(out[m] == old_out[m]);
                        assert(distinct(p)[m] != t);
                    } else {
                        assert(ints(out[m].token_ranks@) =~= seq![j as int]);
                        assert(indices_of(q, t) =~= Seq::<int>::empty());
                    }
                }
            },
        }
        j = j + 1;
    }
    assert(tt.take(token.len() as int) =~= tt);
    out
}

} // verus!
