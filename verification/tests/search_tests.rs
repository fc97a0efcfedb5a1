use rust_app::api::{not_found_message, not_found_reply, text_required_error, ROOT_MESSAGE};
use rust_app::morphology::morphology;
use rust_app::search::{
    bm25_sql, failure_response, fuse_by_title, prepare_query, query_text, success_response,
    step_failure, top_indices, vector_search_sql, SearchRequest, SearchResult, SearchStep, FUSED_LIMIT, RRF_K,
    SEARCH_TOP_K,
};

fn hit(title: &str, url: &str) -> SearchResult {
    SearchResult { title: title.to_string(), url: url.to_string(), thumbnail: None }
}

#[test]
fn queries_are_trimmed_and_empty_ones_refused() {
    let q = prepare_query(&SearchRequest { text: "  ラーメン  ".to_string() });
    assert_eq!(q.ok().unwrap(), "ラーメン");
    let r = prepare_query(&SearchRequest { text: " \u{3000} ".to_string() }).err().unwrap();
    assert!(!r.status);
    assert!(r.results.is_empty());
    assert_eq!(r.msg.as_deref(), Some("Query is empty"));
    assert_eq!(query_text("カレー"), "query: カレー");
}

#[test]
fn sql_of_the_two_searches() {
    assert_eq!(
        vector_search_sql("documents", 10),
        "SELECT title, url, thumbnail, embeds <=> $1::text::vector AS score FROM documents ORDER BY score LIMIT 10"
    );
    assert_eq!(
        bm25_sql("documents", 10),
        "SELECT title, url, thumbnail, tokens <@> to_bm25query($1, 'documents_tokens_idx') AS score FROM documents ORDER BY score ASC LIMIT 10"
    );
    assert_eq!((SEARCH_TOP_K, RRF_K, FUSED_LIMIT), (10, 60, 5));
}

#[test]
fn hits_are_merged_by_title() {
    let embed = vec![hit("A", "/a1"), hit("B", "/b"), hit("A", "/a2")];
    let token = vec![hit("C", "/c1"), hit("B", "/b2"), hit("C", "/c2"), hit("D", "/d")];
    let fused = fuse_by_title(&embed, &token);
    let titles: Vec<&str> = fused.iter().map(|f| f.result.title.as_str()).collect();
    assert_eq!(titles, vec!["A", "B", "C", "D"]);
    assert_eq!(fused[0].embed_rank, Some(2));
    assert_eq!(fused[0].result.url, "/a2");
    assert!(fused[0].token_ranks.is_empty());
    assert_eq!(fused[1].embed_rank, Some(1));
    assert_eq!(fused[1].token_ranks, vec![1]);
    assert_eq!(fused[1].result.url, "/b");
    assert_eq!(fused[2].embed_rank, None);
    assert_eq!(fused[2].token_ranks, vec![0, 2]);
    assert_eq!(fused[2].result.url, "/c1");
    assert_eq!(fused[3].token_ranks, vec![3]);
    assert!(fuse_by_title(&Vec::new(), &Vec::new()).is_empty());
}

#[test]
fn responses() {
    let ok = success_response(&vec![hit("A", "/posts/a/")]);
    assert!(ok.status);
    assert_eq!(ok.msg, None);
    assert_eq!(ok.results.len(), 1);
    assert_eq!(ok.results[0].title, "A");
    assert_eq!(ok.results[0].url, "/posts/a/");
    let bad = failure_response("Error connecting to database: refused".to_string());
    assert!(!bad.status && bad.results.is_empty());
    assert_eq!(bad.msg.as_deref(), Some("Error connecting to database: refused"));
}

#[test]
fn plain_answers() {
    assert_eq!(ROOT_MESSAGE, "Hello, I am Fukuyoka");
    assert_eq!(not_found_message("/nope"), "API : 404 Not Found - /nope");
    assert_eq!(not_found_reply("/nope"), (404, "API : 404 Not Found - /nope".to_string()));
    assert_eq!(text_required_error(""), Some("text field is required".to_string()));
    assert_eq!(text_required_error("x"), None);
}

#[test]
fn morphology_segments_or_reports_why_not() {
    let text = "すもももももももものうち";
    match morphology(text) {
        Ok(tokens) => {
            assert!(tokens.len() >= 2);
            assert_eq!(tokens.concat(), text);
        }
        Err(e) => assert!(!e.message.is_empty()),
    }
}

#[test]
fn failed_steps_are_named() {
    let r = step_failure(SearchStep::Connect, "refused");
    assert!(!r.status && r.results.is_empty());
    assert_eq!(r.msg.as_deref(), Some("Error connecting to database: refused"));
    let r = step_failure(SearchStep::Embed, "oom");
    assert_eq!(r.msg.as_deref(), Some("Error generating embedding: oom"));
    let r = step_failure(SearchStep::Tokenize, "invalid input");
    assert_eq!(r.msg.as_deref(), Some("Error generating tokens: invalid input"));
}

#[test]
fn best_scores_come_first_and_ties_keep_their_order() {
    let keys = vec![3u64, 9, 3, 1, 9, 5, 0];
    assert_eq!(top_indices(&keys, 5), vec![1, 4, 5, 0, 2]);
    assert_eq!(top_indices(&keys, 0), Vec::<usize>::new());
    assert_eq!(top_indices(&keys, 100), vec![1, 4, 5, 0, 2, 3, 6]);
    // the same as a stable sort by descending score
    let scores = [0.016_f64, 0.032, 0.016, 0.0163, 0.032];
    let keys: Vec<u64> = scores.iter().map(|s| s.to_bits()).collect();
    let mut expected: Vec<usize> = (0..scores.len()).collect();
    expected.sort_by(|a, b| scores[*b].partial_cmp(&scores[*a]).unwrap());
    assert_eq!(top_indices(&keys, 5), expected);
}

fn fused_top_titles(embed: &Vec<SearchResult>, token: &Vec<SearchResult>) -> Vec<String> {
    let fused = fuse_by_title(embed, token);
    let keys: Vec<u64> = fused
        .iter()
        .map(|entry| {
            let mut score = 0.0_f64;
            for rank in entry.embed_rank.iter().chain(entry.token_ranks.iter()) {
                score += 1.0 / (RRF_K as f64 + *rank as f64 + 1.0);
            }
            score.to_bits()
        })
        .collect();
    top_indices(&keys, FUSED_LIMIT).into_iter().map(|i| fused[i].result.title.clone()).collect()
}

#[test]
fn rrf_is_symmetric_in_the_two_lists() {
    let embed = vec![hit("a", "/a"), hit("b", "/b"), hit("c", "/c"), hit("d", "/d")];
    let token = vec![hit("c", "/c"), hit("a", "/a"), hit("e", "/e")];
    let forward = fused_top_titles(&embed, &token);
    let backward = fused_top_titles(&token, &embed);
    assert_eq!(forward, vec!["a", "c", "b", "e", "d"]);
    assert_eq!(forward, backward);
}

use rust_app::search::{search_step, SearchAction, SearchEvent, SearchState};

fn reply_of(action: SearchAction) -> rust_app::search::SearchResponse {
    match action {
        SearchAction::Reply(r) => r,
        other => panic!("{:?}", other),
    }
}

#[test]
fn search_steps_answer_the_first_failure() {
    let (state, action) = search_step(SearchState::Start, SearchEvent::Begin(SearchRequest { text: "   ".to_string() }));
    assert!(matches!(state, SearchState::Done));
    assert_eq!(reply_of(action).msg.as_deref(), Some("Query is empty"));

    let (state, action) = search_step(SearchState::Start, SearchEvent::Begin(SearchRequest { text: " 焼肉 ".to_string() }));
    assert!(matches!(action, SearchAction::Connect));
    match &state {
        SearchState::Connecting { text } => assert_eq!(text, "焼肉"),
        other => panic!("{:?}", other),
    }
    let (_, action) = search_step(
        SearchState::Connecting { text: "焼肉".to_string() },
        SearchEvent::Connected(Err("refused".to_string())),
    );
    let r = reply_of(action);
    assert!(!r.status && r.results.is_empty());
    assert_eq!(r.msg.as_deref(), Some("Error connecting to database: refused"));

    let (state, action) = search_step(state, SearchEvent::Connected(Ok(())));
    match action {
        SearchAction::Embed { text } => assert_eq!(text, "query: 焼肉"),
        other => panic!("{:?}", other),
    }
    let (_, action) = search_step(
        SearchState::Embedding { text: "焼肉".to_string() },
        SearchEvent::Embedded(Err("oom".to_string())),
    );
    assert_eq!(reply_of(action).msg.as_deref(), Some("Error generating embedding: oom"));

    let (state, action) = search_step(state, SearchEvent::Embedded(Ok(())));
    match (&state, action) {
        (SearchState::Searching, SearchAction::Search { tokens }) => {
            assert_eq!(tokens, morphology("焼肉").ok().unwrap().join(" "));
        }
        (SearchState::Done, SearchAction::Reply(r)) => {
            assert!(!r.status && r.results.is_empty());
            let msg = r.msg.unwrap();
            assert!(msg.starts_with("Error generating tokens: "));
            assert_eq!(msg, format!("Error generating tokens: {}", morphology("焼肉").err().unwrap().message));
        }
        (s, a) => panic!("{:?} {:?}", s, a),
    }

    let hits = vec![hit("b", "/b"), hit("a", "/a")];
    let (state, action) = search_step(SearchState::Searching, SearchEvent::Ranked(hits));
    assert!(matches!(state, SearchState::Done));
    let r = reply_of(action);
    assert!(r.status && r.msg.is_none());
    let titles: Vec<&str> = r.results.iter().map(|i| i.title.as_str()).collect();
    assert_eq!(titles, vec!["b", "a"]);
    assert_eq!(r.results[1].url, "/a");
}
