use link_search::document::{field_by_name, Field};
use link_search::query::parse_query;
use link_search::search::{Search, SearchError};
use link_search::snapshot::Hit;

fn tags(v: &[&str]) -> Vec<String> {
    v.iter().map(|s| s.to_string()).collect()
}

fn add(s: &mut Search, url: &str, description: &str, t: &[&str]) -> u64 {
    s.add(url.to_string(), description.to_string(), tags(t)).unwrap()
}

fn ids(hits: &[Hit]) -> Vec<u64> {
    hits.iter().map(|h| h.doc).collect()
}

#[test]
fn queries_and_documents_are_normalized_alike() {
    let mut s = Search::new().unwrap();
    add(&mut s, "https://example.com/Happy", "Hello, happy TAX-payer!", &["Tax Season"]);
    s.commit().unwrap();
    for q in ["hello", "HELLO", "Tax", "payer!", "season", "(happy)"] {
        let hits = s.search(q.to_string(), 10).unwrap();
        assert_eq!(ids(&hits), vec![0], "{q}");
    }
    // "tax" is in the description and in the tags, "happy" in the url too
    let hits = s.search("tax".to_string(), 10).unwrap();
    assert_eq!(hits[0].score, 2);
    assert!(s.search("taxpayer".to_string(), 10).unwrap().is_empty());
    assert!(s.search("hello, happy tax-payer!".to_string(), 10).unwrap().len() == 1);
}

#[test]
fn single_document_scenario() {
    let mut s = Search::new().unwrap();
    let id = add(&mut s, "https://example.com", "example site", &["demo"]);
    assert_eq!(id, 0);
    s.commit().unwrap();
    let hits = s.search("example".to_string(), 10).unwrap();
    assert_eq!(hits.len(), 1);
    assert_eq!(hits[0].doc, 0);
    assert_eq!(hits[0].document.url, "https://example.com");
    assert_eq!(hits[0].document.description, "example site");
    assert_eq!(hits[0].document.tags, tags(&["demo"]));
    // once in the url and once in the description, each weighted 1 + 1 - 1
    assert_eq!(hits[0].score, 2);
}

#[test]
fn double_occurrence_ranks_first() {
    let mut s = Search::new().unwrap();
    add(&mut s, "https://a.org", "alpha", &[]);
    add(&mut s, "https://b.org", "alpha alpha", &[]);
    s.commit().unwrap();
    let hits = s.search("alpha".to_string(), 10).unwrap();
    assert_eq!(ids(&hits), vec![1, 0]);
    assert!(hits[0].score >= hits[1].score);
    assert_eq!(hits[0].score, 2);
    assert_eq!(hits[1].score, 1);
}

#[test]
fn unknown_term_gives_no_results() {
    let mut s = Search::new().unwrap();
    add(&mut s, "https://example.com", "example site", &["demo"]);
    s.commit().unwrap();
    let hits = s.search("zzzznotfound".to_string(), 10).unwrap();
    assert!(hits.is_empty());
}

#[test]
fn empty_queries_are_rejected() {
    let mut s = Search::new().unwrap();
    add(&mut s, "https://example.com", "example site", &["demo"]);
    s.commit().unwrap();
    assert_eq!(s.search("".to_string(), 10).unwrap_err(), SearchError::QuerySyntaxError);
    assert_eq!(s.search("   ".to_string(), 10).unwrap_err(), SearchError::QuerySyntaxError);
    assert_eq!(s.search("?! ,".to_string(), 10).unwrap_err(), SearchError::QuerySyntaxError);
}

#[test]
fn every_term_finds_its_document() {
    let mut s = Search::new().unwrap();
    add(&mut s, "https://rust-lang.org", "The Rust language", &["lang", "systems"]);
    add(&mut s, "https://verus.dev", "Verified Rust", &["proofs"]);
    add(&mut s, "https://example.com", "nothing here", &[]);
    s.commit().unwrap();
    for (term, doc) in [("language", 0), ("systems", 0), ("verus", 1), ("proofs", 1), ("here", 2), ("com", 2)] {
        let hits = s.search(term.to_string(), 10).unwrap();
        assert!(ids(&hits).contains(&doc), "{term}");
    }
    let hits = s.search("rust".to_string(), 10).unwrap();
    assert_eq!(hits.len(), 2);
}

#[test]
fn tag_alone_retrieves_document() {
    let mut s = Search::new().unwrap();
    add(&mut s, "https://x.io", "a page", &["search", "google"]);
    add(&mut s, "https://y.io", "another page", &["other"]);
    s.commit().unwrap();
    let hits = s.search("google".to_string(), 10).unwrap();
    assert_eq!(ids(&hits), vec![0]);
}

#[test]
fn identical_searches_agree() {
    let mut s = Search::new().unwrap();
    add(&mut s, "https://a.org", "same words", &[]);
    add(&mut s, "https://b.org", "same words", &[]);
    add(&mut s, "https://c.org", "words", &[]);
    s.commit().unwrap();
    let snap = s.snapshot();
    let a = snap.search("same words", 10).unwrap();
    let b = snap.search("same words", 10).unwrap();
    assert_eq!(ids(&a), ids(&b));
    let sa: Vec<u64> = a.iter().map(|h| h.score).collect();
    let sb: Vec<u64> = b.iter().map(|h| h.score).collect();
    assert_eq!(sa, sb);
    // equal scores break ties by ascending id
    assert_eq!(ids(&a), vec![0, 1, 2]);
    assert_eq!(a[0].score, a[1].score);
}

#[test]
fn limit_keeps_the_best() {
    let mut s = Search::new().unwrap();
    add(&mut s, "https://a.org", "beta", &[]);
    add(&mut s, "https://b.org", "beta beta beta", &[]);
    add(&mut s, "https://c.org", "beta beta", &[]);
    s.commit().unwrap();
    let hits = s.search("beta".to_string(), 2).unwrap();
    assert_eq!(ids(&hits), vec![1, 2]);
    assert!(s.search("beta".to_string(), 0).unwrap().is_empty());
}

#[test]
fn rarer_terms_weigh_more() {
    let mut s = Search::new().unwrap();
    add(&mut s, "https://a.org", "common rare", &[]);
    add(&mut s, "https://b.org", "common", &[]);
    add(&mut s, "https://c.org", "common", &[]);
    s.commit().unwrap();
    let hits = s.search("common rare".to_string(), 10).unwrap();
    // n = 3: common weighs 3 + 1 - 3 = 1, rare weighs 3 + 1 - 1 = 3
    assert_eq!(ids(&hits), vec![0, 1, 2]);
    assert_eq!(hits[0].score, 4);
    assert_eq!(hits[1].score, 1);
}

#[test]
fn uncommitted_documents_are_invisible() {
    let mut s = Search::new().unwrap();
    add(&mut s, "https://a.org", "gamma", &[]);
    assert!(s.search("gamma".to_string(), 10).unwrap().is_empty());
    s.commit().unwrap();
    assert_eq!(s.search("gamma".to_string(), 10).unwrap().len(), 1);
}

#[test]
fn snapshot_is_isolated_from_later_commits() {
    let mut s = Search::new().unwrap();
    add(&mut s, "https://a.org", "delta one", &[]);
    s.commit().unwrap();
    let before = s.snapshot();
    let id = add(&mut s, "https://b.org", "delta two", &[]);
    assert_eq!(id, 1);
    s.commit().unwrap();
    assert_eq!(before.num_docs(), 1);
    assert_eq!(ids(&before.search("delta", 10).unwrap()), vec![0]);
    let after = s.snapshot();
    assert_eq!(after.num_docs(), 2);
    assert_eq!(ids(&after.search("delta", 10).unwrap()), vec![0, 1]);
    assert_eq!(ids(&after.search("two", 10).unwrap()), vec![1]);
}

#[test]
fn ids_continue_across_segments() {
    let mut s = Search::new().unwrap();
    assert_eq!(add(&mut s, "https://a.org", "one", &[]), 0);
    s.commit().unwrap();
    s.commit().unwrap();
    assert_eq!(add(&mut s, "https://b.org", "two", &[]), 1);
    assert_eq!(add(&mut s, "https://c.org", "three", &[]), 2);
    s.commit().unwrap();
    let hits = s.search("three".to_string(), 10).unwrap();
    assert_eq!(ids(&hits), vec![2]);
    assert_eq!(hits[0].document.url, "https://c.org");
}

#[test]
fn parse_query_splits_and_rejects_empty() {
    assert_eq!(parse_query("Foo  BAR-baz").unwrap(), tags(&["foo", "bar", "baz"]));
    assert_eq!(parse_query("").unwrap_err(), SearchError::QuerySyntaxError);
    assert_eq!(parse_query(" - ").unwrap_err(), SearchError::QuerySyntaxError);
}

#[test]
fn search_terms_takes_terms_as_given() {
    let mut s = Search::new().unwrap();
    add(&mut s, "https://a.org", "alpha beta", &[]);
    add(&mut s, "https://b.org", "beta beta", &["alpha"]);
    add(&mut s, "https://c.org", "gamma", &[]);
    s.commit().unwrap();
    let snap = s.snapshot();
    // n = 3, weights are per field: alpha is in one description and in one
    // tag list (weight 3 each), beta in two descriptions (weight 2)
    let hits = snap.search_terms(&tags(&["alpha", "beta"]), 10);
    assert_eq!(ids(&hits), vec![1, 0]);
    assert_eq!(hits[0].score, 3 + 2 * 2);
    assert_eq!(hits[1].score, 3 + 2);
    // a repeated query term counts twice
    let hits = snap.search_terms(&tags(&["gamma", "gamma"]), 10);
    assert_eq!(ids(&hits), vec![2]);
    assert_eq!(hits[0].score, 6);
    // terms are matched exactly as given
    assert!(snap.search_terms(&tags(&["Alpha"]), 10).is_empty());
    assert!(snap.search_terms(&Vec::new(), 10).is_empty());
}

#[test]
fn next_id_counts_buffered_documents() {
    let mut s = Search::new().unwrap();
    assert_eq!(s.next_doc_id(), 0);
    add(&mut s, "https://a.org", "a", &[]);
    assert_eq!(s.next_doc_id(), 1);
    s.commit().unwrap();
    assert_eq!(s.next_doc_id(), 1);
    assert_eq!(s.snapshot().num_docs(), 1);
}

#[test]
fn fields_resolve_by_name() {
    assert_eq!(field_by_name("url").unwrap(), Field::Url);
    assert_eq!(field_by_name("description").unwrap(), Field::Description);
    assert_eq!(field_by_name("tags").unwrap(), Field::Tags);
    assert_eq!(field_by_name("title").unwrap_err(), SearchError::SchemaError);
    assert_eq!(field_by_name("URL").unwrap_err(), SearchError::SchemaError);
}
