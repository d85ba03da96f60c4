use ishansearch::indexer::plan_query;
use ishansearch::search_plan::ScoreIndex;
use ishansearch::term_index::TermIndex;

fn docs(v: &[(&str, &str)]) -> Vec<(String, String)> {
    v.iter().map(|(a, b)| (a.to_string(), b.to_string())).collect()
}

fn stats(index: &TermIndex) -> Vec<(String, String, usize, usize, usize)> {
    let mut v: Vec<_> = index
        .score_inputs()
        .into_iter()
        .map(|e| (e.term, e.doc, e.freq, e.doc_length, e.doc_freq))
        .collect();
    v.sort();
    v
}

#[test]
fn index_counts_terms_per_document() {
    let (index, n) = TermIndex::from_documents(&docs(&[
        ("a.txt", "Turing machine Turing"),
        ("b.txt", "machine learning"),
    ]));
    assert_eq!(n, 2);
    assert_eq!(index.num_documents(), 2);
    assert_eq!(
        stats(&index),
        vec![
            ("learning".to_string(), "b.txt".to_string(), 1, 2, 1),
            ("machine".to_string(), "a.txt".to_string(), 1, 3, 2),
            ("machine".to_string(), "b.txt".to_string(), 1, 2, 2),
            ("turing".to_string(), "a.txt".to_string(), 2, 3, 1),
        ]
    );
}

#[test]
fn index_repeated_name_adds_up() {
    let mut index = TermIndex::new();
    assert!(index.add_text("a.txt", "apple banana"));
    assert!(index.add_text("a.txt", "apple"));
    assert_eq!(index.num_documents(), 1);
    assert_eq!(
        stats(&index),
        vec![
            ("apple".to_string(), "a.txt".to_string(), 2, 3, 2),
            ("banana".to_string(), "a.txt".to_string(), 1, 3, 1),
        ]
    );
}

#[test]
fn index_of_nothing_is_empty() {
    let (index, n) = TermIndex::from_documents(&Vec::new());
    assert_eq!(n, 0);
    assert_eq!(index.num_documents(), 0);
    assert!(index.score_inputs().is_empty());
}

#[test]
fn index_document_without_tokens_still_counts() {
    let (index, _) = TermIndex::from_documents(&docs(&[("empty.txt", "the a of"), ("b.txt", "zebra")]));
    assert_eq!(index.num_documents(), 2);
    assert_eq!(stats(&index), vec![("zebra".to_string(), "b.txt".to_string(), 1, 1, 1)]);
}

fn score_index() -> ScoreIndex {
    let mut idx = ScoreIndex::new();
    idx.insert("turing", "a.txt", 0);
    idx.insert("machine", "a.txt", 1);
    idx.insert("machine", "b.txt", 2);
    idx.insert("learning", "b.txt", 3);
    idx
}

#[test]
fn plan_collects_slots_in_query_order() {
    let idx = score_index();
    let terms: Vec<String> = vec!["machine".into(), "turing".into(), "machine".into()];
    let mut hits: Vec<(String, Vec<usize>, usize)> =
        idx.plan(&terms).into_iter().map(|h| (h.doc, h.slots, h.matched)).collect();
    hits.sort();
    assert_eq!(
        hits,
        vec![("a.txt".to_string(), vec![1, 0, 1], 2), ("b.txt".to_string(), vec![2, 2], 1)]
    );
}

#[test]
fn plan_unknown_terms_reach_nothing() {
    let idx = score_index();
    let terms: Vec<String> = vec!["zebra".into()];
    assert!(idx.plan(&terms).is_empty());
    assert!(idx.plan(&Vec::new()).is_empty());
}

#[test]
fn insert_replaces_slot() {
    let mut idx = score_index();
    idx.insert("turing", "a.txt", 9);
    let hits = idx.plan(&vec!["turing".to_string()]);
    assert_eq!(hits.len(), 1);
    assert_eq!(hits[0].slots, vec![9]);
}

#[test]
fn plan_query_tokenizes_the_query() {
    let idx = score_index();
    let (hits, n) = plan_query(&idx, "The Machines!");
    assert_eq!(n, 1);
    let mut docs: Vec<String> = hits.into_iter().map(|h| h.doc).collect();
    docs.sort();
    assert_eq!(docs, vec!["a.txt".to_string(), "b.txt".to_string()]);
    let (none, zero) = plan_query(&idx, "the of");
    assert!(none.is_empty());
    assert_eq!(zero, 0);
}
