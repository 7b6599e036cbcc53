use similar_segments::rank::Candidate;
use similar_segments::store::QueryError;
use similar_segments::store::SimilarityStore;
use similar_segments::text::build_documents;
use similar_segments::tfidf::TfidfMatrix;
use similar_segments::tfidf::VectorizationError;

fn seg(tokens: &[&str]) -> Vec<String> {
    let mut v = Vec::new();
    for t in tokens {
        v.push(t.to_string());
    }
    v
}

fn example_corpus() -> Vec<Vec<String>> {
    vec![
        seg(&["the", "cat", "sat"]),
        seg(&["the", "cat", "sat"]),
        seg(&["dog", "ran", "fast"]),
        seg(&["cat", "sat", "here"]),
        seg(&["unrelated", "text", "only"]),
        seg(&["zzz", "qqq"]),
    ]
}

fn indices(entries: &[Candidate]) -> Vec<usize> {
    let mut v = Vec::new();
    for e in entries {
        v.push(e.index);
    }
    v
}

/// `a` scores at least as high as `b`: dot_a^2 / norm_a >= dot_b^2 / norm_b.
fn score_geq(a: &Candidate, b: &Candidate) -> bool {
    a.dot * a.dot * b.norm_sq >= b.dot * b.dot * a.norm_sq
}

/// The candidate's cosine score is exactly 1: dot^2 == target_norm_sq * norm_sq.
fn score_is_one(target_norm_sq: u128, e: &Candidate) -> bool {
    e.dot * e.dot == target_norm_sq * e.norm_sq
}

#[test]
fn example_scenario() {
    let mut store = SimilarityStore::new();
    let r = store.compute_similar_segments(&example_corpus(), 0);
    assert!(r.is_ok());
    let res = store.current().as_ref().unwrap();
    assert_eq!(res.target, 0);
    // Index 1 is text-identical: ranked first with cosine exactly 1.
    // Index 3 shares "cat sat": ranked second, strictly below 1.
    // Indices 2, 4, 5 share no term with the target: excluded.
    assert_eq!(indices(&res.entries), vec![1, 3]);
    assert!(score_is_one(res.target_norm_sq, &res.entries[0]));
    assert!(!score_is_one(res.target_norm_sq, &res.entries[1]));
    assert!(res.entries[1].dot > 0);
}

#[test]
fn no_self_match() {
    let corpus = example_corpus();
    for t in 0..corpus.len() {
        let mut store = SimilarityStore::new();
        let _ = store.compute_similar_segments(&corpus, t);
        if let Some(res) = store.current() {
            for e in &res.entries {
                assert_ne!(e.index, t);
            }
        }
    }
}

#[test]
fn bounded_size() {
    // Eight segments, seven of them sharing terms with the target: only
    // the best five are kept.
    let corpus = vec![
        seg(&["alpha", "beta"]),
        seg(&["alpha", "beta"]),
        seg(&["alpha", "beta", "gamma"]),
        seg(&["alpha"]),
        seg(&["beta"]),
        seg(&["alpha", "delta"]),
        seg(&["beta", "epsilon"]),
        seg(&["alpha", "beta", "zeta"]),
    ];
    let mut store = SimilarityStore::new();
    store.compute_similar_segments(&corpus, 0).unwrap();
    let res = store.current().as_ref().unwrap();
    assert_eq!(res.entries.len(), 5);
}

#[test]
fn sort_order_and_positivity() {
    let corpus = vec![
        seg(&["cat", "sat", "here"]),
        seg(&["cat", "sat", "here"]),
        seg(&["cat", "sat", "there"]),
        seg(&["cat", "naps", "alone"]),
        seg(&["dog", "runs", "away"]),
        seg(&["cat"]),
        seg(&["sat", "here", "cat"]),
    ];
    let mut store = SimilarityStore::new();
    store.compute_similar_segments(&corpus, 0).unwrap();
    let res = store.current().as_ref().unwrap();
    assert!(!res.entries.is_empty());
    for w in res.entries.windows(2) {
        assert!(score_geq(&w[0], &w[1]));
    }
    for e in &res.entries {
        assert!(e.dot > 0);
        assert!(e.norm_sq > 0);
    }
}

#[test]
fn bounds_safety_leaves_store_unchanged() {
    let corpus = example_corpus();
    let mut store = SimilarityStore::new();
    store.compute_similar_segments(&corpus, 0).unwrap();
    let before = snapshot(&store);
    let r = store.compute_similar_segments(&corpus, corpus.len());
    assert_eq!(r, Err(QueryError::InvalidIndex));
    assert_eq!(before, snapshot(&store));
}

fn snapshot(store: &SimilarityStore) -> Option<(usize, u128, Vec<Candidate>)> {
    store
        .current()
        .as_ref()
        .map(|r| (r.target, r.target_norm_sq, r.entries.clone()))
}

#[test]
fn failed_vectorization_leaves_previous_result() {
    let corpus = example_corpus();
    let mut store = SimilarityStore::new();
    store.compute_similar_segments(&corpus, 0).unwrap();
    let before = snapshot(&store);
    // A corpus with documents but not one term.
    let blank = vec![seg(&[]), seg(&["  ", "\t"])];
    let r = store.compute_similar_segments(&blank, 0);
    assert_eq!(r, Err(QueryError::Vectorization(VectorizationError::NoTerms)));
    assert_eq!(before, snapshot(&store));
}

#[test]
fn identity_dominance() {
    let corpus = vec![
        seg(&["shared", "words", "here"]),
        seg(&["shared", "other", "words"]),
        seg(&["shared", "words", "here"]),
        seg(&["words", "here"]),
    ];
    let mut store = SimilarityStore::new();
    store.compute_similar_segments(&corpus, 0).unwrap();
    let res = store.current().as_ref().unwrap();
    // Segment 2 is identical to the target: it scores exactly 1 and
    // nothing outranks it.
    assert_eq!(res.entries[0].index, 2);
    assert!(score_is_one(res.target_norm_sq, &res.entries[0]));
    for e in &res.entries {
        assert!(score_geq(&res.entries[0], e));
    }
}

#[test]
fn disjoint_exclusion() {
    let corpus = vec![
        seg(&["apples", "and", "pears"]),
        seg(&["apples", "or", "pears"]),
        seg(&["grapes", "with", "plums"]),
    ];
    let mut store = SimilarityStore::new();
    store.compute_similar_segments(&corpus, 0).unwrap();
    let res = store.current().as_ref().unwrap();
    for e in &res.entries {
        assert_ne!(e.index, 2);
    }
    assert_eq!(indices(&res.entries), vec![1]);
}

#[test]
fn empty_corpus_is_invalid_index() {
    let mut store = SimilarityStore::new();
    let r = store.compute_similar_segments(&vec![], 0);
    assert_eq!(r, Err(QueryError::InvalidIndex));
    assert!(store.current().is_none());
}

#[test]
fn fit_rejects_empty_corpus() {
    let docs: Vec<Vec<char>> = vec![];
    let r = TfidfMatrix::fit(&docs);
    assert!(matches!(r, Err(VectorizationError::EmptyCorpus)));
}

#[test]
fn oversized_corpus_is_rejected() {
    // One more term than the exact-arithmetic budget accepts.
    let mut seg0: Vec<String> = Vec::new();
    for _ in 0..65537 {
        seg0.push("a".to_string());
    }
    let corpus = vec![seg0];
    let mut store = SimilarityStore::new();
    let r = store.compute_similar_segments(&corpus, 0);
    assert_eq!(r, Err(QueryError::Vectorization(VectorizationError::CorpusTooLarge)));
    assert!(store.current().is_none());
}

#[test]
fn documents_join_tokens_with_single_spaces() {
    let corpus = vec![seg(&["a", "b,c", "d!"]), seg(&[]), seg(&["x"])];
    let docs = build_documents(&corpus);
    let texts: Vec<String> = docs.iter().map(|d| d.iter().collect()).collect();
    assert_eq!(texts, vec!["a b,c d!".to_string(), "".to_string(), "x".to_string()]);
}

#[test]
fn tokens_with_inner_whitespace_split_into_terms() {
    // "a b" as one token carries the same terms as ["a", "b"]: the
    // documents are term-identical, so the candidate scores exactly 1.
    let corpus = vec![seg(&["a b"]), seg(&["a", "b"]), seg(&["c"])];
    let mut store = SimilarityStore::new();
    store.compute_similar_segments(&corpus, 0).unwrap();
    let res = store.current().as_ref().unwrap();
    assert_eq!(indices(&res.entries), vec![1]);
    assert!(score_is_one(res.target_norm_sq, &res.entries[0]));
}

#[test]
fn exact_fixed_point_weights() {
    // Corpus: doc0 = "a a b", doc1 = "b"; N = 2.
    // idf(a) = 1024 + lnfp(3/2): power-of-two part 0, remainder
    // (3-2)*710/2 = 355, so 1379. idf(b) = 1024 + lnfp(3/3) = 1024.
    // doc0 weights: a -> 2*1379 = 2758, b -> 1024;
    //   norm_sq(doc0) = 2758^2 + 1024^2 = 8_655_140.
    // doc1 weights: a -> 0, b -> 1024; norm_sq(doc1) = 1_048_576.
    // dot(doc0, doc1) = 1024*1024 = 1_048_576.
    let corpus = vec![seg(&["a", "a", "b"]), seg(&["b"])];
    let docs = build_documents(&corpus);
    let m = TfidfMatrix::fit(&docs).unwrap();
    assert_eq!(m.weights, vec![vec![2758, 1024], vec![0, 1024]]);
    assert_eq!(m.norm_sq, vec![8_655_140, 1_048_576]);
    let mut store = SimilarityStore::new();
    store.compute_similar_segments(&corpus, 0).unwrap();
    let res = store.current().as_ref().unwrap();
    assert_eq!(res.target_norm_sq, 8_655_140);
    assert_eq!(res.entries.len(), 1);
    assert_eq!(res.entries[0].dot, 1_048_576);
    assert_eq!(res.entries[0].norm_sq, 1_048_576);
}

#[test]
fn equal_scores_tie_exactly() {
    // Segments 1 and 2 are mirror images against the target: their
    // scores are exactly equal, and both are listed.
    let corpus = vec![seg(&["x", "y"]), seg(&["x"]), seg(&["y"])];
    let mut store = SimilarityStore::new();
    store.compute_similar_segments(&corpus, 0).unwrap();
    let res = store.current().as_ref().unwrap();
    let mut idx = indices(&res.entries);
    idx.sort();
    assert_eq!(idx, vec![1, 2]);
    assert!(score_geq(&res.entries[0], &res.entries[1]));
    assert!(score_geq(&res.entries[1], &res.entries[0]));
}

#[test]
fn special_characters_are_preserved() {
    // Tokens pass through without case-folding or punctuation stripping:
    // only the exact same token text matches.
    let corpus = vec![
        seg(&["héllo,", "wörld!"]),
        seg(&["héllo,", "wörld!"]),
        seg(&["hello", "world"]),
        seg(&["héllo", "wörld"]),
    ];
    let mut store = SimilarityStore::new();
    store.compute_similar_segments(&corpus, 0).unwrap();
    let res = store.current().as_ref().unwrap();
    assert_eq!(indices(&res.entries), vec![1]);
    assert!(score_is_one(res.target_norm_sq, &res.entries[0]));
}

#[test]
fn repeated_query_overwrites_result() {
    let corpus = example_corpus();
    let mut store = SimilarityStore::new();
    store.compute_similar_segments(&corpus, 0).unwrap();
    assert_eq!(store.current().as_ref().unwrap().target, 0);
    store.compute_similar_segments(&corpus, 3).unwrap();
    let res = store.current().as_ref().unwrap();
    assert_eq!(res.target, 3);
    // The identical-text pair 0/1 shares "cat sat" with segment 3.
    assert!(res.entries.iter().any(|e| e.index == 0));
    assert!(res.entries.iter().any(|e| e.index == 1));
}
