use ahash::AHashMap;
use bm25::collections::{Interner, Terms};
use bm25::index::{build_index, calc_idf_okapi, tokenized_corpus_from_vecs, BuiltIndex, IndexView};
use bm25::optimizations::compute_bm25_score_vectorized;
use bm25::score::Scorer;
use bm25::scoring::{
    fill_ranking, preprocess_query, score_all_inverted, score_documents_parallel,
    score_queries_batch, top_k_inverted, PreprocessedQuery,
};

fn strings(words: &[&str]) -> Vec<String> {
    words.iter().map(|w| w.to_string()).collect()
}

fn corpus(docs: &[&[&str]]) -> Vec<Vec<String>> {
    docs.iter().map(|doc| strings(doc)).collect()
}

fn build(docs: &[&[&str]]) -> (BuiltIndex, Interner) {
    let mut interner = Interner::default();
    let built = build_index(tokenized_corpus_from_vecs(corpus(docs)), &mut interner);
    (built, interner)
}

fn view(built: &BuiltIndex) -> IndexView<'_> {
    IndexView {
        doc_freqs: &built.doc_freqs,
        doc_len: &built.doc_len,
        inverted: &built.inverted,
        corpus_size: built.corpus_size,
        total_len: built.total_len,
    }
}

fn okapi_idf(nd: AHashMap<usize, u32>, corpus_size: usize, epsilon: f64) -> AHashMap<usize, u64> {
    calc_idf_okapi(
        nd,
        corpus_size,
        &|freq: u32, size: usize| {
            ((size as f64 - freq as f64 + 0.5) / (freq as f64 + 0.5)).ln().to_bits()
        },
        &|values: &Vec<u64>| {
            let sum: f64 = values.iter().map(|v| f64::from_bits(*v)).sum();
            (epsilon * (sum / values.len() as f64)).to_bits()
        },
    )
}

fn sample_index() -> (BuiltIndex, Interner, AHashMap<usize, u64>) {
    let (built, interner) = build(&[&["hello", "world"], &["hello", "rust"], &["world", "bm25"]]);
    let idf = okapi_idf(built.nd.clone(), built.corpus_size, 0.25);
    (built, interner, idf)
}

/// The Okapi formula with k1 = 1.5 and b = 0.75.
fn okapi(
    avgdl: f64,
) -> Scorer<impl Fn(u32, u32, u64) -> u64 + Sync, impl Fn(u64, u64) -> u64 + Sync> {
    let (k1, k1_plus1, one_minus_b, b_over_avgdl) = (1.5, 2.5, 0.25, 0.75 / avgdl);
    Scorer {
        term: move |freq: u32, dl: u32, idf: u64| {
            let freq = freq as f64;
            let norm = k1 * (one_minus_b + b_over_avgdl * dl as f64);
            (f64::from_bits(idf) * ((freq * k1_plus1) / (freq + norm))).to_bits()
        },
        add: |a: u64, b: u64| (f64::from_bits(a) + f64::from_bits(b)).to_bits(),
    }
}

/// Arithmetic on integers, whose bit patterns are ordered like the numbers they stand for.
fn counting() -> Scorer<impl Fn(u32, u32, u64) -> u64 + Sync, impl Fn(u64, u64) -> u64 + Sync> {
    Scorer {
        term: |freq: u32, dl: u32, idf: u64| idf * 100 + freq as u64 * 10 + dl as u64,
        add: |a: u64, b: u64| a + b,
    }
}

fn avgdl(built: &BuiltIndex) -> f64 {
    built.total_len as f64 / built.corpus_size as f64
}

fn weights(interner: &Interner, given: &[(&str, u64)]) -> AHashMap<usize, u64> {
    given.iter().map(|(term, weight)| (interner.get(term).unwrap(), *weight)).collect()
}

#[test]
fn inverted_scores_match_brute_force() {
    let (built, interner, idf) = sample_index();
    let view = view(&built);
    let query = preprocess_query(&["hello".to_string(), "world".to_string()], &interner, &idf);
    let scorer = okapi(avgdl(&built));

    let inverted_scores = score_all_inverted(&view, &query, &scorer);
    let brute_scores = score_documents_parallel(
        &(0..view.corpus_size).collect::<Vec<_>>(),
        view.doc_freqs,
        view.doc_len,
        &query,
        &scorer,
    );

    assert_eq!(inverted_scores.len(), 3);
    assert_eq!(brute_scores.len(), 3);
    for (a, b) in inverted_scores.iter().zip(brute_scores.iter()) {
        let (a, b) = (f64::from_bits(*a), f64::from_bits(*b));
        assert!((a - b).abs() < 1e-12, "scores differ: {a} vs {b}");
    }
}

#[test]
fn top_k_returns_highest_scores() {
    let (built, interner, idf) = sample_index();
    let view = view(&built);
    let query = preprocess_query(&["hello".to_string()], &interner, &idf);
    let scorer = okapi(avgdl(&built));

    let all_scores: Vec<f64> = score_all_inverted(&view, &query, &scorer)
        .into_iter()
        .map(f64::from_bits)
        .collect();
    let top = top_k_inverted(&view, &query, &scorer, 2);

    assert_eq!(top.len(), 2);
    let mut sorted: Vec<_> = all_scores.iter().enumerate().collect();
    sorted.sort_by(|a, b| b.1.partial_cmp(a.1).unwrap());
    assert_eq!(top[0].0, sorted[0].0);
    assert_eq!(top[1].0, sorted[1].0);
}

#[test]
fn okapi_score_has_the_expected_value() {
    let (built, interner) = build(&[&["a", "a", "b"], &["c"], &["d"], &["e"]]);
    let idf = okapi_idf(built.nd.clone(), built.corpus_size, 0.25);
    let query = preprocess_query(&strings(&["a"]), &interner, &idf);
    let scores = score_all_inverted(&view(&built), &query, &okapi(avgdl(&built)));
    // idf = ln(3.5 / 1.5), norm = 1.5 * (0.25 + 0.75 * 3 / 1.5) = 2.625, 2 * 2.5 / 4.625.
    let expected = (3.5f64 / 1.5).ln() * (5.0 / 4.625);
    assert!((f64::from_bits(scores[0]) - expected).abs() < 1e-12);
    assert_eq!(scores[1..], [0, 0, 0]);
}

#[test]
fn preprocess_keeps_known_terms_in_order() {
    let (built, interner) = build(&[&["x", "y"], &["y", "z"]]);
    let idf = weights(&interner, &[("x", 5), ("z", 7)]);
    let query = preprocess_query(&strings(&["z", "nope", "y", "x", "z"]), &interner, &idf);
    // "nope" is not interned and "y" has no weight.
    assert_eq!(query.len(), 3);
    assert!(!query.is_empty());
    let (x, z) = (interner.get("x").unwrap(), interner.get("z").unwrap());
    assert_eq!(query.terms.as_slice(), [(z, 7), (x, 5), (z, 7)]);
    let none = preprocess_query(&strings(&["nope"]), &interner, &idf);
    assert!(none.is_empty());
    assert_eq!(none.len(), 0);
    // Two times "z" and one time "x".
    let scores = score_all_inverted(&view(&built), &query, &counting());
    assert_eq!(scores, vec![512, 2 * 712]);
}

#[test]
fn queries_can_be_made_and_copied() {
    let query = PreprocessedQuery { terms: Terms::from_vec(vec![(4, 9), (1, 2), (4, 9)]) };
    assert_eq!(query.len(), 3);
    let copy = query.clone();
    drop(query);
    assert_eq!(copy.terms.as_slice(), [(4, 9), (1, 2), (4, 9)]);
    assert!(Terms::from_vec(vec![]).as_slice().is_empty());
    let many: Vec<(usize, u64)> = (0..20).map(|i| (i, i as u64)).collect();
    assert_eq!(Terms::from_vec(many.clone()).clone().as_slice(), many);
}

#[test]
fn scores_of_a_joined_query_are_added() {
    let (built, interner) = build(&[&["x", "y"], &["y", "z", "y"], &["x"]]);
    let idf = weights(&interner, &[("x", 1), ("y", 2), ("z", 3)]);
    let score = |words: &[&str]| {
        let query = preprocess_query(&strings(words), &interner, &idf);
        score_all_inverted(&view(&built), &query, &counting())
    };
    let (first, second) = (score(&["x", "z"]), score(&["y", "x"]));
    let sums: Vec<u64> = first.iter().zip(second.iter()).map(|(a, b)| a + b).collect();
    assert_eq!(score(&["x", "z", "y", "x"]), sums);
    assert_eq!(score(&["y", "x", "x", "z"]), sums);
    assert_eq!(sums[2], 2 * score(&["x"])[2]);
}

#[test]
fn a_document_by_itself_is_scored_as_among_others() {
    let (built, interner) = build(&[&["x", "y"], &["y", "z", "y"]]);
    let idf = weights(&interner, &[("x", 1), ("y", 2), ("z", 3)]);
    for words in [&["x"][..], &["z"], &[], &["x", "y"], &["z", "y", "x"]] {
        let query = preprocess_query(&strings(words), &interner, &idf);
        let chosen = score_documents_parallel(
            &[1],
            &built.doc_freqs,
            &built.doc_len,
            &query,
            &counting(),
        );
        let single = compute_bm25_score_vectorized(
            query.terms.as_slice(),
            &built.doc_freqs[1],
            built.doc_len[1],
            &counting(),
        );
        assert_eq!(single, chosen[0]);
    }
}

#[test]
fn long_posting_lists_are_accumulated() {
    let docs: Vec<Vec<String>> = (0..11).map(|i| vec!["t".to_string(); i % 3 + 1]).collect();
    let mut interner = Interner::default();
    let built = build_index(tokenized_corpus_from_vecs(docs), &mut interner);
    let idf = weights(&interner, &[("t", 2)]);
    let query = preprocess_query(&strings(&["t"]), &interner, &idf);
    let scores = score_all_inverted(&view(&built), &query, &counting());
    let expected: Vec<u64> = (0..11).map(|i| 200 + 11 * (i % 3 + 1)).collect();
    assert_eq!(scores, expected);
}

#[test]
fn empty_query_scores_zero() {
    let (built, interner, idf) = sample_index();
    let query = preprocess_query(&[], &interner, &idf);
    assert_eq!(score_all_inverted(&view(&built), &query, &counting()), vec![0, 0, 0]);
    // Identifiers are not looked at when there is nothing to score.
    let scores =
        score_documents_parallel(&[7, 9], &built.doc_freqs, &built.doc_len, &query, &counting());
    assert_eq!(scores, vec![0, 0]);
    assert_eq!(top_k_inverted(&view(&built), &query, &counting(), 2), vec![(0, 0), (1, 0)]);
    assert_eq!(top_k_inverted(&view(&built), &query, &counting(), 9).len(), 3);
}

#[test]
fn chosen_documents_are_scored_in_the_order_asked() {
    let (built, interner) = build(&[&["x", "y"], &["y", "z", "y"], &["x"]]);
    let idf = weights(&interner, &[("x", 1), ("y", 2)]);
    let query = preprocess_query(&strings(&["x", "y"]), &interner, &idf);
    let scores = score_documents_parallel(
        &[2, 0, 1, 2],
        &built.doc_freqs,
        &built.doc_len,
        &query,
        &counting(),
    );
    assert_eq!(scores, vec![111, 112 + 212, 223, 111]);
    let all = score_all_inverted(&view(&built), &query, &counting());
    assert_eq!(all, vec![324, 223, 111]);
}

#[test]
fn queries_are_scored_together() {
    let (built, interner) = build(&[&["x", "y"], &["y"]]);
    let idf = weights(&interner, &[("x", 1), ("y", 2)]);
    let queries: Vec<PreprocessedQuery> = vec![
        preprocess_query(&strings(&["y"]), &interner, &idf),
        preprocess_query(&strings(&[]), &interner, &idf),
        preprocess_query(&strings(&["x", "y"]), &interner, &idf),
    ];
    let scores = score_queries_batch(&view(&built), &queries, &counting());
    assert_eq!(scores, vec![vec![212, 211], vec![0, 0], vec![324, 211]]);
}

#[test]
fn top_documents_are_ranked_by_score_then_identifier() {
    let (built, interner) = build(&[&["q"], &["x"], &["x", "x"], &["x"], &["r"]]);
    let idf = weights(&interner, &[("x", 1)]);
    let query = preprocess_query(&strings(&["x"]), &interner, &idf);
    let index = view(&built);
    let all = top_k_inverted(&index, &query, &counting(), 10);
    assert_eq!(all, vec![(2, 122), (1, 111), (3, 111), (0, 0), (4, 0)]);
    for k in 0..=5 {
        assert_eq!(top_k_inverted(&index, &query, &counting(), k), all[..k]);
    }
}

#[test]
fn documents_with_negative_scores_stand_before_those_without_matches() {
    let (built, interner) = build(&[&["q"], &["x"]]);
    let idf = weights(&interner, &[("x", (-2.0f64).to_bits())]);
    let query = preprocess_query(&strings(&["x"]), &interner, &idf);
    let top = top_k_inverted(&view(&built), &query, &okapi(1.0), 2);
    assert_eq!(top[0].0, 1);
    assert!(f64::from_bits(top[0].1) < 0.0);
    assert_eq!(top[1], (0, 0));
}

#[test]
fn a_list_of_the_best_has_the_length_asked_for_and_no_document_twice() {
    let (built, interner) = build(&[&["q"], &["x"], &["x", "y"], &["y"], &["r"]]);
    let idf = weights(&interner, &[("x", (-2.0f64).to_bits()), ("y", 3.0f64.to_bits())]);
    let query = preprocess_query(&strings(&["x", "y", "x"]), &interner, &idf);
    let scores = score_all_inverted(&view(&built), &query, &okapi(1.4));
    for k in 0..8 {
        let top = top_k_inverted(&view(&built), &query, &okapi(1.4), k);
        assert_eq!(top.len(), k.min(5));
        let mut ids: Vec<usize> = top.iter().map(|t| t.0).collect();
        ids.sort();
        ids.dedup();
        assert_eq!(ids.len(), top.len());
        assert!(top.iter().all(|(id, score)| *score == scores[*id]));
    }
}

#[test]
fn scores_that_are_not_numbers_leave_documents_in_order() {
    // A weight that is not a number makes every score with it one that is not a number.
    let (built, interner) = build(&[&["x"], &["n"], &["x"], &["n", "x", "x"]]);
    let nan = f64::NAN.to_bits();
    let idf = weights(&interner, &[("x", 1.0f64.to_bits()), ("n", nan)]);
    let scorer = okapi(1.5);
    let only = preprocess_query(&strings(&["n"]), &interner, &idf);
    let top = top_k_inverted(&view(&built), &only, &scorer, 4);
    assert_eq!(top.iter().map(|t| t.0).collect::<Vec<_>>(), vec![1, 3, 0, 2]);
    assert!(f64::from_bits(top[0].1).is_nan() && f64::from_bits(top[1].1).is_nan());
    let both = preprocess_query(&strings(&["x", "n"]), &interner, &idf);
    let top = top_k_inverted(&view(&built), &both, &scorer, 4);
    assert_eq!(top.iter().map(|t| t.0).collect::<Vec<_>>(), vec![0, 1, 2, 3]);
}

#[test]
fn ranking_is_filled_with_the_other_documents() {
    assert_eq!(fill_ranking(vec![(2, 9)], 4, 3), vec![(2, 9), (0, 0), (1, 0)]);
    assert_eq!(fill_ranking(vec![(2, 9), (0, 1)], 4, 1), vec![(2, 9)]);
    assert_eq!(fill_ranking(vec![], 2, 5), vec![(0, 0), (1, 0)]);
}
