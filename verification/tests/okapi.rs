use bm25::bm25okapi::{BM25Okapi, BuildError, InputError};
use bm25::score::Scorer;

type Tokenizer = fn(&String) -> Result<Vec<String>, String>;

fn strings(words: &[&str]) -> Vec<String> {
    words.iter().map(|w| w.to_string()).collect()
}

fn formula(freq: u32, size: usize) -> u64 {
    ((size as f64 - freq as f64 + 0.5) / (freq as f64 + 0.5)).ln().to_bits()
}

fn floor(values: &Vec<u64>) -> u64 {
    let sum: f64 = values.iter().map(|v| f64::from_bits(*v)).sum();
    (0.25 * (sum / values.len() as f64)).to_bits()
}

fn index(
    corpus: Option<Vec<String>>,
    tokenizer: Option<Tokenizer>,
    tokenized: Option<Vec<Vec<String>>>,
) -> Result<BM25Okapi, BuildError<String>> {
    BM25Okapi::new(corpus, tokenizer, tokenized, &formula, &floor)
}

fn input_error(result: Result<BM25Okapi, BuildError<String>>) -> Option<InputError> {
    match result {
        Err(BuildError::Input(error)) => Some(error),
        _ => None,
    }
}

fn okapi(
    index: &BM25Okapi,
) -> Scorer<impl Fn(u32, u32, u64) -> u64 + Sync, impl Fn(u64, u64) -> u64 + Sync> {
    let b_over_avgdl = 0.75 / (index.total_len() as f64 / index.corpus_size() as f64);
    Scorer {
        term: move |freq: u32, dl: u32, idf: u64| {
            let freq = freq as f64;
            let norm = 1.5 * (0.25 + b_over_avgdl * dl as f64);
            (f64::from_bits(idf) * ((freq * 2.5) / (freq + norm))).to_bits()
        },
        add: |a: u64, b: u64| (f64::from_bits(a) + f64::from_bits(b)).to_bits(),
    }
}

const TEXTS: [&str; 5] = [
    "The quick brown fox",
    "A lazy dog sleeps",
    "QUICK thinking saves time",
    "nothing to see",
    "more words here",
];

fn sample() -> BM25Okapi {
    index(Some(strings(&TEXTS)), None, None).ok().unwrap()
}

#[test]
fn a_corpus_must_be_given() {
    let error = input_error(index(None, None, None)).unwrap();
    assert_eq!(error, InputError::NoCorpus);
    assert_eq!(error.message(), "Either corpus or tokenized_corpus must be provided.");
}

#[test]
fn only_one_corpus_may_be_given() {
    let error = input_error(index(Some(strings(&["a"])), None, Some(vec![]))).unwrap();
    assert_eq!(error, InputError::BothCorpora);
    assert_eq!(error.message(), "Provide either corpus or tokenized_corpus, not both.");
}

#[test]
fn a_corpus_must_not_be_empty() {
    let error = input_error(index(Some(vec![]), None, None)).unwrap();
    assert_eq!(error, InputError::EmptyCorpus);
    assert_eq!(error.message(), "Corpus size must be greater than zero.");
    assert_eq!(input_error(index(None, None, Some(vec![]))), Some(InputError::EmptyCorpus));
}

#[test]
fn a_failing_tokenizer_is_reported() {
    let fail: Tokenizer = |doc| Err(format!("no {doc}"));
    match index(Some(strings(&["a", "b"])), Some(fail), None) {
        Err(BuildError::Tokenizer(error)) => assert_eq!(error, "no a"),
        _ => panic!("the tokenizer fails"),
    }
}

#[test]
fn a_tokenizer_replaces_splitting() {
    let whole: Tokenizer = |doc| Ok(vec![doc.clone()]);
    let index = index(Some(strings(&["A b", "c", "d"])), Some(whole), None).ok().unwrap();
    assert_eq!(index.total_len(), 3);
    assert_eq!(index.preprocess_query(strings(&["A b", "a", "b"])).len(), 1);
}

#[test]
fn a_tokenizer_beside_tokens_is_not_called() {
    let lists = vec![strings(&["a", "b"]), strings(&["c"]), strings(&["d"])];
    let fail: Tokenizer = |doc| Err(doc.clone());
    let with = index(None, Some(fail), Some(lists.clone())).ok().unwrap();
    let without = index(None, None, Some(lists)).ok().unwrap();
    for query in [strings(&["a", "c"]), strings(&["b", "b", "x"])] {
        assert_eq!(
            with.get_scores(query.clone(), &okapi(&with)),
            without.get_scores(query.clone(), &okapi(&without))
        );
        assert_eq!(
            with.get_top_n_indices(query.clone(), None, &okapi(&with)),
            without.get_top_n_indices(query, None, &okapi(&without))
        );
    }
}

#[test]
fn texts_and_their_tokens_give_the_same_scores() {
    let from_texts = sample();
    let lists: Vec<Vec<String>> = TEXTS
        .iter()
        .map(|t| t.split_whitespace().map(|w| w.to_lowercase()).collect())
        .collect();
    let from_lists = index(None, None, Some(lists)).ok().unwrap();
    assert_eq!(from_texts.corpus_size(), 5);
    assert_eq!(from_texts.total_len(), 18);
    assert_eq!(from_lists.total_len(), 18);
    let query = strings(&["quick", "dog", "unknown"]);
    let scores = from_texts.get_scores(query.clone(), &okapi(&from_texts));
    assert_eq!(scores, from_lists.get_scores(query, &okapi(&from_lists)));
}

#[test]
fn all_ways_of_scoring_agree() {
    let index = sample();
    let scorer = okapi(&index);
    let query = strings(&["quick", "fox", "see"]);
    let scores = index.get_scores(query.clone(), &scorer);
    // "quick" is in two of five documents and "fox" in one; both texts are four words long.
    let quick = (3.5f64 / 2.5).ln();
    let fox = (4.5f64 / 1.5).ln();
    let saturation = 2.5 / (1.0 + 1.5 * (0.25 + 0.75 * 4.0 / 3.6));
    assert!((f64::from_bits(scores[0]) - (quick + fox) * saturation).abs() < 1e-12);
    assert!((f64::from_bits(scores[2]) - quick * saturation).abs() < 1e-12);
    assert_eq!(scores[1], 0);
    assert_eq!(scores[4], 0);
    assert_eq!(index.get_scores_chunked(query.clone(), Some(2), &scorer), scores);
    assert_eq!(index.get_scores_chunked(query.clone(), None, &scorer), scores);
    let handle = index.preprocess_query(query.clone());
    assert_eq!(handle.len(), 3);
    assert_eq!(index.get_scores_with_preprocessed(&handle, &scorer), scores);
    let batch = index.get_scores_batch(vec![query.clone(), vec![], query.clone()], &scorer);
    assert_eq!(batch, vec![scores.clone(), vec![0; 5], scores.clone()]);
    let chosen = index.get_batch_scores(query, vec![4, 0, 2, 0], &scorer).unwrap();
    assert_eq!(chosen, vec![scores[4], scores[0], scores[2], scores[0]]);
}

#[test]
fn document_identifiers_are_checked() {
    let index = sample();
    let scorer = okapi(&index);
    let error = index.get_batch_scores(strings(&["fox"]), vec![0, 5], &scorer).unwrap_err();
    assert_eq!(error, InputError::OutOfRange);
    assert_eq!(error.message(), "One or more document IDs are out of range.");
    assert_eq!(index.get_batch_scores(strings(&["fox"]), vec![], &scorer), Ok(vec![]));
    assert_eq!(index.get_batch_scores(strings(&["unknown"]), vec![4], &scorer), Ok(vec![0]));
}

#[test]
fn best_documents_are_returned() {
    let index = sample();
    let scorer = okapi(&index);
    let query = strings(&["quick", "fox"]);
    let scores = index.get_scores(query.clone(), &scorer);
    let top = index.get_top_n_indices(query.clone(), Some(3), &scorer);
    assert_eq!(top, vec![(0, scores[0]), (2, scores[2]), (1, 0)]);
    assert_eq!(index.get_top_n_indices(query.clone(), None, &scorer).len(), 5);
    assert_eq!(index.get_top_n_indices(query.clone(), Some(0), &scorer), vec![]);
    assert_eq!(index.get_top_n_indices(query.clone(), Some(1), &scorer), top[..1]);
    assert_eq!(index.get_top_n_indices(strings(&["?"]), Some(2), &scorer), vec![(0, 0), (1, 0)]);
    let texts = index.get_top_n(query, strings(&TEXTS), Some(2), &scorer).unwrap();
    assert_eq!(
        texts,
        vec![(TEXTS[0].to_string(), scores[0]), (TEXTS[2].to_string(), scores[2])]
    );
}

#[test]
fn the_default_number_of_documents_is_five() {
    let docs: Vec<Vec<String>> = (0..8).map(|i| vec![format!("w{i}")]).collect();
    let index = index(None, None, Some(docs)).ok().unwrap();
    let top = index.get_top_n_indices(strings(&["w6"]), None, &okapi(&index));
    assert_eq!(top.iter().map(|t| t.0).collect::<Vec<_>>(), vec![6, 0, 1, 2, 3]);
    let scores = index.get_scores(strings(&["w6"]), &okapi(&index));
    let lowest = top.iter().map(|t| f64::from_bits(t.1)).fold(f64::INFINITY, f64::min);
    assert!([4, 5, 7].iter().all(|d| f64::from_bits(scores[*d]) <= lowest));
}

#[test]
fn documents_must_match_the_index() {
    let index = sample();
    let error = index
        .get_top_n(strings(&["fox"]), strings(&["only one"]), None, &okapi(&index))
        .unwrap_err();
    assert_eq!(error, InputError::DocumentMismatch);
    assert_eq!(error.message(), "The documents given don't match the index corpus!");
}

#[test]
fn an_oversized_corpus_has_its_own_message() {
    assert_eq!(InputError::TooLarge.message(), "Corpus is too large to be indexed.");
}
