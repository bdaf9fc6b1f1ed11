use ahash::AHashMap;
use bm25::collections::{Interner, Tokens};
use bm25::index::{
    build_index, calc_idf_l, calc_idf_okapi, calc_idf_plus, index_corpus, lowercase_token,
    tokenize_corpus_parallel, tokenize_corpus_with_py, tokenize_document,
    tokenized_corpus_from_vecs,
};
use std::cell::Cell;

fn strings(words: &[&str]) -> Vec<String> {
    words.iter().map(|w| w.to_string()).collect()
}

/// The number of documents in which each of the terms occurs, for an index of `docs`.
fn frequencies(docs: Vec<Tokens>) -> Vec<u32> {
    let mut interner = Interner::default();
    let built = build_index(docs, &mut interner);
    let mut found: Vec<u32> = built.nd.values().copied().collect();
    found.sort();
    found
}

#[test]
fn ascii_tokens_are_lowercased() {
    assert_eq!(lowercase_token("Hello-World42"), "hello-world42");
    assert_eq!(lowercase_token(""), "");
}

#[test]
fn other_tokens_are_lowercased() {
    assert_eq!(lowercase_token("ÀÉÎ"), "àéî");
    assert_eq!(lowercase_token("ΣΑΣ"), "σας");
    assert_eq!(lowercase_token("Straße"), "straße");
}

#[test]
fn the_fast_path_makes_no_difference() {
    for code in 0..128u8 {
        let token = format!("Q{}z", code as char);
        assert_eq!(lowercase_token(&token), token.to_lowercase());
        assert_eq!(lowercase_token(&lowercase_token(&token)), lowercase_token(&token));
    }
}

#[test]
fn white_space_separates_and_nothing_else() {
    let listed = |c: char| {
        ('\u{9}'..='\u{d}').contains(&c)
            || ('\u{2000}'..='\u{200a}').contains(&c)
            || [' ', '\u{85}', '\u{a0}', '\u{1680}', '\u{2028}', '\u{2029}'].contains(&c)
            || ['\u{202f}', '\u{205f}', '\u{3000}'].contains(&c)
    };
    for c in (0..0x11000u32).filter_map(char::from_u32) {
        let tokens = tokenize_document(&format!("a{c}b"));
        assert_eq!(tokens.as_slice().len(), if listed(c) { 2 } else { 1 });
    }
}

#[test]
fn tokens_can_be_read_and_made() {
    assert_eq!(tokenize_document(" One\tTWO ").as_slice(), strings(&["one", "two"]));
    let list = strings(&["a", "B", "a"]);
    assert_eq!(Tokens::from_vec(list.clone()).as_slice(), list);
    let long: Vec<String> = (0..40).map(|i| i.to_string()).collect();
    assert_eq!(Tokens::from_vec(long.clone()).as_slice(), long);
}

#[test]
fn interned_strings_have_symbols() {
    let mut interner = Interner::default();
    assert_eq!(interner.get("a"), None);
    assert_eq!(interner.get_or_intern("a"), 0);
    assert_eq!(interner.get_or_intern("b"), 1);
    assert_eq!(interner.get_or_intern("a"), 0);
    assert_eq!(interner.len(), 2);
    assert_eq!(interner.get("b"), Some(1));
    assert_eq!(interner.get("c"), None);
    let built = build_index(vec![Tokens::from_vec(strings(&["b", "b", "c"]))], &mut interner);
    assert_eq!(interner.get("c"), Some(2));
    assert_eq!(built.doc_freqs[0].get(&1), Some(&2));
}

#[test]
fn one_more_document_is_added_at_the_end() {
    let docs = vec![strings(&["x", "y", "x"]), strings(&["z"])];
    let mut longer = docs.clone();
    longer.push(strings(&["y", "w", "y"]));
    let (mut one, mut two) = (Interner::default(), Interner::default());
    let before = build_index(tokenized_corpus_from_vecs(docs), &mut one);
    let after = build_index(tokenized_corpus_from_vecs(longer), &mut two);
    for (term, times) in [("x", 0), ("y", 2), ("z", 0), ("w", 1), ("nowhere", 0)] {
        let mut list = one
            .get(term)
            .and_then(|s| before.inverted.get(&s).cloned())
            .unwrap_or_default();
        let mut count = one.get(term).and_then(|s| before.nd.get(&s).copied()).unwrap_or(0);
        if times > 0 {
            list.push((2, times));
            count += 1;
        }
        let symbol = two.get(term);
        let found = symbol.and_then(|s| after.inverted.get(&s).cloned()).unwrap_or_default();
        assert_eq!(found, list);
        assert_eq!(symbol.and_then(|s| after.nd.get(&s).copied()).unwrap_or(0), count);
    }
    assert_eq!(before.doc_len, vec![3, 1]);
    assert_eq!(after.doc_len, vec![3, 1, 3]);
    assert_eq!((before.total_len, after.total_len), (4, 7));
}

#[test]
fn documents_are_split_at_white_space() {
    let docs = vec![tokenize_document("  One two\tTHREE\u{2003}two\n")];
    // "one" and "three" and "two": three distinct terms, each in the one document.
    let mut interner = Interner::default();
    let built = build_index(docs, &mut interner);
    assert_eq!(built.doc_len, vec![4]);
    let mut counts: Vec<u32> = built.doc_freqs[0].values().copied().collect();
    counts.sort();
    assert_eq!(counts, vec![1, 1, 2]);
    let mut empty = Interner::default();
    let none = build_index(vec![tokenize_document(" \n ")], &mut empty);
    assert_eq!(none.doc_len, vec![0]);
    assert_eq!(none.total_len, 0);
}

#[test]
fn joined_texts_have_the_tokens_of_both() {
    let joined =
        vec![tokenize_document("a B"), tokenize_document("C a"), tokenize_document("a B C a")];
    let mut interner = Interner::default();
    let built = build_index(joined, &mut interner);
    assert_eq!(built.doc_len, vec![2, 2, 4]);
    for (symbol, count) in built.doc_freqs[2].iter() {
        let first = built.doc_freqs[0].get(symbol).copied().unwrap_or(0);
        let second = built.doc_freqs[1].get(symbol).copied().unwrap_or(0);
        assert_eq!(*count, first + second);
    }
}

#[test]
fn a_corpus_is_tokenized_in_order() {
    let texts: Vec<String> = (0..40).map(|i| "w ".repeat(i)).collect();
    let tokenized = tokenize_corpus_parallel(&texts);
    let mut interner = Interner::default();
    let built = build_index(tokenized, &mut interner);
    assert_eq!(built.doc_len, (0..40).collect::<Vec<u32>>());
}

#[test]
fn a_callback_tokenizes() {
    let split = |doc: &String| -> Result<Vec<String>, String> {
        Ok(doc.split(',').map(|s| s.to_string()).collect())
    };
    let tokenized = tokenize_corpus_with_py(&strings(&["a,B", "a"]), &split).ok().unwrap();
    assert_eq!(frequencies(tokenized), vec![1, 2]);
}

#[test]
fn the_first_failure_of_a_callback_stops() {
    let calls = Cell::new(0);
    let fail = |doc: &String| -> Result<Vec<String>, String> {
        calls.set(calls.get() + 1);
        if doc.starts_with('!') {
            Err(doc.clone())
        } else {
            Ok(vec![doc.clone()])
        }
    };
    let result = tokenize_corpus_with_py(&strings(&["a", "!1", "b", "!2"]), &fail);
    assert_eq!(result.err(), Some("!1".to_string()));
    assert_eq!(calls.get(), 2);
}

#[test]
fn an_index_counts_terms() {
    let docs = vec![
        strings(&["hello", "world", "hello"]),
        strings(&["rust"]),
        strings(&["world", "rust", "rust"]),
    ];
    let mut interner = Interner::default();
    let built = build_index(tokenized_corpus_from_vecs(docs), &mut interner);
    assert_eq!(built.corpus_size, 3);
    assert_eq!(built.doc_len, vec![3, 1, 3]);
    assert_eq!(built.total_len, 7);
    // The symbols are recognised by the documents they occur in.
    let hello = *built.doc_freqs[0].iter().find(|(_, c)| **c == 2).unwrap().0;
    let world = *built.doc_freqs[0].iter().find(|(_, c)| **c == 1).unwrap().0;
    let rust = *built.doc_freqs[1].keys().next().unwrap();
    let mut symbols = vec![hello, world, rust];
    symbols.sort();
    assert_eq!(symbols, vec![0, 1, 2]);
    assert_eq!(built.doc_freqs[2].get(&rust), Some(&2));
    assert_eq!(built.doc_freqs[2].get(&world), Some(&1));
    assert_eq!(built.doc_freqs[2].get(&hello), None);
    let expected: AHashMap<usize, u32> = [(hello, 1), (world, 2), (rust, 2)].into_iter().collect();
    assert_eq!(built.nd, expected);
    assert_eq!(built.inverted.get(&hello), Some(&vec![(0, 2)]));
    assert_eq!(built.inverted.get(&world), Some(&vec![(0, 1), (2, 1)]));
    assert_eq!(built.inverted.get(&rust), Some(&vec![(1, 1), (2, 2)]));
    assert_eq!(built.inverted.len(), 3);
    // Document frequencies are the lengths of the posting lists.
    for (symbol, count) in built.nd.iter() {
        assert_eq!(built.inverted[symbol].len(), *count as usize);
    }
    // The counts of a document add up to its length.
    for (freqs, len) in built.doc_freqs.iter().zip(built.doc_len.iter()) {
        assert_eq!(freqs.values().sum::<u32>(), *len);
    }
}

#[test]
fn interning_a_second_corpus_keeps_the_symbols() {
    let mut interner = Interner::default();
    let first = build_index(tokenized_corpus_from_vecs(vec![strings(&["a", "a"])]), &mut interner);
    assert_eq!(first.doc_freqs[0].get(&0), Some(&2));
    let later = tokenized_corpus_from_vecs(vec![strings(&["b"]), strings(&["a"])]);
    let second = build_index(later, &mut interner);
    assert_eq!(second.doc_freqs[0].get(&1), Some(&1));
    assert_eq!(second.doc_freqs[1].get(&0), Some(&1));
}

#[test]
fn an_index_is_built_where_its_numbers_fit() {
    let mut interner = Interner::default();
    let docs = tokenized_corpus_from_vecs(vec![strings(&["a", "b"]), strings(&[])]);
    let built = index_corpus(docs, &mut interner).unwrap();
    assert_eq!(built.doc_len, vec![2, 0]);
    assert_eq!(index_corpus(vec![], &mut interner).unwrap().corpus_size, 0);
}

#[test]
fn many_documents_are_counted() {
    let docs: Vec<Vec<String>> =
        (0..500).map(|i| strings(&[if i % 2 == 0 { "even" } else { "odd" }, "all"])).collect();
    assert_eq!(frequencies(tokenized_corpus_from_vecs(docs)), vec![250, 250, 500]);
}

#[test]
fn okapi_weights_have_a_floor() {
    let nd: AHashMap<usize, u32> = [(0, 1), (1, 3), (2, 4)].into_iter().collect();
    let formula = |freq: u32, size: usize| {
        ((size as f64 - freq as f64 + 0.5) / (freq as f64 + 0.5)).ln()
    };
    let raw: Vec<f64> = vec![formula(1, 4), formula(3, 4), formula(4, 4)];
    let floor = 0.25 * (raw.iter().sum::<f64>() / 3.0);
    let weights = calc_idf_okapi(
        nd,
        4,
        &|freq: u32, size: usize| formula(freq, size).to_bits(),
        &|values: &Vec<u64>| {
            let sum: f64 = values.iter().map(|v| f64::from_bits(*v)).sum();
            (0.25 * (sum / values.len() as f64)).to_bits()
        },
    );
    assert_eq!(weights.len(), 3);
    assert_eq!(f64::from_bits(weights[&0]), (3.5f64 / 1.5).ln());
    assert!((f64::from_bits(weights[&1]) - floor).abs() < 1e-12);
    assert_eq!(weights[&1], weights[&2]);
}

#[test]
fn a_floor_above_zero_leaves_no_negative_weight() {
    let nd: AHashMap<usize, u32> = [(3, 1), (4, 2), (5, 3)].into_iter().collect();
    let weights = calc_idf_okapi(
        nd,
        3,
        &|freq: u32, _: usize| (1.5 - freq as f64).to_bits(),
        &|_: &Vec<u64>| 0.125f64.to_bits(),
    );
    assert_eq!(f64::from_bits(weights[&3]), 0.5);
    assert_eq!(f64::from_bits(weights[&4]), 0.125);
    assert_eq!(f64::from_bits(weights[&5]), 0.125);
}

#[test]
fn negative_zero_is_not_replaced() {
    let nd: AHashMap<usize, u32> = [(0, 1)].into_iter().collect();
    let weights = calc_idf_okapi(
        nd,
        1,
        &|_: u32, _: usize| (-0.0f64).to_bits(),
        &|_: &Vec<u64>| 1.0f64.to_bits(),
    );
    assert_eq!(weights[&0], (-0.0f64).to_bits());
}

#[test]
fn plus_weights_follow_their_formula() {
    let nd: AHashMap<usize, u32> = [(0, 1), (7, 2)].into_iter().collect();
    let weights = calc_idf_plus(nd, 3, &|freq: u32, size: usize| {
        ((size as f64 + 1.0).ln() - (freq as f64).ln()).to_bits()
    });
    assert_eq!(f64::from_bits(weights[&0]), 4.0f64.ln());
    assert_eq!(f64::from_bits(weights[&7]), 4.0f64.ln() - 2.0f64.ln());
    assert_eq!(weights.len(), 2);
}

#[test]
fn l_weights_follow_their_formula() {
    let nd: AHashMap<usize, u32> = [(2, 1), (9, 3)].into_iter().collect();
    let weights = calc_idf_l(nd, 3, &|freq: u32, size: usize| {
        ((size as f64 + 1.0).ln() - (freq as f64 + 0.5).ln()).to_bits()
    });
    assert_eq!(f64::from_bits(weights[&2]), 4.0f64.ln() - 1.5f64.ln());
    assert_eq!(f64::from_bits(weights[&9]), 4.0f64.ln() - 3.5f64.ln());
    assert_eq!(weights.len(), 2);
}

#[test]
fn rarer_terms_weigh_more() {
    let nd: AHashMap<usize, u32> = (0..6).map(|s| (s, s as u32 + 1)).collect();
    let plus = calc_idf_plus(nd.clone(), 6, &|freq: u32, size: usize| {
        ((size as f64 + 1.0).ln() - (freq as f64).ln()).to_bits()
    });
    let l = calc_idf_l(nd, 6, &|freq: u32, size: usize| {
        ((size as f64 + 1.0).ln() - (freq as f64 + 0.5).ln()).to_bits()
    });
    for s in 0..6 {
        assert!(0.0 < f64::from_bits(l[&s]));
        assert!(f64::from_bits(l[&s]) < f64::from_bits(plus[&s]));
        if s > 0 {
            assert!(f64::from_bits(l[&s]) < f64::from_bits(l[&(s - 1)]));
        }
    }
}
