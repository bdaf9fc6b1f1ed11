use ahash::AHashMap;
use bm25::optimizations::{
    compute_bm25_score_vectorized, process_documents_in_chunks, score_documents_flat,
    select_top_k_indices,
};
use bm25::ranking::{rank_documents, ranking};
use bm25::score::{below_zero, not_a_number, order_key, Scorer};
use std::cmp::Ordering;

fn bits(values: &[f64]) -> Vec<u64> {
    values.iter().map(|v| v.to_bits()).collect()
}

#[test]
fn keys_are_ordered_like_numbers() {
    let ascending = [
        f64::NEG_INFINITY,
        -1.0e300,
        -2.5,
        -1.0,
        -1.0e-310,
        0.0,
        1.0e-310,
        1.0,
        1.0000000000000002,
        2.5,
        1.0e300,
        f64::INFINITY,
    ];
    for i in 0..ascending.len() {
        for j in 0..ascending.len() {
            let keys = (order_key(ascending[i].to_bits()), order_key(ascending[j].to_bits()));
            assert_eq!(keys.0.cmp(&keys.1), ascending[i].partial_cmp(&ascending[j]).unwrap());
        }
    }
    assert_eq!(order_key((-0.0f64).to_bits()), 0);
    assert_eq!(order_key(0.0f64.to_bits()), 0);
    assert_eq!(order_key(1.0f64.to_bits()), 0x3ff0_0000_0000_0000);
    assert_eq!(order_key((-1.0f64).to_bits()), -0x3ff0_0000_0000_0000);
}

#[test]
fn numbers_below_zero_are_recognised() {
    assert!(below_zero((-1.0e-310f64).to_bits()));
    assert!(below_zero(f64::NEG_INFINITY.to_bits()));
    assert!(!below_zero((-0.0f64).to_bits()));
    assert!(!below_zero(3.0f64.to_bits()));
    assert!(!below_zero(f64::NAN.to_bits()));
    assert!(!below_zero((-f64::NAN).to_bits()));
}

#[test]
fn documents_are_compared_by_score_then_identifier() {
    let (low, high) = ((-1.0f64).to_bits(), 2.0f64.to_bits());
    assert_eq!(ranking(&(5, high), &(1, low)), Ordering::Less);
    assert_eq!(ranking(&(1, low), &(5, high)), Ordering::Greater);
    assert_eq!(ranking(&(1, low), &(5, low)), Ordering::Less);
    assert_eq!(ranking(&(5, low), &(1, low)), Ordering::Greater);
    assert_eq!(ranking(&(5, low), &(5, low)), Ordering::Equal);
    let nan = f64::NAN.to_bits();
    assert_eq!(ranking(&(1, low), &(5, nan)), Ordering::Less);
    assert_eq!(ranking(&(1, nan), &(5, high)), Ordering::Less);
    assert_eq!(ranking(&(5, nan), &(1, nan)), Ordering::Greater);
}

#[test]
fn documents_are_ranked() {
    let (low, high, nan) = ((-1.0f64).to_bits(), 2.0f64.to_bits(), f64::NAN.to_bits());
    assert_eq!(
        rank_documents(vec![(4, low), (1, low), (3, high)]),
        vec![(3, high), (1, low), (4, low)]
    );
    assert_eq!(
        rank_documents(vec![(6, nan), (4, low), (0, nan), (1, low), (3, high)]),
        vec![(0, nan), (3, high), (1, low), (4, low), (6, nan)]
    );
    assert_eq!(rank_documents(vec![(2, nan), (7, low), (1, high)]).len(), 3);
    // Number two stands between one and three, and three before one: all three are kept.
    let mut kept = rank_documents(vec![(1, low), (2, nan), (3, high)]);
    kept.sort();
    assert_eq!(kept, vec![(1, low), (2, nan), (3, high)]);
    assert_eq!(rank_documents(vec![]), vec![]);
}

#[test]
fn bit_patterns_that_are_not_numbers_are_recognised() {
    assert!(not_a_number(f64::NAN.to_bits()));
    assert!(not_a_number((-f64::NAN).to_bits()));
    assert!(!not_a_number(f64::INFINITY.to_bits()));
    assert!(!not_a_number(f64::NEG_INFINITY.to_bits()));
    assert!(!not_a_number((-0.0f64).to_bits()));
}

#[test]
fn best_scores_are_selected() {
    let scores = bits(&[0.5, -1.0, 3.0, 2.0, 0.0]);
    assert_eq!(select_top_k_indices(&scores, 2), vec![2, 3]);
    assert_eq!(select_top_k_indices(&scores, 4), vec![2, 3, 0, 4]);
    assert_eq!(select_top_k_indices(&scores, 5), vec![2, 3, 0, 4, 1]);
    assert_eq!(select_top_k_indices(&scores, 50), vec![2, 3, 0, 4, 1]);
    assert_eq!(select_top_k_indices(&scores, 0), Vec::<usize>::new());
    assert_eq!(select_top_k_indices(&[], 3), Vec::<usize>::new());
}

#[test]
fn best_of_many_scores_are_selected() {
    let scores: Vec<u64> =
        (0..1000u64).map(|i| ((i * 7919) % 1000) as f64).map(f64::to_bits).collect();
    let top = select_top_k_indices(&scores, 10);
    let values: Vec<f64> = top.iter().map(|i| f64::from_bits(scores[*i])).collect();
    let expected: Vec<f64> = (0..10).map(|i| 999.0 - i as f64).collect();
    assert_eq!(values, expected);
    let all = select_top_k_indices(&scores, 1000);
    assert_eq!(all[..10], top[..]);
}

#[test]
fn chunks_do_not_change_scores() {
    let expected: Vec<f64> = (0..10).map(|i| i as f64 * 0.5).collect();
    for chunk in 0..12 {
        assert_eq!(score_documents_flat(10, chunk, |i: usize| i as f64 * 0.5), expected);
    }
    assert_eq!(score_documents_flat(3, usize::MAX, |i: usize| i), vec![0, 1, 2]);
    assert_eq!(score_documents_flat(0, 4, |i: usize| i), Vec::<usize>::new());
}

#[test]
fn chunks_are_handed_out_in_order() {
    let ranges = process_documents_in_chunks(7, 3, |start: usize, end: usize| vec![(start, end)]);
    assert_eq!(ranges, vec![(0, 3), (3, 6), (6, 7)]);
    let single = process_documents_in_chunks(2, 0, |start: usize, end: usize| vec![(start, end)]);
    assert_eq!(single, vec![(0, 1), (1, 2)]);
    let exact = process_documents_in_chunks(6, 3, |start: usize, end: usize| vec![(start, end)]);
    assert_eq!(exact, vec![(0, 3), (3, 6)]);
    let whole = process_documents_in_chunks(6, usize::MAX, |s: usize, e: usize| vec![(s, e)]);
    assert_eq!(whole, vec![(0, 6)]);
    let none = process_documents_in_chunks(0, 3, |start: usize, end: usize| vec![(start, end)]);
    assert!(none.is_empty());
    let flat = process_documents_in_chunks(5, 2, |s: usize, e: usize| (s..e).collect::<Vec<_>>());
    assert_eq!(flat, vec![0, 1, 2, 3, 4]);
}

#[test]
fn one_document_is_scored() {
    let doc_freq: AHashMap<usize, u32> = [(1, 2), (2, 1), (3, 4)].into_iter().collect();
    let norm = 1.5;
    let scorer = Scorer {
        term: |freq: u32, _dl: u32, idf: u64| {
            let freq = freq as f64;
            (f64::from_bits(idf) * ((freq * 2.5) / (freq + norm))).to_bits()
        },
        add: |a: u64, b: u64| (f64::from_bits(a) + f64::from_bits(b)).to_bits(),
    };
    let score = |terms: &[(usize, f64)]| {
        let terms: Vec<(usize, u64)> = terms.iter().map(|(s, w)| (*s, w.to_bits())).collect();
        f64::from_bits(compute_bm25_score_vectorized(&terms, &doc_freq, 7, &scorer))
    };
    assert_eq!(score(&[]), 0.0);
    assert_eq!(score(&[(1, 0.7)]), 0.7 * (5.0 / 3.5));
    assert_eq!(score(&[(9, 0.7)]), 0.0);
    assert_eq!(score(&[(1, 0.7), (2, 0.2)]), 0.7 * (5.0 / 3.5) + 0.2 * (2.5 / 2.5));
    assert_eq!(score(&[(1, 0.7), (9, 0.2)]), 0.7 * (5.0 / 3.5));
    assert_eq!(
        score(&[(1, 0.7), (9, 1.0), (3, 0.1)]),
        0.7 * (5.0 / 3.5) + 0.1 * (10.0 / 5.5)
    );
    // A single contribution is not added to zero.
    assert!(score(&[(1, -0.0)]).is_sign_negative());
    assert!(score(&[(1, -0.0), (9, 1.0)]).is_sign_positive());
}
