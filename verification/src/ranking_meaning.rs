//! What the order of documents, the best documents and chunks mean, in terms of scores, identifiers
//! and sequences alone.
use crate::bm25okapi::BM25Okapi;
use crate::collections::lists_entries;
use crate::laws::{
    best_list_carries_scores, lemma_full_ranking, lemma_full_scores, lemma_unlisted,
};
use crate::optimizations::{
    chunk_count, chunk_end, chunk_start, chunks_cover_all_documents, processes_chunks, selects_best,
};
use crate::ranking::{
    distinct_documents, is_ranked, lemma_numbers_orderable, orderable, rank_at, ranked_before,
};
use crate::score::{is_nan, rank, Part, Scorer};
use crate::scoring::{
    first, is_top, lists_document, ranks_candidates, scores_candidates, unlisted,
};
use vstd::prelude::*;

verus! {

// ---------------------------------------------------------------------------------------------
// The order of documents
// ---------------------------------------------------------------------------------------------

/// Of two documents with different scores, the one with the higher score stands first. With equal
/// scores, or where a score is not a number, the one with the smaller identifier does.
pub proof fn higher_scores_stand_first(a: (usize, u64), b: (usize, u64))
    ensures
        !is_nan(a.1) && !is_nan(b.1) && rank(a.1) > rank(b.1) ==> ranked_before(a, b)
            && !ranked_before(b, a),
        rank(a.1) == rank(b.1) || is_nan(a.1) || is_nan(b.1) ==> (ranked_before(a, b) <==> a.0
            < b.0),
        a.0 != b.0 ==> (ranked_before(a, b) <==> !ranked_before(b, a)),
        !ranked_before(a, a),
{
}

/// Of two documents whose scores are numbers without the sign bit, the one with the larger bit
/// pattern stands first, whatever the identifiers are.
pub proof fn larger_bit_patterns_stand_first(a: (usize, u64), b: (usize, u64))
    requires
        b.1 < a.1 <= 0x7ff0_0000_0000_0000,
    ensures
        ranked_before(a, b),
        !ranked_before(b, a),
{
}

/// In a ranked list every document stands before all that come after it, and in a list of distinct
/// documents no two have the same identifier.
pub proof fn lists_are_ranked_throughout(items: Seq<(usize, u64)>, i: int, j: int)
    requires
        0 <= i < j < items.len(),
    ensures
        is_ranked(items) ==> ranked_before(items[i], items[j]),
        distinct_documents(items) ==> items[i].0 != items[j].0,
{
}

/// Documents can be put in order if there is an arrangement of them in which every one stands
/// before all that come after it.
pub proof fn arranged_documents_are_orderable(
    items: Seq<(usize, u64)>,
    arranged: Seq<(usize, u64)>,
)
    requires
        forall|i: int, j: int|
            0 <= i < j < arranged.len() ==> ranked_before(
                #[trigger] arranged[i],
                #[trigger] arranged[j],
            ),
        forall|e: (usize, u64)| #[trigger] items.contains(e) ==> arranged.contains(e),
    ensures
        orderable(items),
{
    assert forall|a: (usize, u64), b: (usize, u64), c: (usize, u64)|
        #![trigger items.contains(a), items.contains(b), items.contains(c)]
        items.contains(a) && items.contains(b) && items.contains(c) && ranked_before(a, b)
            && ranked_before(b, c) implies ranked_before(a, c) by {
        let i = arranged.index_of(a);
        let j = arranged.index_of(b);
        let k = arranged.index_of(c);
        assert(arranged[i] == a && arranged[j] == b && arranged[k] == c);
        if j < i {
            assert(ranked_before(arranged[j], arranged[i]));
            higher_scores_stand_first(a, b);
        }
        if k < j {
            assert(ranked_before(arranged[k], arranged[j]));
            higher_scores_stand_first(b, c);
        }
        assert(i != j && j != k);
        assert(ranked_before(arranged[i], arranged[k]));
    }
}

/// Documents whose scores are all numbers, or all not numbers, can be put in order.
pub proof fn documents_of_one_kind_are_orderable(items: Seq<(usize, u64)>)
    requires
        (forall|i: int| 0 <= i < items.len() ==> !is_nan((#[trigger] items[i]).1)) || (forall|
            i: int,
        |
            0 <= i < items.len() ==> is_nan((#[trigger] items[i]).1)),
    ensures
        orderable(items),
{
    if forall|i: int| 0 <= i < items.len() ==> !is_nan((#[trigger] items[i]).1) {
        assert forall|e: (usize, u64)| #[trigger] items.contains(e) implies !is_nan(e.1) by {
            assert(items[items.index_of(e)] == e);
        }
        lemma_numbers_orderable(items);
    } else {
        assert forall|e: (usize, u64)| #[trigger] items.contains(e) implies is_nan(e.1) by {
            assert(items[items.index_of(e)] == e);
        }
    }
}

// ---------------------------------------------------------------------------------------------
// The best documents
// ---------------------------------------------------------------------------------------------

/// A list of the best documents, where the scores of the documents that hold a term are numbers. It
/// has the length asked for, or all documents if there are fewer. Each document stands in it once
/// and with its score. A document that holds a term of the query stands before one that holds none;
/// of two that hold one, the higher score stands first, and the smaller identifier if the scores
/// are equal; of two that hold none, the smaller identifier stands first. And no document outside
/// of the list would stand before one in it.
pub proof fn the_best_documents_are_listed_in_order<
    T: Fn(u32, u32, u64) -> u64,
    A: Fn(u64, u64) -> u64,
>(
    parts: spec_fn(int) -> Seq<Part>,
    scorer: Scorer<T, A>,
    scores: Seq<u64>,
    k: nat,
    top: Seq<(usize, u64)>,
)
    requires
        scorer.deterministic(),
        scores.len() <= usize::MAX,
        forall|d: int| 0 <= d < scores.len() ==> scorer.sums(parts(d), #[trigger] scores[d]),
        forall|d: int|
            0 <= d < scores.len() && parts(d).len() > 0 ==> !is_nan(#[trigger] scores[d]),
        forall|d: int| d >= scores.len() ==> (#[trigger] parts(d)).len() == 0,
        is_top(parts, scorer, scores.len(), k, top),
    ensures
        top.len() == if k < scores.len() {
            k
        } else {
            scores.len()
        },
        forall|i: int|
            0 <= i < top.len() ==> (#[trigger] top[i]).0 < scores.len() && top[i].1
                == scores[top[i].0 as int],
        forall|i: int, j: int|
            0 <= i < j < top.len() ==> (#[trigger] top[i]).0 != (#[trigger] top[j]).0,
        forall|i: int, j: int|
            0 <= i < j < top.len() ==> {
                let a = (#[trigger] top[i]).0 as int;
                let b = (#[trigger] top[j]).0 as int;
                if parts(a).len() > 0 {
                    parts(b).len() == 0 || rank(scores[a]) > rank(scores[b]) || (rank(scores[a])
                        == rank(scores[b]) && a < b)
                } else {
                    parts(b).len() == 0 && a < b
                }
            },
        forall|i: int, b: int|
            0 <= i < top.len() && 0 <= b < scores.len() && (forall|j: int|
                0 <= j < top.len() ==> (#[trigger] top[j]).0 != b) ==> {
                let a = (#[trigger] top[i]).0 as int;
                if parts(a).len() > 0 {
                    parts(b).len() == 0 || rank(scores[a]) > rank(#[trigger] scores[b]) || (rank(
                        scores[a],
                    ) == rank(scores[b]) && a < b)
                } else {
                    parts(b).len() == 0 && a < b
                }
            },
{
    best_list_carries_scores(parts, scorer, scores, k, top);
    let n = scores.len();
    let ranked = choose|ranked: Seq<(usize, u64)>| #[trigger]
        ranks_candidates(parts, scorer, ranked) && top == first(ranked + unlisted(ranked, n), k);
    let map = choose|map: Map<usize, u64>| #[trigger]
        scores_candidates(parts, scorer, map) && lists_entries(ranked, map);
    let others = unlisted(ranked, n);
    let full = ranked + others;
    lemma_full_scores(parts, scorer, scores, ranked);
    lemma_unlisted(ranked, n);
    assert forall|i: int| 0 <= i < full.len() implies (#[trigger] full[i]).0 < n && full[i].1
        == scores[full[i].0 as int] && (i < ranked.len() <==> parts(full[i].0 as int).len()
        > 0) by {
        let d = full[i].0;
        if i < ranked.len() {
            assert(full[i] == ranked[i]);
            assert(map.contains_key(ranked[i].0));
        } else {
            assert(full[i] == others[i - ranked.len()]);
            assert(!lists_document(ranked, d as int));
            if map.contains_key(d) {
                let j = choose|j: int| 0 <= j < ranked.len() && (#[trigger] ranked[j]).0 == d;
                assert(lists_document(ranked, d as int));
            }
        }
    }
    assert forall|i: int| 0 <= i < ranked.len() implies !is_nan((#[trigger] ranked[i]).1) by {
        assert(full[i] == ranked[i]);
        assert(!is_nan(scores[full[i].0 as int]));
    }
    documents_of_one_kind_are_orderable(ranked);
    assert forall|i: int, j: int| 0 <= i < j < full.len() implies {
        let a = (#[trigger] full[i]).0 as int;
        let b = (#[trigger] full[j]).0 as int;
        &&& a != b
        &&& if parts(a).len() > 0 {
            parts(b).len() == 0 || rank(scores[a]) > rank(scores[b]) || (rank(scores[a]) == rank(
                scores[b],
            ) && a < b)
        } else {
            parts(b).len() == 0 && a < b
        }
    } by {
        if j < ranked.len() {
            assert(full[i] == ranked[i] && full[j] == ranked[j]);
            lists_are_ranked_throughout(ranked, i, j);
            higher_scores_stand_first(ranked[i], ranked[j]);
            higher_scores_stand_first(ranked[j], ranked[i]);
        } else if i < ranked.len() {
            let entry = others[j - ranked.len()];
            assert(full[j] == entry && full[i] == ranked[i]);
            assert(!lists_document(ranked, entry.0 as int));
        } else {
            let p = i - ranked.len();
            let q = j - ranked.len();
            assert(full[i] == others[p] && full[j] == others[q]);
        }
    }
    lemma_full_ranking(ranked, n, full);
    assert forall|i: int| 0 <= i < top.len() implies #[trigger] top[i] == full[i] by {}
    assert forall|i: int, b: int|
        0 <= i < top.len() && 0 <= b < scores.len() && (forall|j: int|
            0 <= j < top.len() ==> (#[trigger] top[j]).0 != b) implies {
        let a = (#[trigger] top[i]).0 as int;
        if parts(a).len() > 0 {
            parts(b).len() == 0 || rank(scores[a]) > rank(#[trigger] scores[b]) || (rank(scores[a])
                == rank(scores[b]) && a < b)
        } else {
            parts(b).len() == 0 && a < b
        }
    } by {
        assert(lists_document(full, b));
        let j = choose|j: int| 0 <= j < full.len() && (#[trigger] full[j]).0 == b;
        if j < top.len() {
            assert(top[j] == full[j]);
        }
        assert(top[i] == full[i] && i < j);
        assert(full[j].0 as int == b);
    }
}

/// The best documents of an index object: as many as asked for, where a missing number means five,
/// or all if there are fewer; and none if none are asked for.
pub proof fn a_missing_number_means_five<T: Fn(u32, u32, u64) -> u64, A: Fn(u64, u64) -> u64>(
    index: BM25Okapi,
    query: Seq<Seq<char>>,
    k: usize,
    scorer: Scorer<T, A>,
    top: Seq<(usize, u64)>,
)
    ensures
        index.is_top_n(query, None, scorer, top) <==> index.is_top_n(
            query,
            Some(5usize),
            scorer,
            top,
        ),
        index.is_top_n(query, Some(0usize), scorer, top) ==> top.len() == 0,
        k > 0 ==> (index.is_top_n(query, Some(k), scorer, top) <==> is_top(
            index.parts(index.terms(query)),
            scorer,
            index.docs().len(),
            k as nat,
            top,
        )),
{
}

/// Following ranked documents by the others until there are enough: the ranked ones stay at their
/// places as far as they are asked for. The others have score zero, are not among the ranked ones,
/// and stand in ascending order without a gap. There are as many as asked for, or all documents.
pub proof fn ranked_documents_are_followed_by_the_others(
    ranked: Seq<(usize, u64)>,
    n: nat,
    k: nat,
    top: Seq<(usize, u64)>,
)
    requires
        n <= usize::MAX,
        top == first(ranked + unlisted(ranked, n), k),
    ensures
        top.len() <= k,
        forall|i: int|
            0 <= i < ranked.len() && i < k ==> i < top.len() && top[i] == #[trigger] ranked[i],
        forall|i: int|
            ranked.len() <= i < top.len() ==> (#[trigger] top[i]).1 == 0 && top[i].0 < n && forall|
                j: int,
            |
                0 <= j < ranked.len() ==> (#[trigger] ranked[j]).0 != top[i].0,
        forall|i: int, j: int|
            ranked.len() <= i < j < top.len() ==> (#[trigger] top[i]).0 < (#[trigger] top[j]).0,
        forall|i: int, d: int|
            ranked.len() <= i < top.len() && 0 <= d < (#[trigger] top[i]).0
                && !#[trigger] lists_document(ranked, d) ==> lists_document(top, d),
        top.len() < k ==> forall|d: int| 0 <= d < n ==> #[trigger] lists_document(top, d),
{
    let others = unlisted(ranked, n);
    let full = ranked + others;
    lemma_unlisted(ranked, n);
    assert forall|i: int| 0 <= i < top.len() implies #[trigger] top[i] == full[i] by {}
    assert forall|i: int| ranked.len() <= i < top.len() implies (#[trigger] top[i]).1 == 0
        && top[i].0 < n && forall|j: int|
        0 <= j < ranked.len() ==> (#[trigger] ranked[j]).0 != top[i].0 by {
        let entry = others[i - ranked.len()];
        assert(top[i] == entry);
        assert(!lists_document(ranked, entry.0 as int));
        assert forall|j: int| 0 <= j < ranked.len() implies (#[trigger] ranked[j]).0
            != top[i].0 by {
            if ranked[j].0 == top[i].0 {
                assert(lists_document(ranked, entry.0 as int));
            }
        }
    }
    assert forall|i: int, j: int| ranked.len() <= i < j < top.len() implies (#[trigger] top[i]).0
        < (#[trigger] top[j]).0 by {
        assert(others[i - ranked.len()].0 < others[j - ranked.len()].0);
    }
    assert forall|i: int, d: int|
        ranked.len() <= i < top.len() && 0 <= d < (#[trigger] top[i]).0
            && !#[trigger] lists_document(ranked, d) implies lists_document(top, d) by {
        let entry = others[i - ranked.len()];
        assert(top[i] == entry && entry.0 < n);
        let m = choose|m: int| 0 <= m < others.len() && (#[trigger] others[m]).0 == d;
        if m >= i - ranked.len() {
            assert(others[i - ranked.len()].0 <= others[m].0);
        }
        assert(top[ranked.len() + m] == full[ranked.len() + m]);
        assert(top[ranked.len() + m].0 == d);
    }
    if top.len() < k {
        assert(top == full);
        assert forall|d: int| 0 <= d < n implies #[trigger] lists_document(top, d) by {
            if lists_document(ranked, d) {
                let i = choose|i: int| 0 <= i < ranked.len() && (#[trigger] ranked[i]).0 == d;
                assert(top[i].0 == d);
            } else {
                let m = choose|m: int| 0 <= m < others.len() && (#[trigger] others[m]).0 == d;
                assert(top[ranked.len() + m].0 == d);
            }
        }
    }
}

/// A document is listed if it stands at some place.
pub proof fn listed_documents_stand_somewhere(items: Seq<(usize, u64)>, d: int, at: int)
    ensures
        0 <= at < items.len() && items[at].0 == d ==> lists_document(items, d),
        lists_document(items, d) ==> exists|i: int|
            0 <= i < items.len() && (#[trigger] items[i]).0 == d,
{
}

/// The places of the best scores: as many as asked for, or all if there are fewer, each once and
/// from the highest score to the lowest; and no score elsewhere is higher than one of them.
pub proof fn the_best_scores_are_selected(scores: Seq<u64>, k: nat, places: Seq<usize>)
    requires
        selects_best(scores, k, places),
    ensures
        places.len() == if k < scores.len() {
            k
        } else {
            scores.len()
        },
        forall|i: int, j: int|
            0 <= i < j < places.len() ==> #[trigger] places[i] != #[trigger] places[j],
        forall|i: int| 0 <= i < places.len() ==> #[trigger] places[i] < scores.len(),
        forall|i: int, j: int|
            0 <= i < j < places.len() ==> rank(scores[#[trigger] places[i] as int]) >= rank(
                scores[#[trigger] places[j] as int],
            ),
        forall|i: int, other: int|
            0 <= i < places.len() && 0 <= other < scores.len() && other <= usize::MAX && (forall|
                j: int,
            |
                0 <= j < places.len() ==> (#[trigger] places[j]) != other) ==> rank(
                scores[#[trigger] places[i] as int],
            ) >= rank(#[trigger] scores[other]),
{
    assert forall|i: int, other: int|
        0 <= i < places.len() && 0 <= other < scores.len() && other <= usize::MAX && (forall|
            j: int,
        |
            0 <= j < places.len() ==> (#[trigger] places[j]) != other) implies rank(
        scores[#[trigger] places[i] as int],
    ) >= rank(#[trigger] scores[other]) by {
        let place = other as usize;
        if places.contains(place) {
            assert(places[places.index_of(place)] == place);
        }
        assert(rank_at(scores, places[i]) >= rank_at(scores, place));
    }
    assert forall|i: int, j: int| 0 <= i < j < places.len() implies rank(
        scores[#[trigger] places[i] as int],
    ) >= rank(scores[#[trigger] places[j] as int]) by {
        assert(rank_at(scores, places[i]) >= rank_at(scores, places[j]));
    }
}

// ---------------------------------------------------------------------------------------------
// Chunks
// ---------------------------------------------------------------------------------------------

/// Chunks are as large as asked for, where zero means one: chunk number `at` starts at that many
/// times the size, and ends where the next one starts or where the documents end.
pub proof fn chunks_are_as_large_as_asked_for(total: usize, chunk_size: usize, at: int)
    requires
        0 <= at < chunk_count(total, chunk_size),
    ensures
        chunk_size == 0 ==> chunk_start(chunk_size, at) == at && chunk_end(total, chunk_size, at)
            == at + 1 && chunk_count(total, chunk_size) == total,
        chunk_size > 0 ==> chunk_start(chunk_size, at) == at * chunk_size,
        chunk_size > 0 && at * chunk_size + chunk_size <= total ==> chunk_end(
            total,
            chunk_size,
            at,
        ) == at * chunk_size + chunk_size,
        chunk_size > 0 && at * chunk_size + chunk_size > total ==> chunk_end(
            total,
            chunk_size,
            at,
        ) == total,
        chunk_start(chunk_size, at) < total,
{
    chunks_cover_all_documents(total, chunk_size);
    assert(chunk_start(chunk_size, at) < chunk_end(total, chunk_size, at));
    assert((at + 1) * chunk_size == at * chunk_size + chunk_size) by (nonlinear_arith);
    assert((at + 1) * 1 == at + 1 && at * 1 == at) by (nonlinear_arith);
}

/// Working on chunks joins what the processor returns for one chunk after the other, from the start
/// of the chunk to its end.
pub proof fn chunks_are_processed_in_order<V, F: Fn(usize, usize) -> Vec<V>>(
    total: usize,
    chunk_size: usize,
    processor: F,
    results: Seq<V>,
)
    requires
        processes_chunks(total, chunk_size, processor, results),
    ensures
        exists|lists: Seq<Vec<V>>|
            {
                &&& #[trigger] lists.len() == chunk_count(total, chunk_size)
                &&& forall|i: int|
                    0 <= i < lists.len() ==> call_ensures(
                        processor,
                        (
                            chunk_start(chunk_size, i) as usize,
                            chunk_end(total, chunk_size, i) as usize,
                        ),
                        #[trigger] lists[i],
                    )
                &&& results == lists.map_values(|list: Vec<V>| list@).flatten()
            },
        total == 0 ==> results.len() == 0,
{
    if total == 0 {
        chunks_cover_all_documents(total, chunk_size);
        let lists = choose|lists: Seq<Vec<V>>|
            {
                &&& #[trigger] lists.len() == chunk_count(total, chunk_size)
                &&& forall|i: int|
                    0 <= i < lists.len() ==> call_ensures(
                        processor,
                        (
                            chunk_start(chunk_size, i) as usize,
                            chunk_end(total, chunk_size, i) as usize,
                        ),
                        #[trigger] lists[i],
                    )
                &&& results == lists.map_values(|list: Vec<V>| list@).flatten()
            };
        assert(lists.map_values(|list: Vec<V>| list@).len() == 0);
    }
}

} // verus!
