//! Selection of the best scores, and scoring in chunks.
use crate::collections::{counts_get, counts_of};
use crate::parallel::{joins_lists, parallel_flat_map, parallel_map};
use crate::ranking::{
    lemma_rearranged, parallel_sort_places, rank_at, select_best, sort_by_score,
};
use crate::score::{is_nan, rank, Scorer, ZERO};
use crate::scoring::{direct_parts, score_document};
use ahash::AHashMap;
use vstd::prelude::*;

verus! {

/// `places` are the places of the `k` highest of the scores, or of all if there are fewer, from the
/// highest score to the lowest.
pub open spec fn selects_best(scores: Seq<u64>, k: nat, places: Seq<usize>) -> bool {
    &&& places.len() == if k < scores.len() {
        k
    } else {
        scores.len()
    }
    &&& places.no_duplicates()
    &&& forall|i: int| 0 <= i < places.len() ==> #[trigger] places[i] < scores.len()
    &&& forall|i: int, j: int|
        0 <= i < j < places.len() ==> rank_at(scores, #[trigger] places[i]) >= rank_at(
            scores,
            #[trigger] places[j],
        )
    &&& forall|i: int, other: usize|
        0 <= i < places.len() && other < scores.len() && !#[trigger] places.contains(other)
            ==> rank_at(scores, #[trigger] places[i]) >= rank_at(scores, other)
}

/// The places of the `k` highest scores.
pub fn select_top_k_indices(scores: &[u64], k: usize) -> (places: Vec<usize>)
    requires
        scores@.len() > 1 ==> forall|i: int|
            0 <= i < scores@.len() ==> !is_nan(#[trigger] scores@[i]),
    ensures
        selects_best(scores@, k as nat, places@),
{
    if k >= scores.len() {
        let mut places: Vec<usize> = Vec::new();
        let mut i: usize = 0;
        while i < scores.len()
            invariant
                i <= scores@.len(),
                places@.len() == i,
                forall|m: int| 0 <= m < i ==> #[trigger] places@[m] == m,
            decreases scores@.len() - i,
        {
            places.push(i);
            i += 1;
        }
        let ghost before = places@;
        parallel_sort_places(&mut places, scores);
        proof {
            lemma_rearranged(before, places@);
            assert forall|m: int| 0 <= m < places@.len() implies #[trigger] places@[m]
                < scores@.len() by {
                assert(places@.contains(places@[m]));
                let n = before.index_of(places@[m]);
                assert(before[n] == places@[m]);
            }
            assert forall|other: usize| other < scores@.len() implies #[trigger] places@.contains(
                other,
            ) by {
                assert(before[other as int] == other);
            }
        }
        return places;
    }
    let mut items: Vec<(usize, u64)> = Vec::new();
    let mut i: usize = 0;
    while i < scores.len()
        invariant
            i <= scores@.len(),
            items@.len() == i,
            forall|m: int| 0 <= m < i ==> #[trigger] items@[m] == (m as usize, scores@[m]),
        decreases scores@.len() - i,
    {
        items.push((i, scores[i]));
        i += 1;
    }
    let ghost all = items@;
    select_best(&mut items, k);
    let ghost selected = items@;
    proof {
        lemma_rearranged(all, selected);
    }
    items.truncate(k);
    let ghost kept = items@;
    sort_by_score(&mut items);
    proof {
        lemma_rearranged(kept, items@);
    }
    let mut places: Vec<usize> = Vec::new();
    let mut m: usize = 0;
    while m < items.len()
        invariant
            m <= items@.len(),
            places@.len() == m,
            forall|n: int| 0 <= n < m ==> #[trigger] places@[n] == items@[n].0,
        decreases items@.len() - m,
    {
        places.push(items[m].0);
        m += 1;
    }
    proof {
        lemma_selected(scores@, k as int, all, selected, kept, items@, places@);
    }
    places
}

/// The places of the items that are kept and sorted are those of the best scores.
proof fn lemma_selected(
    scores: Seq<u64>,
    k: int,
    all: Seq<(usize, u64)>,
    selected: Seq<(usize, u64)>,
    kept: Seq<(usize, u64)>,
    items: Seq<(usize, u64)>,
    places: Seq<usize>,
)
    requires
        0 <= k < scores.len() <= usize::MAX,
        all.len() == scores.len(),
        forall|m: int| 0 <= m < all.len() ==> #[trigger] all[m] == (m as usize, scores[m]),
        selected.len() == all.len(),
        forall|x: (usize, u64)| #[trigger] selected.contains(x) <==> all.contains(x),
        all.no_duplicates() ==> selected.no_duplicates(),
        forall|i: int, j: int|
            0 <= i < k <= j < selected.len() ==> rank((#[trigger] selected[i]).1) >= rank(
                (#[trigger] selected[j]).1,
            ),
        kept == selected.take(k),
        items.len() == kept.len(),
        forall|x: (usize, u64)| #[trigger] items.contains(x) <==> kept.contains(x),
        kept.no_duplicates() ==> items.no_duplicates(),
        forall|i: int, j: int|
            0 <= i < j < items.len() ==> rank((#[trigger] items[i]).1) >= rank(
                (#[trigger] items[j]).1,
            ),
        places.len() == items.len(),
        forall|n: int| 0 <= n < places.len() ==> #[trigger] places[n] == items[n].0,
    ensures
        selects_best(scores, k as nat, places),
{
    assert(all.no_duplicates());
    assert(kept.no_duplicates());
    assert forall|x: (usize, u64)| #[trigger] kept.contains(x) implies x.0 < scores.len() && x.1
        == scores[x.0 as int] by {
        let n = kept.index_of(x);
        assert(selected[n] == x);
        assert(selected.contains(x));
        let m = all.index_of(x);
        assert(all[m] == x);
    }
    assert forall|n: int| 0 <= n < items.len() implies (#[trigger] items[n]).0 < scores.len()
        && items[n].1 == scores[items[n].0 as int] by {
        assert(items.contains(items[n]));
    }
    assert(places.no_duplicates()) by {
        assert forall|i: int, j: int|
            0 <= i < places.len() && 0 <= j < places.len() && i != j implies places[i]
            != places[j] by {
            if places[i] == places[j] {
                assert(items[i] == items[j]);
            }
        }
    }
    assert forall|i: int, other: usize|
        0 <= i < places.len() && other < scores.len() && !#[trigger] places.contains(
            other,
        ) implies rank_at(scores, #[trigger] places[i]) >= rank_at(scores, other) by {
        let x = (other, scores[other as int]);
        assert(all[other as int] == x);
        assert(selected.contains(x));
        let n = selected.index_of(x);
        if n < k {
            assert(kept[n] == x);
            assert(kept.contains(x));
            assert(items.contains(x));
            let p = items.index_of(x);
            assert(places[p] == other);
        }
        assert(items.contains(items[i]));
        let q = kept.index_of(items[i]);
        assert(selected[q] == items[i]);
    }
}

// ---------------------------------------------------------------------------------------------
// Chunks
// ---------------------------------------------------------------------------------------------

/// The size of the chunks, which is at least one.
pub open spec fn chunk_step(chunk_size: usize) -> int {
    if chunk_size == 0 {
        1
    } else {
        chunk_size as int
    }
}

/// The number of chunks into which `total` documents are cut.
pub open spec fn chunk_count(total: usize, chunk_size: usize) -> int {
    (total + chunk_step(chunk_size) - 1) / chunk_step(chunk_size)
}

/// The first document of a chunk.
pub open spec fn chunk_start(chunk_size: usize, at: int) -> int {
    at * chunk_step(chunk_size)
}

/// The end of a chunk: the start of the next one, or the number of documents.
pub open spec fn chunk_end(total: usize, chunk_size: usize, at: int) -> int {
    if chunk_start(chunk_size, at + 1) < total {
        chunk_start(chunk_size, at + 1)
    } else {
        total as int
    }
}

/// The chunks follow each other without a gap, from the first document to the last, and none is
/// empty.
pub proof fn chunks_cover_all_documents(total: usize, chunk_size: usize)
    ensures
        chunk_start(chunk_size, 0) == 0,
        total == 0 <==> chunk_count(total, chunk_size) == 0,
        total > 0 ==> chunk_end(total, chunk_size, chunk_count(total, chunk_size) - 1) == total,
        forall|at: int|
            0 <= at < chunk_count(total, chunk_size) - 1 ==> #[trigger] chunk_end(
                total,
                chunk_size,
                at,
            ) == chunk_start(chunk_size, at + 1),
        forall|at: int|
            0 <= at < chunk_count(total, chunk_size) ==> #[trigger] chunk_start(chunk_size, at)
                < chunk_end(total, chunk_size, at) <= chunk_start(chunk_size, at) + chunk_step(
                chunk_size,
            ),
{
    let step = chunk_step(chunk_size);
    let count = chunk_count(total, chunk_size);
    assert(0 * step == 0) by (nonlinear_arith);
    assert(total == 0 ==> (total + step - 1) / step == 0) by (nonlinear_arith)
        requires
            step >= 1,
    ;
    assert((count - 1) * step < total <= count * step || (total == 0 && count == 0)) by (
    nonlinear_arith)
        requires
            step >= 1,
            count == (total + step - 1) / step,
    ;
    assert forall|at: int| 0 <= at < count implies #[trigger] chunk_start(chunk_size, at) < total
        && chunk_start(chunk_size, at + 1) == chunk_start(chunk_size, at) + step by {
        assert(at * step <= (count - 1) * step) by (nonlinear_arith)
            requires
                0 <= at <= count - 1,
                step >= 1,
        ;
        assert((at + 1) * step == at * step + step) by (nonlinear_arith);
    }
    assert forall|at: int| 0 <= at < count - 1 implies #[trigger] chunk_end(total, chunk_size, at)
        == chunk_start(chunk_size, at + 1) by {
        assert(chunk_start(chunk_size, at + 1) < total);
    }
}

/// The first documents of the chunks.
fn chunk_starts(total: usize, chunk_size: usize) -> (starts: Vec<usize>)
    ensures
        starts@.len() == chunk_count(total, chunk_size),
        forall|i: int|
            0 <= i < starts@.len() ==> #[trigger] starts@[i] == chunk_start(chunk_size, i),
{
    let step: usize = if chunk_size == 0 {
        1
    } else {
        chunk_size
    };
    let mut starts: Vec<usize> = Vec::new();
    let mut next: usize = 0;
    proof {
        chunks_cover_all_documents(total, chunk_size);
    }
    if total == 0 {
        return starts;
    }
    loop
        invariant
            step == chunk_step(chunk_size),
            next < total,
            next == chunk_start(chunk_size, starts@.len() as int),
            starts@.len() < chunk_count(total, chunk_size),
            forall|i: int|
                0 <= i < starts@.len() ==> #[trigger] starts@[i] == chunk_start(chunk_size, i),
        decreases total - next,
    {
        let ghost at = starts@.len() as int;
        starts.push(next);
        proof {
            chunks_cover_all_documents(total, chunk_size);
            assert((at + 1) * step == at * step + step) by (nonlinear_arith);
            assert(chunk_start(chunk_size, at) < chunk_end(total, chunk_size, at));
        }
        if total - next <= step {
            proof {
                if at + 1 < chunk_count(total, chunk_size) {
                    assert(chunk_start(chunk_size, at + 1) < chunk_end(total, chunk_size, at + 1));
                }
            }
            return starts;
        }
        next += step;
        proof {
            if at + 1 >= chunk_count(total, chunk_size) {
                assert(chunk_end(total, chunk_size, at) == total);
            }
        }
    }
}

/// The end of the chunk that starts at `start`.
fn end_of_chunk(start: usize, total: usize, chunk_size: usize) -> (end: usize)
    requires
        start < total,
    ensures
        end == if start + chunk_step(chunk_size) < total {
            start + chunk_step(chunk_size)
        } else {
            total as int
        },
{
    let step: usize = if chunk_size == 0 {
        1
    } else {
        chunk_size
    };
    if step < total - start {
        start + step
    } else {
        total
    }
}

/// The results of `scorer` for the documents from `start` to `end`.
fn score_range<V, F: Fn(usize) -> V>(start: usize, end: usize, scorer: &F) -> (scores: Vec<V>)
    requires
        start <= end,
        forall|d: usize| start <= d < end ==> call_requires(*scorer, (d,)),
    ensures
        scores@.len() == end - start,
        forall|i: int|
            0 <= i < scores@.len() ==> call_ensures(
                *scorer,
                ((start + i) as usize,),
                #[trigger] scores@[i],
            ),
{
    let mut scores: Vec<V> = Vec::new();
    let mut d: usize = start;
    while d < end
        invariant
            start <= d <= end,
            forall|e: usize| start <= e < end ==> call_requires(*scorer, (e,)),
            scores@.len() == d - start,
            forall|i: int|
                0 <= i < scores@.len() ==> call_ensures(
                    *scorer,
                    ((start + i) as usize,),
                    #[trigger] scores@[i],
                ),
        decreases end - d,
    {
        scores.push(scorer(d));
        d += 1;
    }
    scores
}

/// Scores every document, in chunks that are worked on in parallel.
pub fn score_documents_flat<V: Send, F: Fn(usize) -> V + Sync>(
    corpus_size: usize,
    chunk_size: usize,
    scorer: F,
) -> (scores: Vec<V>)
    requires
        forall|d: usize| d < corpus_size ==> call_requires(scorer, (d,)),
    ensures
        scores@.len() == corpus_size,
        forall|d: int|
            0 <= d < corpus_size ==> call_ensures(scorer, (d as usize,), #[trigger] scores@[d]),
{
    let starts = chunk_starts(corpus_size, chunk_size);
    proof {
        chunks_cover_all_documents(corpus_size, chunk_size);
        assert forall|i: int| 0 <= i < starts@.len() implies #[trigger] starts@[i]
            < corpus_size by {
            assert(chunk_start(chunk_size, i) < chunk_end(corpus_size, chunk_size, i));
        }
    }
    let shared = &scorer;
    let score_chunk = |start: &usize| -> (scores: Vec<V>)
        requires
            *start < corpus_size,
            forall|d: usize| d < corpus_size ==> call_requires(*shared, (d,)),
        ensures
            scores@.len() == (if *start + chunk_step(chunk_size) < corpus_size {
                chunk_step(chunk_size)
            } else {
                corpus_size - *start
            }),
            forall|i: int|
                0 <= i < scores@.len() ==> call_ensures(
                    *shared,
                    ((*start + i) as usize,),
                    #[trigger] scores@[i],
                ),
        { score_range(*start, end_of_chunk(*start, corpus_size, chunk_size), shared) };
    let chunks = parallel_map(starts.as_slice(), score_chunk);
    let ghost lists = chunks@;
    assert forall|i: int| 0 <= i < lists.len() implies {
        &&& (#[trigger] lists[i])@.len() == chunk_end(corpus_size, chunk_size, i) - chunk_start(
            chunk_size,
            i,
        )
        &&& forall|m: int|
            0 <= m < lists[i]@.len() ==> call_ensures(
                scorer,
                ((chunk_start(chunk_size, i) + m) as usize,),
                #[trigger] lists[i]@[m],
            )
    } by {
        let step = chunk_step(chunk_size);
        assert(call_ensures(score_chunk, (&starts@[i],), lists[i]));
        assert(starts@[i] == chunk_start(chunk_size, i));
        assert((i + 1) * step == i * step + step) by (nonlinear_arith);
    }
    let mut scores: Vec<V> = Vec::new();
    for chunk in it: chunks
        invariant
            it.seq() == lists,
            lists.len() == chunk_count(corpus_size, chunk_size),
            forall|i: int|
                0 <= i < lists.len() ==> (#[trigger] lists[i])@.len() == chunk_end(
                    corpus_size,
                    chunk_size,
                    i,
                ) - chunk_start(chunk_size, i) && forall|m: int|
                    0 <= m < lists[i]@.len() ==> call_ensures(
                        scorer,
                        ((chunk_start(chunk_size, i) + m) as usize,),
                        #[trigger] lists[i]@[m],
                    ),
            scores@.len() == if it.index() == 0 {
                0
            } else {
                chunk_end(corpus_size, chunk_size, it.index() - 1)
            },
            forall|d: int|
                0 <= d < scores@.len() ==> call_ensures(
                    scorer,
                    (d as usize,),
                    #[trigger] scores@[d],
                ),
    {
        let ghost at = it.index() as int;
        let ghost before = scores@;
        let mut chunk = chunk;
        let ghost list = chunk@;
        proof {
            chunks_cover_all_documents(corpus_size, chunk_size);
            assert(chunk == lists[at]);
            if at > 0 {
                assert(chunk_end(corpus_size, chunk_size, at - 1) == chunk_start(
                    chunk_size,
                    (at - 1) + 1,
                ));
            }
            assert(before.len() == chunk_start(chunk_size, at));
        }
        scores.append(&mut chunk);
        assert forall|d: int| 0 <= d < scores@.len() implies call_ensures(
            scorer,
            (d as usize,),
            #[trigger] scores@[d],
        ) by {
            if d < before.len() {
                assert(scores@[d] == before[d]);
            } else {
                let m = d - before.len();
                assert(scores@[d] == lists[at]@[m]);
            }
        }
    }
    proof {
        chunks_cover_all_documents(corpus_size, chunk_size);
    }
    scores
}

/// `results` is made of the lists that `processor` may return for the chunks, in order.
pub open spec fn processes_chunks<V, F: Fn(usize, usize) -> Vec<V>>(
    total: usize,
    chunk_size: usize,
    processor: F,
    results: Seq<V>,
) -> bool {
    exists|lists: Seq<Vec<V>>|
        {
            &&& #[trigger] lists.len() == chunk_count(total, chunk_size)
            &&& forall|i: int|
                0 <= i < lists.len() ==> call_ensures(
                    processor,
                    (
                        chunk_start(chunk_size, i) as usize,
                        chunk_end(total, chunk_size, i) as usize,
                    ),
                    #[trigger] lists[i],
                )
            &&& results == lists.map_values(|list: Vec<V>| list@).flatten()
        }
}

/// Hands the documents to `processor` in chunks that are worked on in parallel.
pub fn process_documents_in_chunks<V: Send, F: Fn(usize, usize) -> Vec<V> + Send + Sync>(
    total_docs: usize,
    chunk_size: usize,
    processor: F,
) -> (results: Vec<V>)
    requires
        forall|start: usize, end: usize|
            start < end <= total_docs ==> #[trigger] call_requires(processor, (start, end)),
    ensures
        processes_chunks(total_docs, chunk_size, processor, results@),
{
    let starts = chunk_starts(total_docs, chunk_size);
    proof {
        chunks_cover_all_documents(total_docs, chunk_size);
        assert forall|i: int| 0 <= i < starts@.len() implies #[trigger] starts@[i]
            < total_docs by {
            assert(chunk_start(chunk_size, i) < chunk_end(total_docs, chunk_size, i));
        }
    }
    let shared = &processor;
    let process_chunk = |start: &usize| -> (list: Vec<V>)
        requires
            *start < total_docs,
            forall|from: usize, to: usize|
                from < to <= total_docs ==> #[trigger] call_requires(*shared, (from, to)),
        ensures
            call_ensures(
                *shared,
                (
                    *start,
                    (if *start + chunk_step(chunk_size) < total_docs {
                        *start + chunk_step(chunk_size)
                    } else {
                        total_docs as int
                    }) as usize,
                ),
                list,
            ),
        { shared(*start, end_of_chunk(*start, total_docs, chunk_size)) };
    let results = parallel_flat_map(starts.as_slice(), process_chunk);
    proof {
        assert(joins_lists(starts@, process_chunk, results@));
        let lists = choose|lists: Seq<Vec<V>>|
            {
                &&& #[trigger] lists.len() == starts@.len()
                &&& forall|i: int|
                    0 <= i < starts@.len() ==> call_ensures(
                        process_chunk,
                        (&starts@[i],),
                        #[trigger] lists[i],
                    )
                &&& results@ == lists.map_values(|list: Vec<V>| list@).flatten()
            };
        assert forall|i: int| 0 <= i < lists.len() implies call_ensures(
            processor,
            (chunk_start(chunk_size, i) as usize, chunk_end(total_docs, chunk_size, i) as usize),
            #[trigger] lists[i],
        ) by {
            let step = chunk_step(chunk_size);
            assert(call_ensures(process_chunk, (&starts@[i],), lists[i]));
            assert(starts@[i] == chunk_start(chunk_size, i));
            assert((i + 1) * step == i * step + step) by (nonlinear_arith);
        }
        assert(lists.len() == chunk_count(total_docs, chunk_size));
    }
    results
}

/// `score` is a score of one document: for a single term its contribution, or zero if it does not
/// occur, and else the sum of the contributions.
pub open spec fn scores_single<T: Fn(u32, u32, u64) -> u64, A: Fn(u64, u64) -> u64>(
    scorer: Scorer<T, A>,
    counts: Map<usize, u32>,
    dl: u32,
    terms: Seq<(usize, u64)>,
    score: u64,
) -> bool {
    if terms.len() != 1 {
        scorer.sums(direct_parts(counts, dl, terms), score)
    } else if counts.contains_key(terms[0].0) {
        call_ensures(scorer.term, (counts[terms[0].0], dl, terms[0].1), score)
    } else {
        score == ZERO
    }
}

/// Scores one document. A single query term gives its contribution as it is; of several terms the
/// contributions are added up from zero.
pub fn compute_bm25_score_vectorized<T: Fn(u32, u32, u64) -> u64, A: Fn(u64, u64) -> u64>(
    query_terms: &[(usize, u64)],
    doc_freq: &AHashMap<usize, u32>,
    dl: u32,
    scorer: &Scorer<T, A>,
) -> (score: u64)
    requires
        scorer.total(),
    ensures
        scores_single(*scorer, counts_of(*doc_freq), dl, query_terms@, score),
{
    if query_terms.len() == 1 {
        let (symbol, idf) = query_terms[0];
        if let Some(freq) = counts_get(doc_freq, symbol) {
            (scorer.term)(freq, dl, idf)
        } else {
            ZERO
        }
    } else {
        score_document(doc_freq, dl, query_terms, scorer)
    }
}

} // verus!
