//! Scoring: accumulation over the inverted index, scoring of single documents, and the best
//! documents.
use crate::collections::{
    counts_get, counts_of, ids_contains, ids_insert, ids_new, ids_of, interner_get, lists_entries,
    postings_get, terms_list_as_slice, terms_list_new, terms_list_push, texts, weights_entry,
    weights_get, weights_into_entries, weights_new, weights_of, Interner, Terms,
};
use crate::index::{doc_counts, IndexView};
use crate::model::symbol_of;
use crate::parallel::parallel_map;
use crate::ranking::{
    is_ranked, lemma_orderable_same, lemma_same_documents, orderable, rank_documents,
};
use crate::score::{Part, Scorer, ZERO};
use ahash::AHashMap;
use vstd::prelude::*;

verus! {

/// Query terms that the index knows, with their weights.
pub struct PreprocessedQuery {
    pub terms: Terms,
}

impl View for PreprocessedQuery {
    type V = Seq<(usize, u64)>;

    open spec fn view(&self) -> Seq<(usize, u64)> {
        self.terms@
    }
}

impl Clone for PreprocessedQuery {
    /// A query with the same terms.
    fn clone(&self) -> (copy: PreprocessedQuery)
        ensures
            copy@ == self@,
    {
        PreprocessedQuery { terms: self.terms.clone() }
    }
}

impl PreprocessedQuery {
    /// Tells whether the index knows no term of the query.
    pub fn is_empty(&self) -> (empty: bool)
        ensures
            empty == (self@.len() == 0),
    {
        terms_list_as_slice(&self.terms).is_empty()
    }

    /// The number of terms that the index knows.
    pub fn len(&self) -> (len: usize)
        ensures
            len == self@.len(),
    {
        terms_list_as_slice(&self.terms).len()
    }
}

/// The terms of a query that are interned and have a weight, in order.
pub open spec fn resolved(
    query: Seq<Seq<char>>,
    strings: Seq<Seq<char>>,
    weights: Map<usize, u64>,
) -> Seq<(usize, u64)>
    decreases query.len(),
{
    if query.len() == 0 {
        Seq::empty()
    } else {
        let before = resolved(query.drop_last(), strings, weights);
        let symbol = symbol_of(strings, query.last());
        if strings.contains(query.last()) && weights.contains_key(symbol) {
            before.push((symbol, weights[symbol]))
        } else {
            before
        }
    }
}

/// Looks up the terms of a query.
pub fn preprocess_query(query: &[String], interner: &Interner, idf: &AHashMap<usize, u64>) -> (
    preprocessed: PreprocessedQuery)
    ensures
        preprocessed@ == resolved(texts(query@), interner@, weights_of(*idf)),
{
    let ghost list = texts(query@);
    let mut terms = terms_list_new();
    assert(list.take(0) =~= Seq::empty());
    let mut i: usize = 0;
    while i < query.len()
        invariant
            list == texts(query@),
            i <= query@.len(),
            terms@ == resolved(list.take(i as int), interner@, weights_of(*idf)),
        decreases query@.len() - i,
    {
        proof {
            assert(list.take(i + 1).drop_last() =~= list.take(i as int));
            assert(list.take(i + 1).last() == query@[i as int]@);
        }
        if let Some(symbol) = interner_get(interner, query[i].as_str()) {
            proof {
                let term = query@[i as int]@;
                assert(interner@[interner@.index_of(term)] == term);
                assert(symbol == symbol_of(interner@, term));
            }
            if let Some(weight) = weights_get(idf, symbol) {
                terms_list_push(&mut terms, (symbol, weight));
            }
        }
        i += 1;
    }
    assert(list.take(i as int) =~= list);
    PreprocessedQuery { terms }
}

// ---------------------------------------------------------------------------------------------
// What goes into a score
// ---------------------------------------------------------------------------------------------

/// What a document holds of the terms: one part for every term that occurs in it.
pub open spec fn direct_parts(
    counts: Map<usize, u32>,
    dl: u32,
    terms: Seq<(usize, u64)>,
) -> Seq<Part>
    decreases terms.len(),
{
    if terms.len() == 0 {
        Seq::empty()
    } else {
        let before = direct_parts(counts, dl, terms.drop_last());
        let (symbol, weight) = terms.last();
        if counts.contains_key(symbol) {
            before.push((counts[symbol], dl, weight))
        } else {
            before
        }
    }
}

/// What a posting list holds of the document `d`.
pub open spec fn hits(list: Seq<(u32, u32)>, dl: u32, weight: u64, d: int) -> Seq<Part>
    decreases list.len(),
{
    if list.len() == 0 {
        Seq::empty()
    } else {
        let before = hits(list.drop_last(), dl, weight, d);
        if list.last().0 == d {
            before.push((list.last().1, dl, weight))
        } else {
            before
        }
    }
}

/// The posting list of a symbol, which is empty where there is none.
pub open spec fn list_of(postings: Map<usize, Seq<(u32, u32)>>, symbol: usize) -> Seq<(u32, u32)> {
    if postings.contains_key(symbol) {
        postings[symbol]
    } else {
        Seq::empty()
    }
}

/// What the posting lists of the terms hold of the document `d`.
pub open spec fn inverted_parts(
    postings: Map<usize, Seq<(u32, u32)>>,
    dl: u32,
    terms: Seq<(usize, u64)>,
    d: int,
) -> Seq<Part>
    decreases terms.len(),
{
    if terms.len() == 0 {
        Seq::empty()
    } else {
        let (symbol, weight) = terms.last();
        inverted_parts(postings, dl, terms.drop_last(), d) + hits(
            list_of(postings, symbol),
            dl,
            weight,
            d,
        )
    }
}

/// The posting lists of the terms name documents below `bound` only.
pub open spec fn within(
    postings: Map<usize, Seq<(u32, u32)>>,
    terms: Seq<(usize, u64)>,
    bound: int,
) -> bool {
    forall|i: int, j: int|
        #![trigger list_of(postings, terms[i].0)[j]]
        0 <= i < terms.len() && 0 <= j < list_of(postings, terms[i].0).len() ==> list_of(
            postings,
            terms[i].0,
        )[j].0 < bound
}

// ---------------------------------------------------------------------------------------------
// All documents
// ---------------------------------------------------------------------------------------------

/// Adds what one posting contributes to the score of its document.
fn accumulate_posting<T: Fn(u32, u32, u64) -> u64, A: Fn(u64, u64) -> u64>(
    scores: &mut Vec<u64>,
    doc_len: &[u32],
    postings: &[(u32, u32)],
    at: usize,
    idf: u64,
    scorer: &Scorer<T, A>,
    Ghost(start): Ghost<Seq<u64>>,
)
    requires
        scorer.total(),
        at < postings@.len(),
        postings@[at as int].0 < old(scores)@.len(),
        postings@[at as int].0 < doc_len@.len(),
        start.len() == old(scores)@.len(),
        forall|d: int|
            0 <= d < start.len() ==> scorer.accumulates(
                start[d],
                hits(postings@.take(at as int), doc_len@[d], idf, d),
                #[trigger] old(scores)@[d],
            ),
    ensures
        final(scores)@.len() == old(scores)@.len(),
        forall|d: int|
            0 <= d < start.len() ==> scorer.accumulates(
                start[d],
                hits(postings@.take(at + 1), doc_len@[d], idf, d),
                #[trigger] final(scores)@[d],
            ),
{
    let (doc_id, freq) = postings[at];
    let idx: usize = doc_id as usize;
    let ghost before = scores@;
    let score = scorer.add_part(scores[idx], (freq, doc_len[idx], idf));
    scores.set(idx, score);
    proof {
        let next = postings@.take(at + 1);
        assert(next.drop_last() =~= postings@.take(at as int));
        assert forall|d: int| 0 <= d < start.len() implies scorer.accumulates(
            start[d],
            hits(next, doc_len@[d], idf, d),
            #[trigger] scores@[d],
        ) by {
            let earlier = hits(postings@.take(at as int), doc_len@[d], idf, d);
            assert(scorer.accumulates(start[d], earlier, before[d]));
            if d == idx {
                scorer.lemma_accumulates_push(
                    start[d],
                    earlier,
                    before[d],
                    (freq, doc_len@[d], idf),
                    score,
                );
            }
        }
    }
}

/// Adds what a posting list contributes to the scores of its documents, four postings at a time.
fn accumulate_postings_simd<T: Fn(u32, u32, u64) -> u64, A: Fn(u64, u64) -> u64>(
    scores: &mut Vec<u64>,
    doc_len: &[u32],
    postings: &[(u32, u32)],
    idf: u64,
    scorer: &Scorer<T, A>,
)
    requires
        scorer.total(),
        forall|j: int|
            0 <= j < postings@.len() ==> (#[trigger] postings@[j]).0 < old(scores)@.len()
                && postings@[j].0 < doc_len@.len(),
    ensures
        final(scores)@.len() == old(scores)@.len(),
        forall|d: int|
            0 <= d < old(scores)@.len() ==> scorer.accumulates(
                old(scores)@[d],
                hits(postings@, doc_len@[d], idf, d),
                #[trigger] final(scores)@[d],
            ),
{
    let ghost start = scores@;
    let len: usize = postings.len();
    let mut i: usize = 0;
    proof {
        assert(postings@.take(0) =~= Seq::empty());
        assert forall|d: int| 0 <= d < start.len() implies scorer.accumulates(
            start[d],
            hits(postings@.take(0), doc_len@[d], idf, d),
            #[trigger] scores@[d],
        ) by {
            scorer.lemma_accumulates_none(start[d]);
        }
    }
    while len - i >= 4
        invariant
            scorer.total(),
            len == postings@.len(),
            i <= len,
            scores@.len() == start.len(),
            forall|j: int|
                0 <= j < postings@.len() ==> (#[trigger] postings@[j]).0 < start.len()
                    && postings@[j].0 < doc_len@.len(),
            forall|d: int|
                0 <= d < start.len() ==> scorer.accumulates(
                    start[d],
                    hits(postings@.take(i as int), doc_len@[d], idf, d),
                    #[trigger] scores@[d],
                ),
        decreases len - i,
    {
        let mut j: usize = 0;
        while j < 4
            invariant
                scorer.total(),
                len == postings@.len(),
                i + 4 <= len,
                j <= 4,
                scores@.len() == start.len(),
                forall|k: int|
                    0 <= k < postings@.len() ==> (#[trigger] postings@[k]).0 < start.len()
                        && postings@[k].0 < doc_len@.len(),
                forall|d: int|
                    0 <= d < start.len() ==> scorer.accumulates(
                        start[d],
                        hits(postings@.take(i + j), doc_len@[d], idf, d),
                        #[trigger] scores@[d],
                    ),
            decreases 4 - j,
        {
            accumulate_posting(scores, doc_len, postings, i + j, idf, scorer, Ghost(start));
            j += 1;
        }
        i += 4;
    }
    while i < len
        invariant
            scorer.total(),
            len == postings@.len(),
            i <= len,
            scores@.len() == start.len(),
            forall|j: int|
                0 <= j < postings@.len() ==> (#[trigger] postings@[j]).0 < start.len()
                    && postings@[j].0 < doc_len@.len(),
            forall|d: int|
                0 <= d < start.len() ==> scorer.accumulates(
                    start[d],
                    hits(postings@.take(i as int), doc_len@[d], idf, d),
                    #[trigger] scores@[d],
                ),
        decreases len - i,
    {
        accumulate_posting(scores, doc_len, postings, i, idf, scorer, Ghost(start));
        i += 1;
    }
    assert(postings@.take(i as int) =~= postings@);
}

/// `scores` are the scores of all documents of an index for the terms, from their posting lists.
pub open spec fn scores_inverted<T: Fn(u32, u32, u64) -> u64, A: Fn(u64, u64) -> u64>(
    index: IndexView<'_>,
    terms: Seq<(usize, u64)>,
    scorer: Scorer<T, A>,
    scores: Seq<u64>,
) -> bool {
    &&& scores.len() == index.corpus_size
    &&& forall|d: int|
        0 <= d < index.corpus_size ==> scorer.sums(
            inverted_parts(index.postings(), index.doc_len@[d], terms, d),
            #[trigger] scores[d],
        )
}

/// Scores all documents from the posting lists of the query terms.
pub fn score_all_inverted<T: Fn(u32, u32, u64) -> u64, A: Fn(u64, u64) -> u64>(
    index: &IndexView<'_>,
    query: &PreprocessedQuery,
    scorer: &Scorer<T, A>,
) -> (scores: Vec<u64>)
    requires
        scorer.total(),
        within(index.postings(), query@, index.corpus_size as int),
        within(index.postings(), query@, index.doc_len@.len() as int),
    ensures
        scores_inverted(*index, query@, *scorer, scores@),
{
    let mut scores: Vec<u64> = vec![ZERO; index.corpus_size];
    let terms = terms_list_as_slice(&query.terms);
    let ghost postings = index.postings();
    proof {
        assert(query@.take(0) =~= Seq::empty());
        scorer.lemma_accumulates_none(ZERO);
    }
    let mut i: usize = 0;
    while i < terms.len()
        invariant
            scorer.total(),
            terms@ == query@,
            postings == index.postings(),
            within(postings, query@, index.corpus_size as int),
            within(postings, query@, index.doc_len@.len() as int),
            i <= terms@.len(),
            scores@.len() == index.corpus_size,
            forall|d: int|
                0 <= d < index.corpus_size ==> scorer.sums(
                    inverted_parts(postings, index.doc_len@[d], query@.take(i as int), d),
                    #[trigger] scores@[d],
                ),
        decreases terms@.len() - i,
    {
        let (symbol, idf) = terms[i];
        let ghost before = scores@;
        let ghost list = list_of(postings, symbol);
        assert(query@[i as int] == (symbol, idf));
        if let Some(found) = postings_get(index.inverted, symbol) {
            assert(found@ == list);
            assert forall|j: int| 0 <= j < found@.len() implies (#[trigger] found@[j]).0
                < scores@.len() && found@[j].0 < index.doc_len@.len() by {
                assert(list_of(postings, query@[i as int].0)[j] == found@[j]);
            }
            accumulate_postings_simd(
                &mut scores,
                index.doc_len,
                found.as_slice(),
                idf,
                scorer,
            );
        } else {
            assert forall|d: int| 0 <= d < before.len() implies scorer.accumulates(
                before[d],
                hits(list, index.doc_len@[d], idf, d),
                #[trigger] scores@[d],
            ) by {
                scorer.lemma_accumulates_none(before[d]);
            }
        }
        proof {
            let next = query@.take(i + 1);
            assert(next.drop_last() =~= query@.take(i as int));
            assert forall|d: int| 0 <= d < index.corpus_size implies scorer.sums(
                inverted_parts(postings, index.doc_len@[d], next, d),
                #[trigger] scores@[d],
            ) by {
                let dl = index.doc_len@[d];
                assert(scorer.sums(
                    inverted_parts(postings, dl, query@.take(i as int), d),
                    before[d],
                ));
                scorer.lemma_accumulates_append(
                    ZERO,
                    inverted_parts(postings, dl, query@.take(i as int), d),
                    before[d],
                    hits(list, dl, idf, d),
                    scores@[d],
                );
            }
        }
        i += 1;
    }
    assert(query@.take(i as int) =~= query@);
    scores
}

// ---------------------------------------------------------------------------------------------
// Chosen documents
// ---------------------------------------------------------------------------------------------

/// Scores one document from the counts of its symbols.
pub(crate) fn score_document<T: Fn(u32, u32, u64) -> u64, A: Fn(u64, u64) -> u64>(
    doc_freq: &AHashMap<usize, u32>,
    dl: u32,
    terms: &[(usize, u64)],
    scorer: &Scorer<T, A>,
) -> (score: u64)
    requires
        scorer.total(),
    ensures
        scorer.sums(direct_parts(counts_of(*doc_freq), dl, terms@), score),
{
    let ghost counts = counts_of(*doc_freq);
    let mut score: u64 = ZERO;
    proof {
        assert(terms@.take(0) =~= Seq::empty());
        scorer.lemma_accumulates_none(ZERO);
    }
    let mut i: usize = 0;
    while i < terms.len()
        invariant
            scorer.total(),
            counts == counts_of(*doc_freq),
            i <= terms@.len(),
            scorer.sums(direct_parts(counts, dl, terms@.take(i as int)), score),
        decreases terms@.len() - i,
    {
        let (symbol, idf) = terms[i];
        let ghost before = score;
        proof {
            assert(terms@.take(i + 1).drop_last() =~= terms@.take(i as int));
            assert(terms@.take(i + 1).last() == (symbol, idf));
        }
        if let Some(freq) = counts_get(doc_freq, symbol) {
            score = scorer.add_part(score, (freq, dl, idf));
            proof {
                scorer.lemma_accumulates_push(
                    ZERO,
                    direct_parts(counts, dl, terms@.take(i as int)),
                    before,
                    (freq, dl, idf),
                    score,
                );
            }
        }
        i += 1;
    }
    assert(terms@.take(i as int) =~= terms@);
    score
}

/// Scores the chosen documents in parallel, each from the counts of its symbols.
pub fn score_documents_parallel<
    T: Fn(u32, u32, u64) -> u64 + Sync,
    A: Fn(u64, u64) -> u64 + Sync,
>(
    doc_ids: &[usize],
    doc_freqs: &[AHashMap<usize, u32>],
    doc_len: &[u32],
    query: &PreprocessedQuery,
    scorer: &Scorer<T, A>,
) -> (scores: Vec<u64>)
    requires
        scorer.total(),
        query@.len() > 0 ==> forall|i: int|
            0 <= i < doc_ids@.len() ==> (#[trigger] doc_ids@[i]) < doc_freqs@.len() && doc_ids@[i]
                < doc_len@.len(),
    ensures
        scores@.len() == doc_ids@.len(),
        forall|i: int|
            0 <= i < doc_ids@.len() ==> scorer.sums(
                direct_parts(
                    doc_counts(doc_freqs@)[doc_ids@[i] as int],
                    doc_len@[doc_ids@[i] as int],
                    query@,
                ),
                #[trigger] scores@[i],
            ),
{
    if query.is_empty() {
        proof {
            scorer.lemma_accumulates_none(ZERO);
        }
        return vec![ZERO; doc_ids.len()];
    }
    let terms = terms_list_as_slice(&query.terms);
    let score_one = |id: &usize| -> (score: u64)
        requires
            *id < doc_freqs@.len() && *id < doc_len@.len(),
        ensures
            scorer.sums(
                direct_parts(counts_of(doc_freqs@[*id as int]), doc_len@[*id as int], terms@),
                score,
            ),
        { score_document(&doc_freqs[*id], doc_len[*id], terms, scorer) };
    let scores = parallel_map(doc_ids, score_one);
    assert forall|i: int| 0 <= i < doc_ids@.len() implies scorer.sums(
        direct_parts(
            doc_counts(doc_freqs@)[doc_ids@[i] as int],
            doc_len@[doc_ids@[i] as int],
            query@,
        ),
        #[trigger] scores@[i],
    ) by {
        assert(call_ensures(score_one, (&doc_ids@[i],), scores@[i]));
    }
    scores
}

/// Scores all documents for several queries in parallel.
pub fn score_queries_batch<T: Fn(u32, u32, u64) -> u64 + Sync, A: Fn(u64, u64) -> u64 + Sync>(
    index: &IndexView<'_>,
    queries: &[PreprocessedQuery],
    scorer: &Scorer<T, A>,
) -> (scores: Vec<Vec<u64>>)
    requires
        scorer.total(),
        forall|q: int|
            0 <= q < queries@.len() ==> within(
                index.postings(),
                (#[trigger] queries@[q])@,
                index.corpus_size as int,
            ) && within(index.postings(), queries@[q]@, index.doc_len@.len() as int),
    ensures
        scores@.len() == queries@.len(),
        forall|q: int|
            0 <= q < queries@.len() ==> (#[trigger] scores@[q])@.len() == index.corpus_size,
        forall|q: int, d: int|
            0 <= q < queries@.len() && 0 <= d < index.corpus_size ==> scorer.sums(
                inverted_parts(index.postings(), index.doc_len@[d], queries@[q]@, d),
                #[trigger] scores@[q]@[d],
            ),
{
    let score_one = |query: &PreprocessedQuery| -> (scores: Vec<u64>)
        requires
            within(index.postings(), query@, index.corpus_size as int),
            within(index.postings(), query@, index.doc_len@.len() as int),
        ensures
            scores@.len() == index.corpus_size,
            forall|d: int|
                0 <= d < index.corpus_size ==> scorer.sums(
                    inverted_parts(index.postings(), index.doc_len@[d], query@, d),
                    #[trigger] scores@[d],
                ),
        { score_all_inverted(index, query, scorer) };
    let scores = parallel_map(queries, score_one);
    assert forall|q: int, d: int|
        0 <= q < queries@.len() && 0 <= d < index.corpus_size implies scorer.sums(
        inverted_parts(index.postings(), index.doc_len@[d], queries@[q]@, d),
        #[trigger] scores@[q]@[d],
    ) by {
        assert(call_ensures(score_one, (&queries@[q],), scores@[q]));
    }
    scores
}

// ---------------------------------------------------------------------------------------------
// The best documents
// ---------------------------------------------------------------------------------------------

/// What the posting lists of the terms hold of the document `d` of an index.
pub open spec fn parts_of(index: IndexView<'_>, terms: Seq<(usize, u64)>, d: int) -> Seq<Part> {
    inverted_parts(index.postings(), index.doc_len@[d], terms, d)
}

/// What the posting lists of the terms hold of every document of an index.
pub open spec fn all_parts(index: IndexView<'_>, terms: Seq<(usize, u64)>) -> spec_fn(
    int,
) -> Seq<Part> {
    |d: int| parts_of(index, terms, d)
}

/// `scores` holds a score for every document that has parts, and for no other.
pub open spec fn scores_candidates<T: Fn(u32, u32, u64) -> u64, A: Fn(u64, u64) -> u64>(
    parts: spec_fn(int) -> Seq<Part>,
    scorer: Scorer<T, A>,
    scores: Map<usize, u64>,
) -> bool {
    &&& forall|d: usize| #[trigger] scores.contains_key(d) <==> parts(d as int).len() > 0
    &&& forall|d: usize| #[trigger]
        scores.contains_key(d) ==> scorer.sums(parts(d as int), scores[d])
}

/// `ranked` lists the documents that have parts, each once, with their scores, and in order if
/// there is one.
pub open spec fn ranks_candidates<T: Fn(u32, u32, u64) -> u64, A: Fn(u64, u64) -> u64>(
    parts: spec_fn(int) -> Seq<Part>,
    scorer: Scorer<T, A>,
    ranked: Seq<(usize, u64)>,
) -> bool {
    &&& orderable(ranked) ==> is_ranked(ranked)
    &&& exists|scores: Map<usize, u64>| #[trigger]
        scores_candidates(parts, scorer, scores) && lists_entries(ranked, scores)
}

/// `top` are the first `k` documents when those that have parts come first, ranked by score, and
/// the others of `n` documents follow in order, with score zero.
pub open spec fn is_top<T: Fn(u32, u32, u64) -> u64, A: Fn(u64, u64) -> u64>(
    parts: spec_fn(int) -> Seq<Part>,
    scorer: Scorer<T, A>,
    n: nat,
    k: nat,
    top: Seq<(usize, u64)>,
) -> bool {
    exists|ranked: Seq<(usize, u64)>| #[trigger]
        ranks_candidates(parts, scorer, ranked) && top == first(ranked + unlisted(ranked, n), k)
}

/// The document is in the list.
pub open spec fn lists_document(ranked: Seq<(usize, u64)>, d: int) -> bool {
    exists|i: int| 0 <= i < ranked.len() && (#[trigger] ranked[i]).0 == d
}

/// The documents below `n` that are not in the list, in order and with score zero.
pub open spec fn unlisted(ranked: Seq<(usize, u64)>, n: nat) -> Seq<(usize, u64)>
    decreases n,
{
    if n == 0 {
        Seq::empty()
    } else {
        let before = unlisted(ranked, (n - 1) as nat);
        if lists_document(ranked, n - 1) {
            before
        } else {
            before.push(((n - 1) as usize, ZERO))
        }
    }
}

/// The first `k` items of a sequence, or all if it is shorter.
pub open spec fn first<V>(items: Seq<V>, k: nat) -> Seq<V> {
    if k < items.len() {
        items.take(k as int)
    } else {
        items
    }
}

proof fn lemma_unlisted_prefix(ranked: Seq<(usize, u64)>, m: nat, n: nat)
    requires
        m <= n,
    ensures
        unlisted(ranked, m).len() <= unlisted(ranked, n).len(),
        unlisted(ranked, n).take(unlisted(ranked, m).len() as int) == unlisted(ranked, m),
    decreases n - m,
{
    if m < n {
        lemma_unlisted_prefix(ranked, m, (n - 1) as nat);
        let len = unlisted(ranked, m).len() as int;
        assert(unlisted(ranked, n).take(len) =~= unlisted(ranked, (n - 1) as nat).take(len));
    } else {
        assert(unlisted(ranked, n).take(unlisted(ranked, n).len() as int) =~= unlisted(ranked, n));
    }
}

/// Follows ranked documents by the others, with score zero, until there are `k`.
pub fn fill_ranking(ranked: Vec<(usize, u64)>, corpus_size: usize, k: usize) -> (top: Vec<
    (usize, u64),
>)
    ensures
        top@ == first(ranked@ + unlisted(ranked@, corpus_size as nat), k as nat),
{
    let ghost list = ranked@;
    let mut results = ranked;
    assert(list + unlisted(list, 0) =~= list);
    if results.len() < k {
        let mut included = ids_new();
        let mut i: usize = 0;
        while i < results.len()
            invariant
                results@ == list,
                i <= results@.len(),
                forall|d: usize| #[trigger]
                    ids_of(included).contains(d) <==> lists_document(list.take(i as int), d as int),
            decreases results@.len() - i,
        {
            ids_insert(&mut included, results[i].0);
            proof {
                let next = list.take(i + 1);
                assert forall|d: usize| #[trigger]
                    lists_document(next, d as int) <==> lists_document(
                        list.take(i as int),
                        d as int,
                    ) || d == list[i as int].0 by {
                    if d == list[i as int].0 {
                        assert(next[i as int].0 == d);
                    }
                    if lists_document(list.take(i as int), d as int) {
                        let m = choose|m: int|
                            0 <= m < i && (#[trigger] list.take(i as int)[m]).0 == d;
                        assert(next[m].0 == d);
                    }
                    if lists_document(next, d as int) && d != list[i as int].0 {
                        let m = choose|m: int| 0 <= m < next.len() && (#[trigger] next[m]).0 == d;
                        assert(list.take(i as int)[m].0 == d);
                    }
                }
            }
            i += 1;
        }
        assert(list.take(i as int) =~= list);
        let mut doc_id: usize = 0;
        while doc_id < corpus_size && results.len() < k
            invariant
                doc_id <= corpus_size,
                results@ == list + unlisted(list, doc_id as nat),
                forall|d: usize| #[trigger]
                    ids_of(included).contains(d) <==> lists_document(list, d as int) || d < doc_id,
            decreases corpus_size - doc_id,
        {
            if !ids_contains(&included, doc_id) {
                results.push((doc_id, ZERO));
                ids_insert(&mut included, doc_id);
            }
            doc_id += 1;
            assert(results@ =~= list + unlisted(list, doc_id as nat));
        }
        proof {
            lemma_unlisted_prefix(list, doc_id as nat, corpus_size as nat);
            let all = list + unlisted(list, corpus_size as nat);
            assert(all.take(results@.len() as int) =~= results@) by {
                let shorter = unlisted(list, doc_id as nat);
                assert forall|m: int| 0 <= m < shorter.len() implies shorter[m] == unlisted(
                    list,
                    corpus_size as nat,
                )[m] by {
                    assert(unlisted(list, corpus_size as nat).take(shorter.len() as int)[m]
                        == shorter[m]);
                }
            }
        }
    }
    let ghost all = list + unlisted(list, corpus_size as nat);
    let ghost longer = results@;
    results.truncate(k);
    assert(results@ =~= first(all, k as nat)) by {
        assert(longer =~= all.take(longer.len() as int));
    }
    results
}

/// Adds up the scores of the documents that the posting lists of the query terms name.
fn score_candidates<T: Fn(u32, u32, u64) -> u64, A: Fn(u64, u64) -> u64>(
    index: &IndexView<'_>,
    query: &PreprocessedQuery,
    scorer: &Scorer<T, A>,
) -> (candidates: AHashMap<usize, u64>)
    requires
        scorer.total(),
        within(index.postings(), query@, index.doc_len@.len() as int),
    ensures
        scores_candidates(all_parts(*index, query@), *scorer, weights_of(candidates)),
{
    let mut candidates = weights_new();
    let terms = terms_list_as_slice(&query.terms);
    let ghost postings = index.postings();
    assert(query@.take(0) =~= Seq::empty());
    let mut i: usize = 0;
    while i < terms.len()
        invariant
            scorer.total(),
            terms@ == query@,
            postings == index.postings(),
            within(postings, query@, index.doc_len@.len() as int),
            i <= terms@.len(),
            scores_candidates(
                all_parts(*index, query@.take(i as int)),
                *scorer,
                weights_of(candidates),
            ),
        decreases terms@.len() - i,
    {
        let (symbol, idf) = terms[i];
        let ghost done = query@.take(i as int);
        let ghost next = query@.take(i + 1);
        assert(query@[i as int] == (symbol, idf));
        assert(next.drop_last() =~= done);
        if let Some(list) = postings_get(index.inverted, symbol) {
            assert(list@ == list_of(postings, symbol));
            assert(list@.take(0) =~= Seq::empty());
            assert forall|d: usize| #[trigger]
                seen(*index, done, list@.take(0), idf, d as int) == parts_of(
                    *index,
                    done,
                    d as int,
                ) by {
                assert(seen(*index, done, list@.take(0), idf, d as int) =~= parts_of(
                    *index,
                    done,
                    d as int,
                ));
            }
            let mut j: usize = 0;
            while j < list.len()
                invariant
                    scorer.total(),
                    i < query@.len(),
                    query@[i as int] == (symbol, idf),
                    list@ == list_of(postings, symbol),
                    within(postings, query@, index.doc_len@.len() as int),
                    j <= list@.len(),
                    forall|d: usize| #[trigger]
                        weights_of(candidates).contains_key(d) <==> seen(
                            *index,
                            done,
                            list@.take(j as int),
                            idf,
                            d as int,
                        ).len() > 0,
                    forall|d: usize| #[trigger]
                        weights_of(candidates).contains_key(d) ==> scorer.sums(
                            seen(*index, done, list@.take(j as int), idf, d as int),
                            weights_of(candidates)[d],
                        ),
                decreases list@.len() - j,
            {
                let (doc_id, freq) = list[j];
                let doc: usize = doc_id as usize;
                assert(list_of(postings, query@[i as int].0)[j as int].0 < index.doc_len@.len());
                let dl: u32 = index.doc_len[doc];
                let ghost before = weights_of(candidates);
                let ghost earlier = seen(*index, done, list@.take(j as int), idf, doc as int);
                let place = weights_entry(&mut candidates, doc, ZERO);
                let ghost start = *place;
                let score = scorer.add_part(*place, (freq, dl, idf));
                *place = score;
                proof {
                    assert(before.contains_key(doc) <==> earlier.len() > 0);
                    if !before.contains_key(doc) {
                        assert(earlier =~= Seq::empty());
                        scorer.lemma_accumulates_none(ZERO);
                    }
                    assert(scorer.sums(earlier, start));
                    scorer.lemma_accumulates_push(ZERO, earlier, start, (freq, dl, idf), score);
                    assert forall|d: usize| #[trigger]
                        seen(*index, done, list@.take(j + 1), idf, d as int) == if d == doc {
                            earlier.push((freq, dl, idf))
                        } else {
                            seen(*index, done, list@.take(j as int), idf, d as int)
                        } by {
                        lemma_seen_next(*index, done, list@, j as int, idf, d as int);
                    }
                }
                j += 1;
            }
            proof {
                assert(list@.take(j as int) =~= list@);
                assert forall|d: usize| #[trigger]
                    parts_of(*index, next, d as int) == seen(
                        *index,
                        done,
                        list@.take(j as int),
                        idf,
                        d as int,
                    ) by {}
                assert(scores_candidates(
                    all_parts(*index, next),
                    *scorer,
                    weights_of(candidates),
                ));
            }
        } else {
            assert forall|d: usize| #[trigger]
                parts_of(*index, next, d as int) == parts_of(*index, done, d as int) by {
                assert(parts_of(*index, next, d as int) =~= parts_of(*index, done, d as int));
            }
        }
        i += 1;
    }
    assert(query@.take(i as int) =~= query@);
    candidates
}

/// What has been seen of the document `d`: its parts for the terms that are done, and for the part
/// of a posting list.
spec fn seen(
    index: IndexView<'_>,
    done: Seq<(usize, u64)>,
    list: Seq<(u32, u32)>,
    weight: u64,
    d: int,
) -> Seq<Part> {
    parts_of(index, done, d) + hits(list, index.doc_len@[d], weight, d)
}

proof fn lemma_seen_next(
    index: IndexView<'_>,
    done: Seq<(usize, u64)>,
    list: Seq<(u32, u32)>,
    at: int,
    weight: u64,
    d: int,
)
    requires
        0 <= at < list.len(),
    ensures
        seen(index, done, list.take(at + 1), weight, d) == if list[at].0 == d {
            seen(index, done, list.take(at), weight, d).push(
                (list[at].1, index.doc_len@[d], weight),
            )
        } else {
            seen(index, done, list.take(at), weight, d)
        },
{
    assert(list.take(at + 1).drop_last() =~= list.take(at));
    assert(list.take(at + 1).last() == list[at]);
    if list[at].0 == d {
        assert(seen(index, done, list.take(at + 1), weight, d) =~= seen(
            index,
            done,
            list.take(at),
            weight,
            d,
        ).push((list[at].1, index.doc_len@[d], weight)));
    }
}

/// The `k` best documents: those that the posting lists of the query terms name, by score, and then
/// the others with score zero.
pub fn top_k_inverted<T: Fn(u32, u32, u64) -> u64, A: Fn(u64, u64) -> u64>(
    index: &IndexView<'_>,
    query: &PreprocessedQuery,
    scorer: &Scorer<T, A>,
    k: usize,
) -> (top: Vec<(usize, u64)>)
    requires
        scorer.total(),
        k > 0 ==> within(index.postings(), query@, index.doc_len@.len() as int),
    ensures
        k == 0 ==> top@.len() == 0,
        k > 0 ==> is_top(
            all_parts(*index, query@),
            *scorer,
            index.corpus_size as nat,
            k as nat,
            top@,
        ),
{
    if k == 0 {
        return Vec::new();
    }
    let candidates = score_candidates(index, query, scorer);
    let ghost scores = weights_of(candidates);
    let entries = weights_into_entries(candidates);
    let ghost before = entries@;
    let results = rank_documents(entries);
    proof {
        lemma_same_documents(before, results@, scores);
        lemma_orderable_same(before, results@);
        assert(ranks_candidates(all_parts(*index, query@), *scorer, results@));
    }
    fill_ranking(results, index.corpus_size, k)
}

} // verus!
