//! What holds of the library as a whole.
use crate::bm25okapi::{BM25Okapi, DEFAULT_TOP};
use crate::collections::{lists_entries, MAX_SYMBOLS};
use crate::idf::{floored, weighs};
use crate::index::{representable, BuiltIndex, IndexView};
use crate::interning::{interned, lemma_interned_contains, mentions, new_terms};
use crate::model::{
    document_frequencies, documents_with, encoded, held, histogram, holders, inverted_index,
    lemma_holders, lemma_occurrences, occurrences, posting_list, symbol_of, times,
};
use crate::optimizations::selects_best;
use crate::ranking::{
    distinct_documents, is_ranked, lemma_numbers_orderable, lemma_orderable_same, orderable,
    rank_at, ranked_before,
};
use crate::score::{is_nan, is_negative, rank, Part, Scorer, ZERO};
use crate::scoring::{
    all_parts, direct_parts, first, hits, inverted_parts, is_top, list_of, lists_document,
    ranks_candidates, resolved, scores_candidates, unlisted, within,
};
use crate::text::{ascii_lower, split_words, unicode_lower, white_space};
use crate::tokenization::{document_tokens, words};
use vstd::prelude::*;
use vstd::utf8::is_ascii_chars;

verus! {

// ---------------------------------------------------------------------------------------------
// The two ways of scoring
// ---------------------------------------------------------------------------------------------

/// A posting list names a document once if the symbol occurs in it, and else not at all.
pub proof fn posting_list_names_holders_once(
    docs: Seq<Map<usize, u32>>,
    symbol: usize,
    dl: u32,
    weight: u64,
    d: int,
)
    requires
        docs.len() <= u32::MAX,
    ensures
        hits(posting_list(docs, symbol), dl, weight, d) == if 0 <= d < docs.len()
            && docs[d].contains_key(symbol) {
            seq![(docs[d][symbol], dl, weight)]
        } else {
            Seq::empty()
        },
    decreases docs.len(),
{
    if docs.len() > 0 {
        let before = docs.drop_last();
        let at = docs.len() - 1;
        posting_list_names_holders_once(before, symbol, dl, weight, d);
        if docs.last().contains_key(symbol) {
            let list = posting_list(docs, symbol);
            assert(list.drop_last() =~= posting_list(before, symbol));
            assert(list.last() == (at as u32, docs.last()[symbol]));
        }
        if d == at {
            assert(hits(posting_list(docs, symbol), dl, weight, d) =~= if docs[d].contains_key(
                symbol,
            ) {
                seq![(docs[d][symbol], dl, weight)]
            } else {
                Seq::empty()
            });
        }
    }
}

/// The posting list of a symbol that occurs nowhere is empty.
proof fn lemma_list_of(docs: Seq<Map<usize, u32>>, symbol: usize)
    ensures
        list_of(inverted_index(docs), symbol) == posting_list(docs, symbol),
{
    lemma_holders(docs, symbol);
    if !held(docs, symbol) {
        assert(posting_list(docs, symbol) =~= Seq::empty());
    }
}

/// What the posting lists hold of a document is what the counts of the document hold, term by term
/// and in the same order. Of anything that is not a document they hold nothing.
pub proof fn inverted_parts_match_documents(
    docs: Seq<Map<usize, u32>>,
    dl: u32,
    terms: Seq<(usize, u64)>,
    d: int,
)
    requires
        docs.len() <= u32::MAX,
    ensures
        inverted_parts(inverted_index(docs), dl, terms, d) == if 0 <= d < docs.len() {
            direct_parts(docs[d], dl, terms)
        } else {
            Seq::empty()
        },
    decreases terms.len(),
{
    if terms.len() > 0 {
        let (symbol, weight) = terms.last();
        inverted_parts_match_documents(docs, dl, terms.drop_last(), d);
        lemma_list_of(docs, symbol);
        posting_list_names_holders_once(docs, symbol, dl, weight, d);
        assert(inverted_parts(inverted_index(docs), dl, terms, d) =~= if 0 <= d < docs.len() {
            direct_parts(docs[d], dl, terms)
        } else {
            Seq::empty()
        });
    }
}

/// The posting lists name documents only.
pub proof fn posting_lists_name_documents(
    docs: Seq<Map<usize, u32>>,
    terms: Seq<(usize, u64)>,
)
    requires
        docs.len() <= u32::MAX,
    ensures
        within(inverted_index(docs), terms, docs.len() as int),
{
    assert forall|i: int, j: int|
        #![trigger list_of(inverted_index(docs), terms[i].0)[j]]
        0 <= i < terms.len() && 0 <= j < list_of(
            inverted_index(docs),
            terms[i].0,
        ).len() implies list_of(inverted_index(docs), terms[i].0)[j].0 < docs.len() by {
        lemma_list_of(docs, terms[i].0);
        lemma_posting_ids(docs, terms[i].0, j);
    }
}

proof fn lemma_posting_ids(docs: Seq<Map<usize, u32>>, symbol: usize, j: int)
    requires
        docs.len() <= u32::MAX,
        0 <= j < posting_list(docs, symbol).len(),
    ensures
        posting_list(docs, symbol)[j].0 < docs.len(),
    decreases docs.len(),
{
    if j < posting_list(docs.drop_last(), symbol).len() {
        lemma_posting_ids(docs.drop_last(), symbol, j);
    }
}

/// An index that was built of a corpus is consistent.
pub proof fn built_index_is_consistent(
    built: BuiltIndex,
    corpus: Seq<Seq<Seq<char>>>,
    strings: Seq<Seq<char>>,
    index: IndexView<'_>,
)
    requires
        built.describes(corpus, strings),
        corpus.len() <= u32::MAX,
        index.doc_freqs@ == built.doc_freqs@,
        index.doc_len@ == built.doc_len@,
        *index.inverted == built.inverted,
        index.corpus_size == built.corpus_size,
    ensures
        index.consistent(),
{
    assert(index.docs().len() == corpus.len());
}

/// Scoring over the inverted index and scoring of single documents give the same scores.
pub proof fn inverted_scores_match_direct_scores<
    T: Fn(u32, u32, u64) -> u64,
    A: Fn(u64, u64) -> u64,
>(
    index: IndexView<'_>,
    terms: Seq<(usize, u64)>,
    scorer: Scorer<T, A>,
    inverted_scores: Seq<u64>,
    doc_ids: Seq<usize>,
    direct_scores: Seq<u64>,
)
    requires
        index.consistent(),
        scorer.deterministic(),
        inverted_scores.len() == index.corpus_size,
        forall|d: int|
            0 <= d < index.corpus_size ==> scorer.sums(
                inverted_parts(index.postings(), index.doc_len@[d], terms, d),
                #[trigger] inverted_scores[d],
            ),
        direct_scores.len() == doc_ids.len(),
        forall|i: int|
            0 <= i < doc_ids.len() ==> scorer.sums(
                direct_parts(
                    index.docs()[doc_ids[i] as int],
                    index.doc_len@[doc_ids[i] as int],
                    terms,
                ),
                #[trigger] direct_scores[i],
            ),
        forall|i: int| 0 <= i < doc_ids.len() ==> #[trigger] doc_ids[i] < index.corpus_size,
    ensures
        forall|i: int|
            0 <= i < doc_ids.len() ==> #[trigger] direct_scores[i]
                == inverted_scores[doc_ids[i] as int],
{
    assert forall|i: int| 0 <= i < doc_ids.len() implies #[trigger] direct_scores[i]
        == inverted_scores[doc_ids[i] as int] by {
        let d = doc_ids[i] as int;
        assert(doc_ids[i] < index.corpus_size);
        inverted_parts_match_documents(index.docs(), index.doc_len@[d], terms, d);
        assert(scorer.sums(
            inverted_parts(index.postings(), index.doc_len@[d], terms, d),
            inverted_scores[d],
        ));
        scorer.lemma_accumulates_unique(
            ZERO,
            direct_parts(index.docs()[d], index.doc_len@[d], terms),
            direct_scores[i],
            inverted_scores[d],
        );
    }
}

/// Two lists of scores of the same documents for the same terms are equal, whichever way they were
/// obtained.
pub proof fn scores_are_determined<T: Fn(u32, u32, u64) -> u64, A: Fn(u64, u64) -> u64>(
    parts: spec_fn(int) -> Seq<Part>,
    scorer: Scorer<T, A>,
    x: Seq<u64>,
    y: Seq<u64>,
)
    requires
        scorer.deterministic(),
        x.len() == y.len(),
        forall|d: int| 0 <= d < x.len() ==> scorer.sums(parts(d), #[trigger] x[d]),
        forall|d: int| 0 <= d < y.len() ==> scorer.sums(parts(d), #[trigger] y[d]),
    ensures
        x == y,
{
    assert forall|d: int| 0 <= d < x.len() implies x[d] == y[d] by {
        scorer.lemma_accumulates_unique(ZERO, parts(d), x[d], y[d]);
    }
}

/// A document that holds none of the terms has score zero.
pub proof fn score_without_matches_is_zero<T: Fn(u32, u32, u64) -> u64, A: Fn(u64, u64) -> u64>(
    counts: Map<usize, u32>,
    dl: u32,
    terms: Seq<(usize, u64)>,
    scorer: Scorer<T, A>,
    score: u64,
)
    requires
        forall|i: int| 0 <= i < terms.len() ==> !counts.contains_key((#[trigger] terms[i]).0),
        scorer.sums(direct_parts(counts, dl, terms), score),
    ensures
        score == ZERO,
{
    lemma_no_direct_parts(counts, dl, terms);
}

proof fn lemma_no_direct_parts(counts: Map<usize, u32>, dl: u32, terms: Seq<(usize, u64)>)
    requires
        forall|i: int| 0 <= i < terms.len() ==> !counts.contains_key((#[trigger] terms[i]).0),
    ensures
        direct_parts(counts, dl, terms).len() == 0,
    decreases terms.len(),
{
    if terms.len() > 0 {
        let before = terms.drop_last();
        assert forall|i: int| 0 <= i < before.len() implies !counts.contains_key(
            (#[trigger] before[i]).0,
        ) by {
            assert(before[i] == terms[i]);
        }
        lemma_no_direct_parts(counts, dl, before);
    }
}

// ---------------------------------------------------------------------------------------------
// Queries
// ---------------------------------------------------------------------------------------------

/// The terms of a query are looked up one by one: a query in two halves gives what the halves give.
pub proof fn query_terms_are_independent(
    x: Seq<Seq<char>>,
    y: Seq<Seq<char>>,
    strings: Seq<Seq<char>>,
    weights: Map<usize, u64>,
)
    ensures
        resolved(x + y, strings, weights) == resolved(x, strings, weights) + resolved(
            y,
            strings,
            weights,
        ),
    decreases y.len(),
{
    let both = resolved(x, strings, weights) + resolved(y, strings, weights);
    if y.len() == 0 {
        assert(x + y =~= x);
        assert(both =~= resolved(x, strings, weights));
    } else {
        query_terms_are_independent(x, y.drop_last(), strings, weights);
        assert((x + y).drop_last() =~= x + y.drop_last());
        assert(resolved(x + y, strings, weights) =~= both);
    }
}

/// A term that is not interned makes no difference to a query.
pub proof fn unknown_terms_are_ignored(
    x: Seq<Seq<char>>,
    term: Seq<char>,
    y: Seq<Seq<char>>,
    strings: Seq<Seq<char>>,
    weights: Map<usize, u64>,
)
    requires
        !strings.contains(term),
    ensures
        resolved(x.push(term) + y, strings, weights) == resolved(x + y, strings, weights),
{
    query_terms_are_independent(x.push(term), y, strings, weights);
    query_terms_are_independent(x, y, strings, weights);
    assert(x.push(term).drop_last() =~= x);
}

/// What a document holds of the terms of two queries together is what it holds of the first,
/// followed by what it holds of the second.
pub proof fn joined_query_has_parts_of_both(
    counts: Map<usize, u32>,
    dl: u32,
    x: Seq<(usize, u64)>,
    y: Seq<(usize, u64)>,
)
    ensures
        direct_parts(counts, dl, x + y) == direct_parts(counts, dl, x) + direct_parts(
            counts,
            dl,
            y,
        ),
    decreases y.len(),
{
    let both = direct_parts(counts, dl, x) + direct_parts(counts, dl, y);
    if y.len() == 0 {
        assert(x + y =~= x);
        assert(both =~= direct_parts(counts, dl, x));
    } else {
        joined_query_has_parts_of_both(counts, dl, x, y.drop_last());
        assert((x + y).drop_last() =~= x + y.drop_last());
        assert(direct_parts(counts, dl, x + y) =~= both);
    }
}

/// What the posting lists hold of a document for the terms of two queries together is what they
/// hold for the first, followed by what they hold for the second.
pub proof fn joined_query_has_postings_of_both(
    postings: Map<usize, Seq<(u32, u32)>>,
    dl: u32,
    x: Seq<(usize, u64)>,
    y: Seq<(usize, u64)>,
    d: int,
)
    ensures
        inverted_parts(postings, dl, x + y, d) == inverted_parts(postings, dl, x, d)
            + inverted_parts(postings, dl, y, d),
    decreases y.len(),
{
    let both = inverted_parts(postings, dl, x, d) + inverted_parts(postings, dl, y, d);
    if y.len() == 0 {
        assert(x + y =~= x);
        assert(both =~= inverted_parts(postings, dl, x, d));
    } else {
        joined_query_has_postings_of_both(postings, dl, x, y.drop_last(), d);
        assert((x + y).drop_last() =~= x + y.drop_last());
        assert(inverted_parts(postings, dl, x + y, d) =~= both);
    }
}

// ---------------------------------------------------------------------------------------------
// The index
// ---------------------------------------------------------------------------------------------

/// The document frequency of a symbol is the length of its posting list.
pub proof fn document_frequency_is_posting_count(docs: Seq<Map<usize, u32>>, symbol: usize)
    requires
        docs.len() <= u32::MAX,
    ensures
        document_frequencies(docs).dom() == inverted_index(docs).dom(),
        document_frequencies(docs).contains_key(symbol) ==> document_frequencies(docs)[symbol]
            == inverted_index(docs)[symbol].len(),
{
    lemma_holders(docs, symbol);
    assert(document_frequencies(docs).dom() =~= inverted_index(docs).dom());
}

/// A posting list is in the order of the documents.
pub proof fn posting_list_is_ascending(docs: Seq<Map<usize, u32>>, symbol: usize, i: int, j: int)
    requires
        docs.len() <= u32::MAX,
        0 <= i < j < posting_list(docs, symbol).len(),
    ensures
        posting_list(docs, symbol)[i].0 < posting_list(docs, symbol)[j].0,
    decreases docs.len(),
{
    let before = posting_list(docs.drop_last(), symbol);
    if j < before.len() {
        posting_list_is_ascending(docs.drop_last(), symbol, i, j);
    } else {
        lemma_posting_ids(docs.drop_last(), symbol, i);
    }
}

/// The sum of counts.
pub open spec fn sum_of_counts(entries: Seq<(usize, u32)>) -> nat
    decreases entries.len(),
{
    if entries.len() == 0 {
        0
    } else {
        sum_of_counts(entries.drop_last()) + entries.last().1 as nat
    }
}

/// The counts of a document add up to its length.
pub proof fn counts_add_up_to_length(symbols: Seq<usize>, entries: Seq<(usize, u32)>)
    requires
        symbols.len() <= u32::MAX,
        lists_entries(entries, histogram(symbols)),
    ensures
        sum_of_counts(entries) == symbols.len(),
{
    assert forall|i: int| 0 <= i < entries.len() implies (#[trigger] entries[i]).1 == occurrences(
        symbols,
        entries[i].0,
    ) by {
        lemma_occurrences(symbols, entries[i].0);
    }
    lemma_sum_of_counts(symbols, entries);
    assert forall|k: int| 0 <= k < symbols.len() implies names_symbol(
        entries,
        #[trigger] symbols[k],
    ) by {
        assert(symbols.contains(symbols[k]));
        assert(histogram(symbols).contains_key(symbols[k]));
    }
    lemma_all_covered(symbols, entries);
}

/// The symbol has an entry.
spec fn names_symbol(entries: Seq<(usize, u32)>, symbol: usize) -> bool {
    exists|i: int| 0 <= i < entries.len() && (#[trigger] entries[i]).0 == symbol
}

/// The number of places whose symbol has an entry.
spec fn covered(symbols: Seq<usize>, entries: Seq<(usize, u32)>) -> nat
    decreases symbols.len(),
{
    if symbols.len() == 0 {
        0
    } else {
        covered(symbols.drop_last(), entries) + if names_symbol(entries, symbols.last()) {
            1nat
        } else {
            0nat
        }
    }
}

proof fn lemma_all_covered(symbols: Seq<usize>, entries: Seq<(usize, u32)>)
    requires
        forall|k: int| 0 <= k < symbols.len() ==> names_symbol(entries, #[trigger] symbols[k]),
    ensures
        covered(symbols, entries) == symbols.len(),
    decreases symbols.len(),
{
    if symbols.len() > 0 {
        let before = symbols.drop_last();
        assert forall|k: int| 0 <= k < before.len() implies names_symbol(
            entries,
            #[trigger] before[k],
        ) by {
            assert(before[k] == symbols[k]);
        }
        lemma_all_covered(before, entries);
        assert(names_symbol(entries, symbols[symbols.len() - 1]));
    }
}

proof fn lemma_sum_of_counts(symbols: Seq<usize>, entries: Seq<(usize, u32)>)
    requires
        forall|i: int, j: int|
            0 <= i < j < entries.len() ==> (#[trigger] entries[i]).0 != (#[trigger] entries[j]).0,
        forall|i: int|
            0 <= i < entries.len() ==> (#[trigger] entries[i]).1 == occurrences(
                symbols,
                entries[i].0,
            ),
    ensures
        sum_of_counts(entries) == covered(symbols, entries),
    decreases entries.len(),
{
    if entries.len() == 0 {
        lemma_none_covered(symbols, entries);
    } else {
        let before = entries.drop_last();
        assert forall|i: int, j: int| 0 <= i < j < before.len() implies (#[trigger] before[i]).0
            != (#[trigger] before[j]).0 by {
            assert(before[i] == entries[i] && before[j] == entries[j]);
        }
        assert forall|i: int| 0 <= i < before.len() implies (#[trigger] before[i]).1
            == occurrences(symbols, before[i].0) by {
            assert(before[i] == entries[i]);
        }
        lemma_sum_of_counts(symbols, before);
        lemma_one_more_covered(symbols, entries);
        assert(entries[entries.len() - 1].1 == occurrences(symbols, entries.last().0));
    }
}

proof fn lemma_none_covered(symbols: Seq<usize>, entries: Seq<(usize, u32)>)
    requires
        entries.len() == 0,
    ensures
        covered(symbols, entries) == 0,
    decreases symbols.len(),
{
    if symbols.len() > 0 {
        lemma_none_covered(symbols.drop_last(), entries);
    }
}

proof fn lemma_one_more_covered(symbols: Seq<usize>, entries: Seq<(usize, u32)>)
    requires
        entries.len() > 0,
        forall|i: int, j: int|
            0 <= i < j < entries.len() ==> (#[trigger] entries[i]).0 != (#[trigger] entries[j]).0,
    ensures
        covered(symbols, entries) == covered(symbols, entries.drop_last()) + occurrences(
            symbols,
            entries.last().0,
        ),
    decreases symbols.len(),
{
    if symbols.len() > 0 {
        let before = entries.drop_last();
        let last = entries.len() - 1;
        let symbol = symbols.last();
        lemma_one_more_covered(symbols.drop_last(), entries);
        if names_symbol(before, symbol) {
            let i = choose|i: int| 0 <= i < before.len() && (#[trigger] before[i]).0 == symbol;
            assert(entries[i].0 == symbol);
            assert(entries[i].0 != entries[last].0);
        } else if names_symbol(entries, symbol) {
            let i = choose|i: int| 0 <= i < entries.len() && (#[trigger] entries[i]).0 == symbol;
            if i < last {
                assert(before[i].0 == symbol);
            }
        }
        if entries.last().0 == symbol {
            assert(entries[last].0 == symbol);
        }
    }
}

/// Interning a corpus keeps the symbols that were there, and distinct strings have distinct
/// symbols.
pub proof fn interning_keeps_symbols(
    before: Seq<Seq<char>>,
    corpus: Seq<Seq<Seq<char>>>,
    after: Seq<Seq<char>>,
)
    requires
        before.no_duplicates(),
        interned(before, corpus, after),
    ensures
        after.no_duplicates(),
        forall|term: Seq<char>| #[trigger]
            after.contains(term) <==> before.contains(term) || mentions(corpus, term),
        forall|term: Seq<char>| #[trigger]
            before.contains(term) ==> symbol_of(after, term) == symbol_of(before, term),
{
    let n = before.len() as int;
    let added = after.skip(n);
    assert(after =~= before + added);
    assert forall|i: int, j: int|
        0 <= i < after.len() && 0 <= j < after.len() && i != j implies after[i] != after[j] by {
        if after[i] == after[j] {
            let low = if i < j {
                i
            } else {
                j
            };
            let high = if i < j {
                j
            } else {
                i
            };
            if high < n {
                assert(before[low] == before[high]);
            } else if low >= n {
                assert(added[low - n] == added[high - n]);
            } else {
                assert(added[high - n] == after[high]);
                assert(added.contains(after[high]));
                assert(before[low] == after[high]);
                assert(before.contains(after[high]));
            }
        }
    }
    assert forall|term: Seq<char>| #[trigger]
        after.contains(term) <==> before.contains(term) || mentions(corpus, term) by {
        if after.contains(term) {
            let k = after.index_of(term);
            if k < n {
                assert(before[k] == term);
            } else {
                assert(added[k - n] == term);
                assert(added.contains(term));
            }
        }
        if before.contains(term) {
            assert(after[before.index_of(term)] == term);
        } else if mentions(corpus, term) {
            assert(added.contains(term));
            assert(after[n + added.index_of(term)] == term);
        }
    }
    assert forall|term: Seq<char>| #[trigger] before.contains(term) implies symbol_of(after, term)
        == symbol_of(before, term) by {
        let k = before.index_of(term);
        assert(after[k] == term);
        assert(after[after.index_of(term)] == term);
    }
}

/// Distinct interned strings have distinct symbols.
proof fn lemma_symbols_distinct(strings: Seq<Seq<char>>, x: Seq<char>, y: Seq<char>)
    requires
        strings.len() <= usize::MAX,
        strings.contains(x),
        strings.contains(y),
    ensures
        symbol_of(strings, x) == symbol_of(strings, y) <==> x == y,
{
    assert(strings[strings.index_of(x)] == x);
    assert(strings[strings.index_of(y)] == y);
}

/// The count that an index holds for a term is the number of times that the term occurs in the
/// document.
pub proof fn counts_are_occurrences(
    strings: Seq<Seq<char>>,
    doc: Seq<Seq<char>>,
    term: Seq<char>,
)
    requires
        strings.len() <= usize::MAX,
        doc.len() <= u32::MAX,
        forall|j: int| 0 <= j < doc.len() ==> strings.contains(#[trigger] doc[j]),
        strings.contains(term),
    ensures
        histogram(encoded(strings, doc)).contains_key(symbol_of(strings, term)) <==> doc.contains(
            term,
        ),
        doc.contains(term) ==> histogram(encoded(strings, doc))[symbol_of(strings, term)] == times(
            doc,
            term,
        ),
{
    let symbols = encoded(strings, doc);
    let symbol = symbol_of(strings, term);
    lemma_times(strings, doc, term);
    lemma_occurrences(symbols, symbol);
    if doc.contains(term) {
        assert(symbols[doc.index_of(term)] == symbol);
    }
    if symbols.contains(symbol) {
        let j = symbols.index_of(symbol);
        lemma_symbols_distinct(strings, doc[j], term);
        assert(doc[j] == term);
    }
}

proof fn lemma_times(strings: Seq<Seq<char>>, doc: Seq<Seq<char>>, term: Seq<char>)
    requires
        strings.len() <= usize::MAX,
        forall|j: int| 0 <= j < doc.len() ==> strings.contains(#[trigger] doc[j]),
        strings.contains(term),
    ensures
        occurrences(encoded(strings, doc), symbol_of(strings, term)) == times(doc, term),
    decreases doc.len(),
{
    if doc.len() > 0 {
        let before = doc.drop_last();
        assert forall|j: int| 0 <= j < before.len() implies strings.contains(
            #[trigger] before[j],
        ) by {
            assert(before[j] == doc[j]);
        }
        lemma_times(strings, before, term);
        assert(encoded(strings, doc).drop_last() =~= encoded(strings, before));
        assert(strings.contains(doc[doc.len() - 1]));
        lemma_symbols_distinct(strings, doc.last(), term);
    }
}

/// The document frequency that an index holds for a term is the number of documents in which the
/// term occurs.
pub proof fn document_frequencies_are_occurrences(
    strings: Seq<Seq<char>>,
    corpus: Seq<Seq<Seq<char>>>,
    term: Seq<char>,
)
    requires
        interned(Seq::<Seq<char>>::empty(), corpus, strings),
        representable(corpus, Seq::<Seq<char>>::empty()),
        mentions(corpus, term),
    ensures
        document_frequencies(
            corpus.map_values(|doc: Seq<Seq<char>>| histogram(encoded(strings, doc))),
        )[symbol_of(strings, term)] == documents_with(corpus, term),
{
    let docs = corpus.map_values(|doc: Seq<Seq<char>>| histogram(encoded(strings, doc)));
    let symbol = symbol_of(strings, term);
    lemma_interned_strings(corpus, strings);
    lemma_documents_with(strings, corpus, docs, term);
    lemma_holders(docs, symbol);
    let d = choose|d: int| 0 <= d < corpus.len() && (#[trigger] corpus[d]).contains(term);
    assert(strings.contains(term));
    counts_are_occurrences(strings, corpus[d], term);
    assert(docs[d].contains_key(symbol));
    assert(held(docs, symbol));
}

pub(crate) proof fn lemma_documents_with(
    strings: Seq<Seq<char>>,
    corpus: Seq<Seq<Seq<char>>>,
    docs: Seq<Map<usize, u32>>,
    term: Seq<char>,
)
    requires
        strings.len() <= usize::MAX,
        strings.contains(term),
        docs.len() == corpus.len(),
        forall|d: int|
            0 <= d < corpus.len() ==> #[trigger] docs[d] == histogram(encoded(strings, corpus[d])),
        forall|d: int| 0 <= d < corpus.len() ==> (#[trigger] corpus[d]).len() <= u32::MAX,
        forall|d: int, j: int|
            0 <= d < corpus.len() && 0 <= j < corpus[d].len() ==> strings.contains(
                #[trigger] corpus[d][j],
            ),
    ensures
        holders(docs, symbol_of(strings, term)) == documents_with(corpus, term),
    decreases corpus.len(),
{
    if corpus.len() > 0 {
        let last = corpus.len() - 1;
        let fewer = corpus.drop_last();
        assert forall|d: int, j: int|
            0 <= d < fewer.len() && 0 <= j < fewer[d].len() implies strings.contains(
            #[trigger] fewer[d][j],
        ) by {
            assert(strings.contains(corpus[d][j]));
        }
        assert forall|d: int| 0 <= d < fewer.len() implies (#[trigger] fewer[d]).len()
            <= u32::MAX by {
            assert(fewer[d] == corpus[d]);
        }
        lemma_documents_with(strings, fewer, docs.drop_last(), term);
        assert forall|j: int| 0 <= j < corpus[last].len() implies strings.contains(
            #[trigger] corpus[last][j],
        ) by {}
        assert(corpus[last].len() <= u32::MAX);
        counts_are_occurrences(strings, corpus[last], term);
        assert(docs[last] == histogram(encoded(strings, corpus[last])));
    }
}

/// The interned strings of a corpus are its terms, and they can be numbered.
pub(crate) proof fn lemma_interned_strings(corpus: Seq<Seq<Seq<char>>>, strings: Seq<Seq<char>>)
    requires
        interned(Seq::<Seq<char>>::empty(), corpus, strings),
        representable(corpus, Seq::<Seq<char>>::empty()),
    ensures
        strings.no_duplicates(),
        strings.len() <= MAX_SYMBOLS,
        forall|term: Seq<char>| #[trigger] strings.contains(term) <==> mentions(corpus, term),
        forall|d: int, j: int|
            0 <= d < corpus.len() && 0 <= j < corpus[d].len() ==> strings.contains(
                #[trigger] corpus[d][j],
            ),
{
    let none = Seq::<Seq<char>>::empty();
    interning_keeps_symbols(none, corpus, strings);
    assert forall|term: Seq<char>| #[trigger]
        strings.contains(term) <==> mentions(corpus, term) by {
        assert(!none.contains(term));
    }
    assert(strings.to_set() =~= new_terms(none, corpus));
    strings.unique_seq_to_set();
    assert forall|d: int, j: int|
        0 <= d < corpus.len() && 0 <= j < corpus[d].len() implies strings.contains(
        #[trigger] corpus[d][j],
    ) by {
        lemma_interned_contains(none, corpus, strings, d, j);
    }
}

/// The term has the same weight, or none, under both numberings.
pub open spec fn same_weight(
    term: Seq<char>,
    strings_x: Seq<Seq<char>>,
    weights_x: Map<usize, u64>,
    strings_y: Seq<Seq<char>>,
    weights_y: Map<usize, u64>,
) -> bool {
    let x = symbol_of(strings_x, term);
    let y = symbol_of(strings_y, term);
    &&& weights_x.contains_key(x) <==> weights_y.contains_key(y)
    &&& weights_x.contains_key(x) ==> weights_x[x] == weights_y[y]
}

/// How the terms of a corpus are numbered makes no difference to a score: if the terms of a query
/// have the same weights, the query finds the same in every document.
pub proof fn numbering_makes_no_difference(
    corpus: Seq<Seq<Seq<char>>>,
    strings_x: Seq<Seq<char>>,
    weights_x: Map<usize, u64>,
    strings_y: Seq<Seq<char>>,
    weights_y: Map<usize, u64>,
    query: Seq<Seq<char>>,
    d: int,
    dl: u32,
)
    requires
        representable(corpus, Seq::<Seq<char>>::empty()),
        interned(Seq::<Seq<char>>::empty(), corpus, strings_x),
        interned(Seq::<Seq<char>>::empty(), corpus, strings_y),
        forall|term: Seq<char>| #[trigger]
            query.contains(term) && mentions(corpus, term) ==> same_weight(
                term,
                strings_x,
                weights_x,
                strings_y,
                weights_y,
            ),
        0 <= d < corpus.len(),
    ensures
        direct_parts(
            histogram(encoded(strings_x, corpus[d])),
            dl,
            resolved(query, strings_x, weights_x),
        ) == direct_parts(
            histogram(encoded(strings_y, corpus[d])),
            dl,
            resolved(query, strings_y, weights_y),
        ),
    decreases query.len(),
{
    if query.len() > 0 {
        let term = query.last();
        assert(query[query.len() - 1] == term);
        assert(query.contains(term));
        assert forall|other: Seq<char>| #[trigger]
            query.drop_last().contains(other) implies query.contains(other) by {
            assert(query[query.drop_last().index_of(other)] == other);
        }
        numbering_makes_no_difference(
            corpus,
            strings_x,
            weights_x,
            strings_y,
            weights_y,
            query.drop_last(),
            d,
            dl,
        );
        lemma_interned_strings(corpus, strings_x);
        lemma_interned_strings(corpus, strings_y);
        assert(strings_x.contains(term) <==> mentions(corpus, term));
        assert(strings_y.contains(term) <==> mentions(corpus, term));
        if mentions(corpus, term) {
            assert(same_weight(term, strings_x, weights_x, strings_y, weights_y));
            assert(corpus[d].len() <= u32::MAX);
            counts_are_occurrences(strings_x, corpus[d], term);
            counts_are_occurrences(strings_y, corpus[d], term);
            let before_x = resolved(query.drop_last(), strings_x, weights_x);
            let before_y = resolved(query.drop_last(), strings_y, weights_y);
            let x = symbol_of(strings_x, term);
            let y = symbol_of(strings_y, term);
            if weights_x.contains_key(x) {
                assert(before_x.push((x, weights_x[x])).drop_last() =~= before_x);
                assert(before_y.push((y, weights_y[y])).drop_last() =~= before_y);
            }
        }
    }
}

/// There is a weight for every term and for no other, and it has whatever the formula gives for
/// the document frequency of the term.
pub proof fn weights_are_as_the_formula_gives<I: Fn(u32, usize) -> u64>(
    nd: Map<usize, u32>,
    corpus_size: usize,
    idf: I,
    weights: Map<usize, u64>,
    property: spec_fn(u32, u64) -> bool,
)
    requires
        weighs(nd, corpus_size, idf, weights),
        forall|symbol: usize, weight: u64|
            nd.contains_key(symbol) && #[trigger] call_ensures(
                idf,
                (nd[symbol], corpus_size),
                weight,
            ) ==> property(nd[symbol], weight),
    ensures
        weights.dom() == nd.dom(),
        forall|symbol: usize| #[trigger]
            nd.contains_key(symbol) ==> property(nd[symbol], weights[symbol]),
{
}

/// Rarer terms weigh more wherever the formula gives a higher weight for the lower of two document
/// frequencies that occur.
pub proof fn rarer_terms_weigh_more<I: Fn(u32, usize) -> u64>(
    nd: Map<usize, u32>,
    corpus_size: usize,
    idf: I,
    weights: Map<usize, u64>,
)
    requires
        weighs(nd, corpus_size, idf, weights),
        forall|s: usize, t: usize, x: u64, y: u64|
            nd.contains_key(s) && nd.contains_key(t) && nd[s] < nd[t] && #[trigger] call_ensures(
                idf,
                (nd[s], corpus_size),
                x,
            ) && #[trigger] call_ensures(idf, (nd[t], corpus_size), y) ==> rank(x) > rank(y),
    ensures
        weights.dom() == nd.dom(),
        forall|s: usize, t: usize|
            #![trigger nd.contains_key(s), nd.contains_key(t)]
            nd.contains_key(s) && nd.contains_key(t) && nd[s] < nd[t] ==> rank(weights[s]) > rank(
                weights[t],
            ),
{
}

/// Where one formula gives a lower weight than another for every document frequency that occurs,
/// every term weighs less by the one than by the other.
pub proof fn weights_compare_as_formulas<I: Fn(u32, usize) -> u64, J: Fn(u32, usize) -> u64>(
    nd: Map<usize, u32>,
    corpus_size: usize,
    lower: I,
    lower_weights: Map<usize, u64>,
    higher: J,
    higher_weights: Map<usize, u64>,
)
    requires
        weighs(nd, corpus_size, lower, lower_weights),
        weighs(nd, corpus_size, higher, higher_weights),
        forall|symbol: usize, x: u64, y: u64|
            nd.contains_key(symbol) && #[trigger] call_ensures(lower, (nd[symbol], corpus_size), x)
                && #[trigger] call_ensures(higher, (nd[symbol], corpus_size), y) ==> rank(x)
                < rank(y),
    ensures
        forall|symbol: usize| #[trigger]
            nd.contains_key(symbol) ==> rank(lower_weights[symbol]) < rank(higher_weights[symbol]),
{
}

/// If the floor is not negative, no weight of the Okapi variant is.
pub proof fn floor_removes_negative_weights(raw: Map<usize, u64>, floor: u64, symbol: usize)
    requires
        !is_negative(floor),
        raw.contains_key(symbol),
    ensures
        !is_negative(floored(raw, floor)[symbol]),
        !is_negative(raw[symbol]) ==> floored(raw, floor)[symbol] == raw[symbol],
{
}

// ---------------------------------------------------------------------------------------------
// Tokens
// ---------------------------------------------------------------------------------------------

/// An ASCII text is lower-cased letter by letter, so that the fast path for ASCII gives what
/// lower-casing any text gives; lower-casing it once more changes nothing.
pub proof fn ascii_is_lowered_by_letter(text: Seq<char>)
    requires
        is_ascii_chars(text),
    ensures
        unicode_lower(text) == text.map_values(|c: char| ascii_lower(c)),
        is_ascii_chars(unicode_lower(text)),
        unicode_lower(unicode_lower(text)) == unicode_lower(text),
{
    let lowered = unicode_lower(text);
    assert forall|i: int| 0 <= i < lowered.len() implies '\0' <= #[trigger] lowered[i] <= '\u{7f}'
        && ascii_lower(lowered[i]) == lowered[i] by {
        assert('\0' <= text[i] <= '\u{7f}');
    }
    assert(unicode_lower(lowered) =~= lowered);
}

/// Words are not empty and hold no white space.
pub proof fn words_hold_no_white_space(text: Seq<char>, w: int)
    requires
        0 <= w < words(text).len(),
    ensures
        words(text)[w].len() > 0,
        forall|i: int| 0 <= i < words(text)[w].len() ==> !white_space(#[trigger] words(text)[w][i]),
{
    lemma_split_words(text, |c: char| white_space(c));
    let word = words(text)[w];
    assert(is_word(word, |c: char| white_space(c)));
    assert forall|i: int| 0 <= i < word.len() implies !white_space(#[trigger] word[i]) by {
        let separates = |c: char| white_space(c);
        assert(!separates(word[i]));
    }
}

/// The word is not empty and holds no separator.
spec fn is_word(word: Seq<char>, separates: spec_fn(char) -> bool) -> bool {
    word.len() > 0 && forall|i: int| 0 <= i < word.len() ==> !separates(#[trigger] word[i])
}

proof fn lemma_split_words(text: Seq<char>, separates: spec_fn(char) -> bool)
    ensures
        forall|w: int|
            0 <= w < split_words(text, separates).len() ==> is_word(
                #[trigger] split_words(text, separates)[w],
                separates,
            ),
        text.len() > 0 && !separates(text.last()) ==> split_words(text, separates).len() > 0,
    decreases text.len(),
{
    if text.len() > 0 {
        let before = split_words(text.drop_last(), separates);
        let after = split_words(text, separates);
        lemma_split_words(text.drop_last(), separates);
        assert forall|w: int| 0 <= w < after.len() implies is_word(
            #[trigger] after[w],
            separates,
        ) by {
            if separates(text.last()) {
                assert(is_word(before[w], separates));
            } else if text.len() == 1 || separates(text[text.len() - 2]) {
                if w < before.len() {
                    assert(is_word(before[w], separates));
                }
            } else {
                assert(text.drop_last().last() == text[text.len() - 2]);
                if w < before.len() {
                    assert(is_word(before[w], separates));
                }
            }
        }
    }
}

/// The tokens of two texts that are joined by white space are those of the first text, followed by
/// those of the second.
pub proof fn tokens_of_joined_texts(x: Seq<char>, gap: char, y: Seq<char>)
    requires
        white_space(gap),
    ensures
        document_tokens(x.push(gap) + y) == document_tokens(x) + document_tokens(y),
{
    lemma_split_joined(x, gap, y, |c: char| white_space(c));
    assert(document_tokens(x.push(gap) + y) =~= document_tokens(x) + document_tokens(y));
}

proof fn lemma_split_joined(
    x: Seq<char>,
    gap: char,
    y: Seq<char>,
    separates: spec_fn(char) -> bool,
)
    requires
        separates(gap),
    ensures
        split_words(x.push(gap) + y, separates) == split_words(x, separates) + split_words(
            y,
            separates,
        ),
    decreases y.len(),
{
    let joined = x.push(gap) + y;
    let expected = split_words(x, separates) + split_words(y, separates);
    if y.len() == 0 {
        assert(joined =~= x.push(gap));
        assert(joined.drop_last() =~= x);
        assert(split_words(joined, separates) =~= expected);
    } else {
        lemma_split_joined(x, gap, y.drop_last(), separates);
        lemma_split_words(y.drop_last(), separates);
        assert(joined.drop_last() =~= x.push(gap) + y.drop_last());
        assert(joined.last() == y.last());
        if y.len() == 1 {
            assert(joined[joined.len() - 2] == gap);
        } else {
            assert(joined[joined.len() - 2] == y[y.len() - 2]);
            assert(y.drop_last().last() == y[y.len() - 2]);
        }
        assert(split_words(joined, separates) =~= expected);
    }
}

// ---------------------------------------------------------------------------------------------
// The best documents
// ---------------------------------------------------------------------------------------------

/// Where the documents can be put in order, there is one way to rank them.
pub proof fn ranking_is_determined<T: Fn(u32, u32, u64) -> u64, A: Fn(u64, u64) -> u64>(
    parts: spec_fn(int) -> Seq<Part>,
    scorer: Scorer<T, A>,
    x: Seq<(usize, u64)>,
    y: Seq<(usize, u64)>,
)
    requires
        scorer.deterministic(),
        ranks_candidates(parts, scorer, x),
        ranks_candidates(parts, scorer, y),
        orderable(x),
    ensures
        x == y,
{
    let scores_x = choose|scores: Map<usize, u64>| #[trigger]
        scores_candidates(parts, scorer, scores) && lists_entries(x, scores);
    let scores_y = choose|scores: Map<usize, u64>| #[trigger]
        scores_candidates(parts, scorer, scores) && lists_entries(y, scores);
    assert forall|d: usize| #[trigger] scores_x.contains_key(d) <==> scores_y.contains_key(d) by {}
    assert forall|d: usize| scores_x.contains_key(d) implies #[trigger] scores_x[d]
        == scores_y[d] by {
        assert(scores_y.contains_key(d));
        scorer.lemma_accumulates_unique(ZERO, parts(d as int), scores_x[d], scores_y[d]);
    }
    assert(scores_x =~= scores_y);
    lemma_same_entries(x, y, scores_x);
    lemma_orderable_same(x, y);
    assert forall|i: int| 0 <= i < x.len() implies x[i] == y[i] by {
        lemma_same_order(x, y, i);
    }
}

proof fn lemma_same_entries(x: Seq<(usize, u64)>, y: Seq<(usize, u64)>, map: Map<usize, u64>)
    requires
        lists_entries(x, map),
        lists_entries(y, map),
    ensures
        x.no_duplicates(),
        y.no_duplicates(),
        x.len() == y.len(),
        forall|e: (usize, u64)| #[trigger] x.contains(e) <==> y.contains(e),
{
    lemma_entries_distinct(x, map);
    lemma_entries_distinct(y, map);
    assert forall|e: (usize, u64)| #[trigger] x.contains(e) <==> y.contains(e) by {
        if x.contains(e) {
            let i = x.index_of(e);
            assert(map.contains_key(x[i].0));
            let j = choose|j: int| 0 <= j < y.len() && (#[trigger] y[j]).0 == e.0;
            assert(y[j] == e);
        }
        if y.contains(e) {
            let i = y.index_of(e);
            assert(map.contains_key(y[i].0));
            let j = choose|j: int| 0 <= j < x.len() && (#[trigger] x[j]).0 == e.0;
            assert(x[j] == e);
        }
    }
    x.unique_seq_to_set();
    y.unique_seq_to_set();
    assert(x.to_set() =~= y.to_set());
}

proof fn lemma_entries_distinct(x: Seq<(usize, u64)>, map: Map<usize, u64>)
    requires
        lists_entries(x, map),
    ensures
        x.no_duplicates(),
{
    assert forall|i: int, j: int|
        0 <= i < x.len() && 0 <= j < x.len() && i != j implies x[i] != x[j] by {
        if i < j {
            assert(x[i].0 != x[j].0);
        } else {
            assert(x[j].0 != x[i].0);
        }
    }
}

proof fn lemma_same_order(x: Seq<(usize, u64)>, y: Seq<(usize, u64)>, at: int)
    requires
        x.len() == y.len(),
        x.no_duplicates(),
        y.no_duplicates(),
        forall|e: (usize, u64)| #[trigger] x.contains(e) <==> y.contains(e),
        is_ranked(x),
        is_ranked(y),
        0 <= at < x.len(),
    ensures
        x[at] == y[at],
    decreases at,
{
    assert forall|i: int| 0 <= i < at implies x[i] == y[i] by {
        lemma_same_order(x, y, i);
    }
    assert(x.contains(x[at]));
    assert(y.contains(y[at]));
    assert(x.contains(y[at]));
    let j = y.index_of(x[at]);
    let k = x.index_of(y[at]);
    assert(y[j] == x[at]);
    assert(x[k] == y[at]);
    if j < at {
        assert(x[j] == x[at]);
    }
    if k < at {
        assert(y[k] == y[at]);
    }
    if j > at && k > at {
        assert(ranked_before(y[at], y[j]));
        assert(ranked_before(x[at], x[k]));
    }
}

/// The documents that have parts can be put in one order.
pub open spec fn can_rank<T: Fn(u32, u32, u64) -> u64, A: Fn(u64, u64) -> u64>(
    parts: spec_fn(int) -> Seq<Part>,
    scorer: Scorer<T, A>,
) -> bool {
    forall|ranked: Seq<(usize, u64)>| #[trigger]
        ranks_candidates(parts, scorer, ranked) ==> orderable(ranked)
}

/// The documents that have parts can be put in one order wherever no score of theirs is anything
/// but a number.
pub proof fn numbers_can_be_ranked<T: Fn(u32, u32, u64) -> u64, A: Fn(u64, u64) -> u64>(
    parts: spec_fn(int) -> Seq<Part>,
    scorer: Scorer<T, A>,
)
    requires
        forall|d: int, score: u64| #[trigger]
            scorer.sums(parts(d), score) && parts(d).len() > 0 ==> !is_nan(score),
    ensures
        can_rank(parts, scorer),
{
    assert forall|ranked: Seq<(usize, u64)>| #[trigger]
        ranks_candidates(parts, scorer, ranked) implies orderable(ranked) by {
        let scores = choose|scores: Map<usize, u64>| #[trigger]
            scores_candidates(parts, scorer, scores) && lists_entries(ranked, scores);
        assert forall|e: (usize, u64)| #[trigger] ranked.contains(e) implies !is_nan(e.1) by {
            let i = ranked.index_of(e);
            assert(ranked[i] == e);
            assert(scores.contains_key(e.0));
            assert(scorer.sums(parts(e.0 as int), e.1));
        }
        lemma_numbers_orderable(ranked);
    }
}

/// Where the documents can be put in order, there is one list of the best of them, and a shorter
/// list is the beginning of a longer one.
pub proof fn shorter_top_is_prefix<T: Fn(u32, u32, u64) -> u64, A: Fn(u64, u64) -> u64>(
    parts: spec_fn(int) -> Seq<Part>,
    scorer: Scorer<T, A>,
    n: nat,
    short: nat,
    x: Seq<(usize, u64)>,
    long: nat,
    y: Seq<(usize, u64)>,
)
    requires
        scorer.deterministic(),
        can_rank(parts, scorer),
        short <= long,
        is_top(parts, scorer, n, short, x),
        is_top(parts, scorer, n, long, y),
    ensures
        x == first(y, short),
{
    let ranked_x = choose|ranked: Seq<(usize, u64)>| #[trigger]
        ranks_candidates(parts, scorer, ranked) && x == first(ranked + unlisted(ranked, n), short);
    let ranked_y = choose|ranked: Seq<(usize, u64)>| #[trigger]
        ranks_candidates(parts, scorer, ranked) && y == first(ranked + unlisted(ranked, n), long);
    ranking_is_determined(parts, scorer, ranked_x, ranked_y);
    assert(x =~= first(y, short));
}

/// Where all scores are numbers and none is below zero, the best documents are those with the
/// highest scores of all.
pub proof fn top_has_highest_scores<T: Fn(u32, u32, u64) -> u64, A: Fn(u64, u64) -> u64>(
    parts: spec_fn(int) -> Seq<Part>,
    scorer: Scorer<T, A>,
    scores: Seq<u64>,
    k: nat,
    top: Seq<(usize, u64)>,
)
    requires
        scorer.deterministic(),
        scores.len() <= usize::MAX,
        forall|d: int| 0 <= d < scores.len() ==> scorer.sums(parts(d), #[trigger] scores[d]),
        forall|d: int|
            0 <= d < scores.len() ==> !is_nan(#[trigger] scores[d]) && rank(scores[d]) >= 0,
        forall|d: int| d >= scores.len() ==> (#[trigger] parts(d)).len() == 0,
        is_top(parts, scorer, scores.len(), k, top),
    ensures
        selects_best(scores, k, top.map_values(|entry: (usize, u64)| entry.0)),
        forall|i: int|
            0 <= i < top.len() ==> (#[trigger] top[i]).0 < scores.len() && top[i].1
                == scores[top[i].0 as int],
{
    let n = scores.len();
    let ranked = choose|ranked: Seq<(usize, u64)>| #[trigger]
        ranks_candidates(parts, scorer, ranked) && top == first(ranked + unlisted(ranked, n), k);
    let full = ranked + unlisted(ranked, n);
    let map = choose|map: Map<usize, u64>| #[trigger]
        scores_candidates(parts, scorer, map) && lists_entries(ranked, map);
    lemma_full_scores(parts, scorer, scores, ranked);
    lemma_unlisted(ranked, n);
    assert forall|i: int| 0 <= i < full.len() implies (#[trigger] full[i]).0 < n && full[i].1
        == scores[full[i].0 as int] by {}
    assert forall|i: int| 0 <= i < ranked.len() implies (#[trigger] ranked[i]).0 < n && ranked[i].1
        == scores[ranked[i].0 as int] by {
        assert(full[i] == ranked[i]);
    }
    assert(is_ranked(ranked)) by {
        assert forall|e: (usize, u64)| #[trigger] ranked.contains(e) implies !is_nan(e.1) by {
            assert(ranked[ranked.index_of(e)] == e);
        }
        lemma_numbers_orderable(ranked);
    }
    assert forall|i: int, j: int| 0 <= i < j < full.len() implies rank((#[trigger] full[i]).1)
        >= rank((#[trigger] full[j]).1) && full[i].0 != full[j].0 by {
        if j < ranked.len() {
            assert(ranked_before(ranked[i], ranked[j]));
            assert(ranked[i].0 != ranked[j].0);
        } else if i < ranked.len() {
            let entry = unlisted(ranked, n)[j - ranked.len()];
            assert(full[j] == entry && full[i] == ranked[i]);
            assert(!lists_document(ranked, entry.0 as int));
            assert(rank(scores[ranked[i].0 as int]) >= 0);
        } else {
            let p = i - ranked.len();
            let q = j - ranked.len();
            assert(unlisted(ranked, n)[p].0 < unlisted(ranked, n)[q].0);
        }
    }
    lemma_full_ranking(ranked, n, full);
    let places = top.map_values(|entry: (usize, u64)| entry.0);
    assert forall|i: int| 0 <= i < top.len() implies #[trigger] top[i] == full[i] by {}
    assert(places.no_duplicates()) by {
        assert forall|i: int, j: int|
            0 <= i < places.len() && 0 <= j < places.len() && i != j implies places[i]
            != places[j] by {
            if i < j {
                assert(full[i].0 != full[j].0);
            } else {
                assert(full[j].0 != full[i].0);
            }
        }
    }
    assert forall|i: int| 0 <= i < places.len() implies #[trigger] places[i] < n && rank_at(
        scores,
        places[i],
    ) == rank(full[i].1) by {
        assert(top[i] == full[i]);
    }
    assert forall|i: int, other: usize|
        0 <= i < places.len() && other < n && !#[trigger] places.contains(other) implies rank_at(
        scores,
        #[trigger] places[i],
    ) >= rank_at(scores, other) by {
        assert(lists_document(full, other as int));
        let j = choose|j: int| 0 <= j < full.len() && (#[trigger] full[j]).0 == other;
        if j < top.len() {
            assert(places[j] == other);
        }
        assert(rank(full[i].1) >= rank(full[j].1));
    }
}

/// A list of the best documents holds as many documents as were asked for, or all if there are
/// fewer, and none twice. This holds whatever the scores are.
pub proof fn best_list_is_complete<T: Fn(u32, u32, u64) -> u64, A: Fn(u64, u64) -> u64>(
    parts: spec_fn(int) -> Seq<Part>,
    scorer: Scorer<T, A>,
    n: nat,
    k: nat,
    top: Seq<(usize, u64)>,
)
    requires
        n <= usize::MAX,
        forall|d: int| d >= n ==> (#[trigger] parts(d)).len() == 0,
        is_top(parts, scorer, n, k, top),
    ensures
        top.len() == if k < n {
            k
        } else {
            n
        },
        distinct_documents(top),
        forall|i: int| 0 <= i < top.len() ==> (#[trigger] top[i]).0 < n,
{
    let ranked = choose|ranked: Seq<(usize, u64)>| #[trigger]
        ranks_candidates(parts, scorer, ranked) && top == first(ranked + unlisted(ranked, n), k);
    let map = choose|map: Map<usize, u64>| #[trigger]
        scores_candidates(parts, scorer, map) && lists_entries(ranked, map);
    let others = unlisted(ranked, n);
    let full = ranked + others;
    lemma_unlisted(ranked, n);
    assert forall|i: int| 0 <= i < full.len() implies (#[trigger] full[i]).0 < n by {
        if i < ranked.len() {
            assert(full[i] == ranked[i]);
            assert(map.contains_key(ranked[i].0));
            assert(parts(ranked[i].0 as int).len() > 0);
        } else {
            assert(full[i] == others[i - ranked.len()]);
        }
    }
    assert forall|i: int, j: int| 0 <= i < j < full.len() implies (#[trigger] full[i]).0 != (
    #[trigger] full[j]).0 by {
        if j < ranked.len() {
            assert(ranked[i].0 != ranked[j].0);
        } else if i < ranked.len() {
            let entry = others[j - ranked.len()];
            assert(full[j] == entry && full[i] == ranked[i]);
            assert(!lists_document(ranked, entry.0 as int));
        } else {
            assert(others[i - ranked.len()].0 < others[j - ranked.len()].0);
        }
    }
    lemma_full_ranking(ranked, n, full);
    assert forall|i: int| 0 <= i < top.len() implies #[trigger] top[i] == full[i] by {}
}

/// A list of the best documents of an index holds as many documents as were asked for, or all if
/// there are fewer, and none twice.
pub proof fn best_list_of_view_is_complete<
    T: Fn(u32, u32, u64) -> u64,
    A: Fn(u64, u64) -> u64,
>(
    index: IndexView<'_>,
    terms: Seq<(usize, u64)>,
    scorer: Scorer<T, A>,
    k: nat,
    top: Seq<(usize, u64)>,
)
    requires
        index.consistent(),
        is_top(all_parts(index, terms), scorer, index.corpus_size as nat, k, top),
    ensures
        top.len() == if k < index.corpus_size {
            k
        } else {
            index.corpus_size as nat
        },
        distinct_documents(top),
        forall|i: int| 0 <= i < top.len() ==> (#[trigger] top[i]).0 < index.corpus_size,
{
    let parts = all_parts(index, terms);
    assert forall|d: int| d >= index.corpus_size implies (#[trigger] parts(d)).len() == 0 by {
        inverted_parts_match_documents(index.docs(), index.doc_len@[d], terms, d);
    }
    best_list_is_complete(parts, scorer, index.corpus_size as nat, k, top);
}

/// A list of the best documents holds as many documents as were asked for, or all if there are
/// fewer, none twice, and each with its score. This holds whatever the scores are.
pub proof fn best_list_carries_scores<T: Fn(u32, u32, u64) -> u64, A: Fn(u64, u64) -> u64>(
    parts: spec_fn(int) -> Seq<Part>,
    scorer: Scorer<T, A>,
    scores: Seq<u64>,
    k: nat,
    top: Seq<(usize, u64)>,
)
    requires
        scorer.deterministic(),
        scores.len() <= usize::MAX,
        forall|d: int| 0 <= d < scores.len() ==> scorer.sums(parts(d), #[trigger] scores[d]),
        forall|d: int| d >= scores.len() ==> (#[trigger] parts(d)).len() == 0,
        is_top(parts, scorer, scores.len(), k, top),
    ensures
        top.len() == if k < scores.len() {
            k
        } else {
            scores.len()
        },
        distinct_documents(top),
        forall|i: int|
            0 <= i < top.len() ==> (#[trigger] top[i]).0 < scores.len() && top[i].1
                == scores[top[i].0 as int],
{
    best_list_is_complete(parts, scorer, scores.len(), k, top);
    let ranked = choose|ranked: Seq<(usize, u64)>| #[trigger]
        ranks_candidates(parts, scorer, ranked) && top == first(
            ranked + unlisted(ranked, scores.len()),
            k,
        );
    lemma_full_scores(parts, scorer, scores, ranked);
    let full = ranked + unlisted(ranked, scores.len());
    assert forall|i: int| 0 <= i < top.len() implies (#[trigger] top[i]).0 < scores.len()
        && top[i].1 == scores[top[i].0 as int] by {
        assert(top[i] == full[i]);
    }
}

/// Ranked documents, followed by the others, with their scores.
pub(crate) proof fn lemma_full_scores<T: Fn(u32, u32, u64) -> u64, A: Fn(u64, u64) -> u64>(
    parts: spec_fn(int) -> Seq<Part>,
    scorer: Scorer<T, A>,
    scores: Seq<u64>,
    ranked: Seq<(usize, u64)>,
)
    requires
        scorer.deterministic(),
        scores.len() <= usize::MAX,
        forall|d: int| 0 <= d < scores.len() ==> scorer.sums(parts(d), #[trigger] scores[d]),
        forall|d: int| d >= scores.len() ==> (#[trigger] parts(d)).len() == 0,
        ranks_candidates(parts, scorer, ranked),
    ensures
        forall|i: int|
            0 <= i < (ranked + unlisted(ranked, scores.len())).len() ==> (#[trigger] (ranked
                + unlisted(ranked, scores.len()))[i]).0 < scores.len() && (ranked + unlisted(
                ranked,
                scores.len(),
            ))[i].1 == scores[(ranked + unlisted(ranked, scores.len()))[i].0 as int],
{
    let n = scores.len();
    let full = ranked + unlisted(ranked, n);
    let map = choose|map: Map<usize, u64>| #[trigger]
        scores_candidates(parts, scorer, map) && lists_entries(ranked, map);
    assert forall|i: int| 0 <= i < ranked.len() implies (#[trigger] ranked[i]).0 < n && ranked[i].1
        == scores[ranked[i].0 as int] by {
        let d = ranked[i].0;
        assert(map.contains_key(d));
        if d >= n {
            assert(parts(d as int).len() == 0);
        }
        assert(scorer.sums(parts(d as int), scores[d as int]));
        scorer.lemma_accumulates_unique(ZERO, parts(d as int), ranked[i].1, scores[d as int]);
    }
    lemma_unlisted(ranked, n);
    assert forall|i: int| 0 <= i < full.len() implies (#[trigger] full[i]).0 < n && full[i].1
        == scores[full[i].0 as int] by {
        if i < ranked.len() {
            assert(full[i] == ranked[i]);
        } else {
            let m = i - ranked.len();
            let entry = unlisted(ranked, n)[m];
            let d = entry.0;
            assert(full[i] == entry);
            assert(!lists_document(ranked, d as int));
            if map.contains_key(d) {
                let j = choose|j: int| 0 <= j < ranked.len() && (#[trigger] ranked[j]).0 == d;
                assert(lists_document(ranked, d as int));
            }
            assert(parts(d as int) =~= Seq::empty());
            scorer.lemma_accumulates_none(ZERO);
            scorer.lemma_accumulates_unique(ZERO, parts(d as int), ZERO, scores[d as int]);
        }
    }
}

/// The documents that are not listed, in order and with score zero.
pub(crate) proof fn lemma_unlisted(ranked: Seq<(usize, u64)>, n: nat)
    requires
        n <= usize::MAX,
    ensures
        forall|m: int|
            0 <= m < unlisted(ranked, n).len() ==> (#[trigger] unlisted(ranked, n)[m]).0 < n
                && unlisted(ranked, n)[m].1 == ZERO && !lists_document(
                ranked,
                unlisted(ranked, n)[m].0 as int,
            ),
        forall|p: int, q: int|
            0 <= p < q < unlisted(ranked, n).len() ==> (#[trigger] unlisted(ranked, n)[p]).0 < (
            #[trigger] unlisted(ranked, n)[q]).0,
        forall|d: int|
            0 <= d < n && !#[trigger] lists_document(ranked, d) ==> exists|m: int|
                0 <= m < unlisted(ranked, n).len() && (#[trigger] unlisted(ranked, n)[m]).0 == d,
    decreases n,
{
    if n > 0 {
        let before = unlisted(ranked, (n - 1) as nat);
        let after = unlisted(ranked, n);
        lemma_unlisted(ranked, (n - 1) as nat);
        assert forall|m: int| 0 <= m < after.len() implies (#[trigger] after[m]).0 < n && after[m].1
            == ZERO && !lists_document(ranked, after[m].0 as int) by {
            if m < before.len() {
                assert(after[m] == before[m]);
            }
        }
        assert forall|p: int, q: int| 0 <= p < q < after.len() implies (#[trigger] after[p]).0 < (
        #[trigger] after[q]).0 by {
            assert(after[p] == before[p]);
            if q < before.len() {
                assert(after[q] == before[q]);
            }
        }
        assert forall|d: int| 0 <= d < n && !#[trigger] lists_document(ranked, d) implies exists|
            m: int,
        |
            0 <= m < after.len() && (#[trigger] after[m]).0 == d by {
            if d < n - 1 {
                let m = choose|m: int| 0 <= m < before.len() && (#[trigger] before[m]).0 == d;
                assert(after[m] == before[m]);
            } else {
                assert(after[before.len() as int].0 == d);
            }
        }
    }
}

/// Ranked documents, followed by the others, are all documents.
pub(crate) proof fn lemma_full_ranking(ranked: Seq<(usize, u64)>, n: nat, full: Seq<(usize, u64)>)
    requires
        n <= usize::MAX,
        full == ranked + unlisted(ranked, n),
        forall|i: int| 0 <= i < full.len() ==> (#[trigger] full[i]).0 < n,
        forall|i: int, j: int|
            0 <= i < j < full.len() ==> (#[trigger] full[i]).0 != (#[trigger] full[j]).0,
    ensures
        full.len() == n,
        forall|d: int| 0 <= d < n ==> #[trigger] lists_document(full, d),
{
    lemma_unlisted(ranked, n);
    assert forall|d: int| 0 <= d < n implies #[trigger] lists_document(full, d) by {
        if lists_document(ranked, d) {
            let i = choose|i: int| 0 <= i < ranked.len() && (#[trigger] ranked[i]).0 == d;
            assert(full[i].0 == d);
        } else {
            let m = choose|m: int|
                0 <= m < unlisted(ranked, n).len() && (#[trigger] unlisted(ranked, n)[m]).0 == d;
            assert(full[ranked.len() + m].0 == d);
        }
    }
    let ids = full.map_values(|entry: (usize, u64)| entry.0);
    let range = Seq::new(n, |i: int| i as usize);
    assert(ids.no_duplicates()) by {
        assert forall|i: int, j: int|
            0 <= i < ids.len() && 0 <= j < ids.len() && i != j implies ids[i] != ids[j] by {
            if i < j {
                assert(full[i].0 != full[j].0);
            } else {
                assert(full[j].0 != full[i].0);
            }
        }
    }
    assert(range.no_duplicates());
    assert forall|d: usize| #[trigger] ids.contains(d) <==> range.contains(d) by {
        if ids.contains(d) {
            let i = ids.index_of(d);
            assert(full[i].0 == d);
            assert(range[d as int] == d);
        }
        if range.contains(d) {
            assert(lists_document(full, d as int));
            let j = choose|j: int| 0 <= j < full.len() && (#[trigger] full[j]).0 == d;
            assert(ids[j] == d);
        }
    }
    ids.unique_seq_to_set();
    range.unique_seq_to_set();
    assert(ids.to_set() =~= range.to_set());
}

// ---------------------------------------------------------------------------------------------
// The queries of an index
// ---------------------------------------------------------------------------------------------

/// All ways to ask an index for the scores of all documents give the same scores: with a query,
/// with a query that was looked up before, with any chunk size, and as one of several queries.
pub proof fn index_scores_are_determined<T: Fn(u32, u32, u64) -> u64, A: Fn(u64, u64) -> u64>(
    index: BM25Okapi,
    terms: Seq<(usize, u64)>,
    scorer: Scorer<T, A>,
    x: Seq<u64>,
    y: Seq<u64>,
)
    requires
        scorer.deterministic(),
        index.scores_all(terms, scorer, x),
        index.scores_all(terms, scorer, y),
    ensures
        x == y,
{
    scores_are_determined(index.parts(terms), scorer, x, y);
}

/// The scores of chosen documents are their scores among those of all documents.
pub proof fn chosen_scores_match_all_scores<T: Fn(u32, u32, u64) -> u64, A: Fn(u64, u64) -> u64>(
    index: BM25Okapi,
    terms: Seq<(usize, u64)>,
    scorer: Scorer<T, A>,
    scores: Seq<u64>,
    doc_ids: Seq<usize>,
    chosen: Seq<u64>,
)
    requires
        scorer.deterministic(),
        index.scores_all(terms, scorer, scores),
        chosen.len() == doc_ids.len(),
        forall|i: int|
            0 <= i < doc_ids.len() ==> #[trigger] doc_ids[i] < index.docs().len(),
        forall|i: int|
            0 <= i < chosen.len() ==> scorer.sums(
                index.parts(terms)(doc_ids[i] as int),
                #[trigger] chosen[i],
            ),
    ensures
        forall|i: int| 0 <= i < chosen.len() ==> #[trigger] chosen[i] == scores[doc_ids[i] as int],
{
    assert forall|i: int| 0 <= i < chosen.len() implies #[trigger] chosen[i]
        == scores[doc_ids[i] as int] by {
        let d = doc_ids[i] as int;
        assert(doc_ids[i] < index.docs().len());
        assert(scorer.sums(index.parts(terms)(d), scores[d]));
        scorer.lemma_accumulates_unique(ZERO, index.parts(terms)(d), chosen[i], scores[d]);
    }
}

/// The number of documents that is meant by a number that may be missing.
pub open spec fn asked_for(n: Option<usize>) -> nat {
    match n {
        Some(k) => k as nat,
        None => DEFAULT_TOP as nat,
    }
}

/// The best documents of an index are as many as were asked for, or five if no number is given, or
/// all if there are fewer. None is listed twice, and each comes with its score among those of all
/// documents. This holds whatever the scores are.
pub proof fn top_scores_match_all_scores<T: Fn(u32, u32, u64) -> u64, A: Fn(u64, u64) -> u64>(
    index: BM25Okapi,
    query: Seq<Seq<char>>,
    n: Option<usize>,
    scorer: Scorer<T, A>,
    scores: Seq<u64>,
    top: Seq<(usize, u64)>,
)
    requires
        scorer.deterministic(),
        index.docs().len() <= usize::MAX,
        index.scores_all(index.terms(query), scorer, scores),
        index.is_top_n(query, n, scorer, top),
    ensures
        top.len() == if asked_for(n) < scores.len() {
            asked_for(n)
        } else {
            scores.len()
        },
        distinct_documents(top),
        forall|i: int|
            0 <= i < top.len() ==> (#[trigger] top[i]).0 < scores.len() && top[i].1
                == scores[top[i].0 as int],
{
    if asked_for(n) > 0 {
        let parts = index.parts(index.terms(query));
        best_list_carries_scores(parts, scorer, scores, asked_for(n), top);
    }
}

/// Where all scores are numbers and none is below zero, the best documents of an index are those
/// with the highest scores of all: as many as were asked for, or five if no number is given.
pub proof fn top_n_has_highest_scores<T: Fn(u32, u32, u64) -> u64, A: Fn(u64, u64) -> u64>(
    index: BM25Okapi,
    query: Seq<Seq<char>>,
    n: Option<usize>,
    scorer: Scorer<T, A>,
    scores: Seq<u64>,
    top: Seq<(usize, u64)>,
)
    requires
        scorer.deterministic(),
        index.docs().len() <= usize::MAX,
        index.scores_all(index.terms(query), scorer, scores),
        forall|d: int|
            0 <= d < scores.len() ==> !is_nan(#[trigger] scores[d]) && rank(scores[d]) >= 0,
        index.is_top_n(query, n, scorer, top),
    ensures
        selects_best(scores, asked_for(n), top.map_values(|entry: (usize, u64)| entry.0)),
{
    let parts = index.parts(index.terms(query));
    if asked_for(n) > 0 {
        top_has_highest_scores(parts, scorer, scores, asked_for(n), top);
    }
}

} // verus!
