//! What two indexes, or two ways of asking, have in common.
use crate::bm25okapi::{gives_tokens, tokens_are_determined, BM25Okapi};
use crate::collections::{counts_of, postings_of, texts};
use crate::idf::{floors, weighs};
use crate::index::{doc_counts, representable, BuiltIndex, IndexView};
use crate::interning::{interned, lemma_interned_contains, mentions};
use crate::laws::{
    asked_for, can_rank, counts_are_occurrences, document_frequencies_are_occurrences,
    joined_query_has_parts_of_both, joined_query_has_postings_of_both, lemma_documents_with,
    lemma_interned_strings, numbering_makes_no_difference, query_terms_are_independent,
    same_weight, scores_are_determined, shorter_top_is_prefix,
};
use crate::model::{
    document_frequencies, documents_with, encoded, held, histogram, lemma_holders, posting_list,
    symbol_of, term_postings, times,
};
use crate::optimizations::scores_single;
use crate::score::{is_nan, is_negative, rank, Part, Scorer, ZERO};
use crate::scoring::{direct_parts, inverted_parts, scores_inverted};
use crate::tokenization::document_tokens;
use vstd::prelude::*;

verus! {

// ---------------------------------------------------------------------------------------------
// What an index says of a term
// ---------------------------------------------------------------------------------------------

/// The number that a map from symbols holds for a term, which is zero where it holds none.
pub open spec fn number_for(
    strings: Seq<Seq<char>>,
    numbers: Map<usize, u32>,
    term: Seq<char>,
) -> nat {
    if strings.contains(term) && numbers.contains_key(symbol_of(strings, term)) {
        numbers[symbol_of(strings, term)] as nat
    } else {
        0
    }
}

/// The posting list that an inverted index holds for a term, which is empty where it holds none.
pub open spec fn postings_for(
    strings: Seq<Seq<char>>,
    postings: Map<usize, Seq<(u32, u32)>>,
    term: Seq<char>,
) -> Seq<(u32, u32)> {
    if strings.contains(term) && postings.contains_key(symbol_of(strings, term)) {
        postings[symbol_of(strings, term)]
    } else {
        Seq::empty()
    }
}

/// What an index holds for a term is what the corpus says of it, whatever symbol the term has and
/// whatever else is interned.
pub proof fn index_speaks_of_terms(
    built: BuiltIndex,
    corpus: Seq<Seq<Seq<char>>>,
    known: Seq<Seq<char>>,
    strings: Seq<Seq<char>>,
    term: Seq<char>,
)
    requires
        representable(corpus, known),
        interned(known, corpus, strings),
        strings.len() <= usize::MAX,
        built.describes(corpus, strings),
    ensures
        number_for(strings, counts_of(built.nd), term) == documents_with(corpus, term),
        postings_for(strings, postings_of(built.inverted), term) == term_postings(corpus, term),
        forall|d: int|
            0 <= d < corpus.len() ==> number_for(
                strings,
                #[trigger] doc_counts(built.doc_freqs@)[d],
                term,
            ) == times(corpus[d], term),
{
    let docs = doc_counts(built.doc_freqs@);
    let symbol = symbol_of(strings, term);
    assert forall|d: int, j: int|
        0 <= d < corpus.len() && 0 <= j < corpus[d].len() implies strings.contains(
        #[trigger] corpus[d][j],
    ) by {
        lemma_interned_contains(known, corpus, strings, d, j);
    }
    if strings.contains(term) {
        lemma_documents_with(strings, corpus, docs, term);
        lemma_posting_list(strings, corpus, docs, term);
        lemma_holders(docs, symbol);
        if !held(docs, symbol) {
            assert(posting_list(docs, symbol) =~= Seq::empty());
        }
    } else {
        assert(!mentions(corpus, term)) by {
            if mentions(corpus, term) {
                let d = choose|d: int|
                    0 <= d < corpus.len() && (#[trigger] corpus[d]).contains(term);
                assert(strings.contains(corpus[d][corpus[d].index_of(term)]));
            }
        }
        lemma_not_mentioned(corpus, term);
    }
    assert forall|d: int| 0 <= d < corpus.len() implies number_for(
        strings,
        #[trigger] docs[d],
        term,
    ) == times(corpus[d], term) by {
        assert(docs[d] == histogram(encoded(strings, corpus[d])));
        assert(corpus[d].len() <= u32::MAX);
        lemma_times_positive(corpus[d], term);
        if strings.contains(term) {
            assert forall|j: int| 0 <= j < corpus[d].len() implies strings.contains(
                #[trigger] corpus[d][j],
            ) by {}
            counts_are_occurrences(strings, corpus[d], term);
        } else {
            assert(!corpus[d].contains(term));
        }
    }
}

/// A term occurs in a document if and only if it does so at least once.
pub(crate) proof fn lemma_times_positive(doc: Seq<Seq<char>>, term: Seq<char>)
    ensures
        times(doc, term) > 0 <==> doc.contains(term),
        times(doc, term) <= doc.len(),
    decreases doc.len(),
{
    if doc.len() > 0 {
        let before = doc.drop_last();
        lemma_times_positive(before, term);
        if before.contains(term) {
            assert(doc[before.index_of(term)] == term);
        }
        if doc.last() == term {
            assert(doc[doc.len() - 1] == term);
        }
        if doc.contains(term) && doc.last() != term {
            assert(before[doc.index_of(term)] == term);
        }
    }
}

/// A term that occurs nowhere has no documents.
proof fn lemma_not_mentioned(corpus: Seq<Seq<Seq<char>>>, term: Seq<char>)
    requires
        !mentions(corpus, term),
    ensures
        documents_with(corpus, term) == 0,
        term_postings(corpus, term) == Seq::<(u32, u32)>::empty(),
    decreases corpus.len(),
{
    if corpus.len() > 0 {
        let fewer = corpus.drop_last();
        assert(!corpus[corpus.len() - 1].contains(term));
        assert(!mentions(fewer, term)) by {
            if mentions(fewer, term) {
                let d = choose|d: int| 0 <= d < fewer.len() && (#[trigger] fewer[d]).contains(term);
                assert(corpus[d].contains(term));
            }
        }
        lemma_not_mentioned(fewer, term);
    }
}

/// The posting list of a symbol is that of its term.
proof fn lemma_posting_list(
    strings: Seq<Seq<char>>,
    corpus: Seq<Seq<Seq<char>>>,
    docs: Seq<Map<usize, u32>>,
    term: Seq<char>,
)
    requires
        strings.len() <= usize::MAX,
        strings.contains(term),
        docs.len() == corpus.len(),
        forall|d: int|
            0 <= d < corpus.len() ==> #[trigger] docs[d] == histogram(encoded(strings, corpus[d])),
        forall|d: int| 0 <= d < corpus.len() ==> (#[trigger] corpus[d]).len() <= u32::MAX,
        forall|d: int, j: int|
            0 <= d < corpus.len() && 0 <= j < corpus[d].len() ==> strings.contains(
                #[trigger] corpus[d][j],
            ),
    ensures
        posting_list(docs, symbol_of(strings, term)) == term_postings(corpus, term),
    decreases corpus.len(),
{
    if corpus.len() > 0 {
        let last = corpus.len() - 1;
        let fewer = corpus.drop_last();
        assert forall|d: int, j: int|
            0 <= d < fewer.len() && 0 <= j < fewer[d].len() implies strings.contains(
            #[trigger] fewer[d][j],
        ) by {
            assert(strings.contains(corpus[d][j]));
        }
        assert forall|d: int| 0 <= d < fewer.len() implies (#[trigger] fewer[d]).len()
            <= u32::MAX by {
            assert(fewer[d] == corpus[d]);
        }
        lemma_posting_list(strings, fewer, docs.drop_last(), term);
        assert forall|j: int| 0 <= j < corpus[last].len() implies strings.contains(
            #[trigger] corpus[last][j],
        ) by {}
        assert(corpus[last].len() <= u32::MAX);
        counts_are_occurrences(strings, corpus[last], term);
        assert(docs[last] == histogram(encoded(strings, corpus[last])));
    }
}

/// One more document at the end of a corpus: the document count of each of its terms rises by one,
/// its postings come last in their lists, its length comes last, and all else stays. The two
/// indexes may give the terms different symbols, and their interners may have held other strings
/// before.
pub proof fn one_more_document(
    corpus: Seq<Seq<Seq<char>>>,
    doc: Seq<Seq<char>>,
    before: BuiltIndex,
    known_before: Seq<Seq<char>>,
    strings_before: Seq<Seq<char>>,
    after: BuiltIndex,
    known_after: Seq<Seq<char>>,
    strings_after: Seq<Seq<char>>,
    term: Seq<char>,
)
    requires
        representable(corpus, known_before),
        interned(known_before, corpus, strings_before),
        strings_before.len() <= usize::MAX,
        before.describes(corpus, strings_before),
        representable(corpus.push(doc), known_after),
        interned(known_after, corpus.push(doc), strings_after),
        strings_after.len() <= usize::MAX,
        after.describes(corpus.push(doc), strings_after),
    ensures
        number_for(strings_after, counts_of(after.nd), term) == number_for(
            strings_before,
            counts_of(before.nd),
            term,
        ) + if times(doc, term) > 0 {
            1nat
        } else {
            0nat
        },
        postings_for(strings_after, postings_of(after.inverted), term) == postings_for(
            strings_before,
            postings_of(before.inverted),
            term,
        ) + if times(doc, term) > 0 {
            seq![(corpus.len() as u32, times(doc, term) as u32)]
        } else {
            Seq::empty()
        },
        forall|d: int|
            0 <= d < corpus.len() ==> number_for(
                strings_after,
                #[trigger] doc_counts(after.doc_freqs@)[d],
                term,
            ) == number_for(strings_before, doc_counts(before.doc_freqs@)[d], term),
        number_for(strings_after, doc_counts(after.doc_freqs@)[corpus.len() as int], term)
            == times(doc, term),
        after.doc_len@ == before.doc_len@.push(doc.len() as u32),
        after.total_len == before.total_len + doc.len(),
        after.corpus_size == before.corpus_size + 1,
{
    let longer = corpus.push(doc);
    index_speaks_of_terms(before, corpus, known_before, strings_before, term);
    index_speaks_of_terms(after, longer, known_after, strings_after, term);
    lemma_times_positive(doc, term);
    assert(longer.drop_last() =~= corpus);
    assert(longer.last() == doc);
    let list = term_postings(corpus, term);
    if times(doc, term) > 0 {
        let posting = (corpus.len() as u32, times(doc, term) as u32);
        assert(list.push(posting) =~= list + seq![posting]);
    } else {
        assert(list + Seq::<(u32, u32)>::empty() =~= list);
    }
    assert forall|d: int| 0 <= d < corpus.len() implies number_for(
        strings_after,
        #[trigger] doc_counts(after.doc_freqs@)[d],
        term,
    ) == number_for(strings_before, doc_counts(before.doc_freqs@)[d], term) by {
        assert(longer[d] == corpus[d]);
    }
    assert(longer[corpus.len() as int] == doc);
    assert(after.doc_len@ =~= before.doc_len@.push(doc.len() as u32));
}

// ---------------------------------------------------------------------------------------------
// Joined queries
// ---------------------------------------------------------------------------------------------

/// The scores of a query in two halves are those of the first half, to which what the documents
/// hold of the second half is added.
pub proof fn joined_query_continues_scores<
    T: Fn(u32, u32, u64) -> u64,
    A: Fn(u64, u64) -> u64,
>(
    index: BM25Okapi,
    x: Seq<Seq<char>>,
    y: Seq<Seq<char>>,
    scorer: Scorer<T, A>,
    scores_x: Seq<u64>,
    scores: Seq<u64>,
)
    requires
        scorer.deterministic(),
        index.scores_all(index.terms(x), scorer, scores_x),
        index.scores_all(index.terms(x + y), scorer, scores),
    ensures
        forall|d: int|
            0 <= d < scores.len() ==> scorer.accumulates(
                scores_x[d],
                index.parts(index.terms(y))(d),
                #[trigger] scores[d],
            ),
{
    query_terms_are_independent(x, y, index.strings(), index.weights());
    assert forall|d: int| 0 <= d < scores.len() implies scorer.accumulates(
        scores_x[d],
        index.parts(index.terms(y))(d),
        #[trigger] scores[d],
    ) by {
        let first = index.parts(index.terms(x))(d);
        let second = index.parts(index.terms(y))(d);
        joined_query_has_parts_of_both(
            index.docs()[d],
            index.lengths()[d],
            index.terms(x),
            index.terms(y),
        );
        assert(scorer.sums(first + second, scores[d]));
        let mid = scorer.lemma_accumulates_split(ZERO, first, second, scores[d]);
        assert(scorer.sums(first, scores_x[d]));
        scorer.lemma_accumulates_unique(ZERO, first, mid, scores_x[d]);
    }
}

/// The scorer adds without rounding: as `plus` does, for which the order of additions makes no
/// difference and which has zero as its neutral element.
pub open spec fn adds_exactly<T: Fn(u32, u32, u64) -> u64, A: Fn(u64, u64) -> u64>(
    scorer: Scorer<T, A>,
    plus: spec_fn(u64, u64) -> u64,
) -> bool {
    &&& forall|a: u64, b: u64, sum: u64| #[trigger]
        call_ensures(scorer.add, (a, b), sum) ==> sum == plus(a, b)
    &&& forall|a: u64, b: u64, c: u64| #[trigger] associates(plus, a, b, c)
    &&& forall|a: u64, b: u64| #[trigger] commutes(plus, a, b)
    &&& forall|a: u64| #[trigger] plus(a, ZERO) == a
}

/// The sum of three numbers is the same, whichever two are added first.
pub open spec fn associates(plus: spec_fn(u64, u64) -> u64, a: u64, b: u64, c: u64) -> bool {
    plus(plus(a, b), c) == plus(a, plus(b, c))
}

/// The sum of two numbers is the same, whichever comes first.
pub open spec fn commutes(plus: spec_fn(u64, u64) -> u64, a: u64, b: u64) -> bool {
    plus(a, b) == plus(b, a)
}

/// Adding parts to a score adds their sum to it.
proof fn lemma_adds_sum<T: Fn(u32, u32, u64) -> u64, A: Fn(u64, u64) -> u64>(
    scorer: Scorer<T, A>,
    plus: spec_fn(u64, u64) -> u64,
    before: u64,
    parts: Seq<Part>,
    after: u64,
    sum: u64,
)
    requires
        scorer.deterministic(),
        adds_exactly(scorer, plus),
        scorer.accumulates(before, parts, after),
        scorer.sums(parts, sum),
    ensures
        after == plus(before, sum),
    decreases parts.len(),
{
    if parts.len() == 0 {
        assert(parts =~= Seq::empty());
        scorer.lemma_accumulates_none(before);
        scorer.lemma_accumulates_none(ZERO);
        scorer.lemma_accumulates_unique(before, parts, after, before);
        scorer.lemma_accumulates_unique(ZERO, parts, sum, ZERO);
    } else {
        let earlier = parts.drop_last();
        let part = parts.last();
        assert(parts =~= earlier + seq![part]);
        let mid = scorer.lemma_accumulates_split(before, earlier, seq![part], after);
        let mid_sum = scorer.lemma_accumulates_split(ZERO, earlier, seq![part], sum);
        scorer.lemma_accumulates_one(mid, part, after);
        scorer.lemma_accumulates_one(mid_sum, part, sum);
        lemma_adds_sum(scorer, plus, before, earlier, mid, mid_sum);
        let x = choose|x: u64| #[trigger]
            call_ensures(scorer.term, part, x) && call_ensures(scorer.add, (mid, x), after);
        let y = choose|y: u64| #[trigger]
            call_ensures(scorer.term, part, y) && call_ensures(scorer.add, (mid_sum, y), sum);
        assert(x == y);
        assert(after == plus(plus(before, mid_sum), x));
        assert(sum == plus(mid_sum, x));
        assert(associates(plus, before, mid_sum, x));
    }
}

/// Where addition does not round, the scores of a query in two halves are the sums of the scores of
/// the halves. So a term counts once for every time it stands in a query.
pub proof fn joined_query_adds_scores<T: Fn(u32, u32, u64) -> u64, A: Fn(u64, u64) -> u64>(
    index: BM25Okapi,
    x: Seq<Seq<char>>,
    y: Seq<Seq<char>>,
    scorer: Scorer<T, A>,
    plus: spec_fn(u64, u64) -> u64,
    scores_x: Seq<u64>,
    scores_y: Seq<u64>,
    scores: Seq<u64>,
)
    requires
        scorer.deterministic(),
        adds_exactly(scorer, plus),
        index.scores_all(index.terms(x), scorer, scores_x),
        index.scores_all(index.terms(y), scorer, scores_y),
        index.scores_all(index.terms(x + y), scorer, scores),
    ensures
        forall|d: int|
            0 <= d < scores.len() ==> #[trigger] scores[d] == plus(scores_x[d], scores_y[d]),
{
    joined_query_continues_scores(index, x, y, scorer, scores_x, scores);
    assert forall|d: int| 0 <= d < scores.len() implies #[trigger] scores[d] == plus(
        scores_x[d],
        scores_y[d],
    ) by {
        let parts = index.parts(index.terms(y))(d);
        assert(scorer.sums(parts, scores_y[d]));
        assert(scorer.accumulates(scores_x[d], parts, scores[d]));
        lemma_adds_sum(scorer, plus, scores_x[d], parts, scores[d], scores_y[d]);
    }
}

/// Where addition does not round, it makes no difference which half of a query comes first.
pub proof fn query_order_makes_no_difference<
    T: Fn(u32, u32, u64) -> u64,
    A: Fn(u64, u64) -> u64,
>(
    index: BM25Okapi,
    x: Seq<Seq<char>>,
    y: Seq<Seq<char>>,
    scorer: Scorer<T, A>,
    plus: spec_fn(u64, u64) -> u64,
    scores_x: Seq<u64>,
    scores_y: Seq<u64>,
    scores: Seq<u64>,
    swapped: Seq<u64>,
)
    requires
        scorer.deterministic(),
        adds_exactly(scorer, plus),
        index.scores_all(index.terms(x), scorer, scores_x),
        index.scores_all(index.terms(y), scorer, scores_y),
        index.scores_all(index.terms(x + y), scorer, scores),
        index.scores_all(index.terms(y + x), scorer, swapped),
    ensures
        scores == swapped,
{
    joined_query_adds_scores(index, x, y, scorer, plus, scores_x, scores_y, scores);
    joined_query_adds_scores(index, y, x, scorer, plus, scores_y, scores_x, swapped);
    assert forall|d: int| 0 <= d < scores.len() implies #[trigger] scores[d] == swapped[d] by {
        assert(commutes(plus, scores_x[d], scores_y[d]));
    }
    assert(scores =~= swapped);
}

/// The scores that the posting lists give for two lists of terms together are those for the first,
/// to which what they hold of the second is added.
pub proof fn joined_terms_continue_scores<T: Fn(u32, u32, u64) -> u64, A: Fn(u64, u64) -> u64>(
    index: IndexView<'_>,
    x: Seq<(usize, u64)>,
    y: Seq<(usize, u64)>,
    scorer: Scorer<T, A>,
    scores_x: Seq<u64>,
    scores: Seq<u64>,
)
    requires
        scorer.deterministic(),
        scores_inverted(index, x, scorer, scores_x),
        scores_inverted(index, x + y, scorer, scores),
    ensures
        forall|d: int|
            0 <= d < scores.len() ==> scorer.accumulates(
                scores_x[d],
                inverted_parts(index.postings(), index.doc_len@[d], y, d),
                #[trigger] scores[d],
            ),
{
    assert forall|d: int| 0 <= d < scores.len() implies scorer.accumulates(
        scores_x[d],
        inverted_parts(index.postings(), index.doc_len@[d], y, d),
        #[trigger] scores[d],
    ) by {
        let dl = index.doc_len@[d];
        let first = inverted_parts(index.postings(), dl, x, d);
        let second = inverted_parts(index.postings(), dl, y, d);
        joined_query_has_postings_of_both(index.postings(), dl, x, y, d);
        assert(scorer.sums(first + second, scores[d]));
        let mid = scorer.lemma_accumulates_split(ZERO, first, second, scores[d]);
        assert(scorer.sums(first, scores_x[d]));
        scorer.lemma_accumulates_unique(ZERO, first, mid, scores_x[d]);
    }
}

/// Where addition does not round, the scores that the posting lists give for two lists of terms
/// together are the sums of the scores for each. So a term counts once for every time it is listed.
pub proof fn joined_terms_add_scores<T: Fn(u32, u32, u64) -> u64, A: Fn(u64, u64) -> u64>(
    index: IndexView<'_>,
    x: Seq<(usize, u64)>,
    y: Seq<(usize, u64)>,
    scorer: Scorer<T, A>,
    plus: spec_fn(u64, u64) -> u64,
    scores_x: Seq<u64>,
    scores_y: Seq<u64>,
    scores: Seq<u64>,
)
    requires
        scorer.deterministic(),
        adds_exactly(scorer, plus),
        scores_inverted(index, x, scorer, scores_x),
        scores_inverted(index, y, scorer, scores_y),
        scores_inverted(index, x + y, scorer, scores),
    ensures
        forall|d: int|
            0 <= d < scores.len() ==> #[trigger] scores[d] == plus(scores_x[d], scores_y[d]),
{
    joined_terms_continue_scores(index, x, y, scorer, scores_x, scores);
    assert forall|d: int| 0 <= d < scores.len() implies #[trigger] scores[d] == plus(
        scores_x[d],
        scores_y[d],
    ) by {
        let parts = inverted_parts(index.postings(), index.doc_len@[d], y, d);
        assert(scorer.sums(parts, scores_y[d]));
        assert(scorer.accumulates(scores_x[d], parts, scores[d]));
        lemma_adds_sum(scorer, plus, scores_x[d], parts, scores[d], scores_y[d]);
    }
}

/// Where addition does not round, it makes no difference to the scores that the posting lists give
/// which of two lists of terms comes first.
pub proof fn term_order_makes_no_difference<
    T: Fn(u32, u32, u64) -> u64,
    A: Fn(u64, u64) -> u64,
>(
    index: IndexView<'_>,
    x: Seq<(usize, u64)>,
    y: Seq<(usize, u64)>,
    scorer: Scorer<T, A>,
    plus: spec_fn(u64, u64) -> u64,
    scores_x: Seq<u64>,
    scores_y: Seq<u64>,
    scores: Seq<u64>,
    swapped: Seq<u64>,
)
    requires
        scorer.deterministic(),
        adds_exactly(scorer, plus),
        scores_inverted(index, x, scorer, scores_x),
        scores_inverted(index, y, scorer, scores_y),
        scores_inverted(index, x + y, scorer, scores),
        scores_inverted(index, y + x, scorer, swapped),
    ensures
        scores == swapped,
{
    joined_terms_add_scores(index, x, y, scorer, plus, scores_x, scores_y, scores);
    joined_terms_add_scores(index, y, x, scorer, plus, scores_y, scores_x, swapped);
    assert forall|d: int| 0 <= d < scores.len() implies #[trigger] scores[d] == swapped[d] by {
        assert(commutes(plus, scores_x[d], scores_y[d]));
    }
    assert(scores =~= swapped);
}

// ---------------------------------------------------------------------------------------------
// One document
// ---------------------------------------------------------------------------------------------

/// A document that is scored by itself gets the score that it gets among chosen documents, but for
/// a single term that occurs in it: there, the one is the contribution of the term, and the other
/// is that contribution added to zero. So the two are equal numbers wherever adding a number to
/// zero gives an equal number.
pub proof fn single_score_matches_chosen_score<
    T: Fn(u32, u32, u64) -> u64,
    A: Fn(u64, u64) -> u64,
>(
    scorer: Scorer<T, A>,
    counts: Map<usize, u32>,
    dl: u32,
    terms: Seq<(usize, u64)>,
    single: u64,
    chosen: u64,
)
    requires
        scorer.deterministic(),
        scores_single(scorer, counts, dl, terms, single),
        scorer.sums(direct_parts(counts, dl, terms), chosen),
    ensures
        terms.len() != 1 || !counts.contains_key(terms[0].0) ==> single == chosen,
        terms.len() == 1 && counts.contains_key(terms[0].0) ==> call_ensures(
            scorer.add,
            (ZERO, single),
            chosen,
        ),
        (forall|x: u64, sum: u64| #[trigger]
            call_ensures(scorer.add, (ZERO, x), sum) ==> sum == x) ==> single == chosen,
        (forall|x: u64, sum: u64| #[trigger]
            call_ensures(scorer.add, (ZERO, x), sum) && !is_nan(x) ==> rank(sum) == rank(x))
            && !is_nan(single) ==> rank(single) == rank(chosen),
{
    let parts = direct_parts(counts, dl, terms);
    if terms.len() != 1 {
        scorer.lemma_accumulates_unique(ZERO, parts, single, chosen);
    } else {
        assert(direct_parts(counts, dl, terms.drop_last()) =~= Seq::empty());
        assert(terms.last() == terms[0]);
        if counts.contains_key(terms[0].0) {
            let part = (counts[terms[0].0], dl, terms[0].1);
            assert(parts =~= seq![part]);
            scorer.lemma_accumulates_one(ZERO, part, chosen);
            let x = choose|x: u64| #[trigger]
                call_ensures(scorer.term, part, x) && call_ensures(scorer.add, (ZERO, x), chosen);
            assert(x == single);
        } else {
            assert(parts =~= Seq::empty());
            scorer.lemma_accumulates_none(ZERO);
            scorer.lemma_accumulates_unique(ZERO, parts, chosen, ZERO);
        }
    }
}

// ---------------------------------------------------------------------------------------------
// Two indexes of the same tokens
// ---------------------------------------------------------------------------------------------

/// The formula gives the same weight whenever it is given the same numbers.
pub open spec fn weighs_alike<I: Fn(u32, usize) -> u64>(idf: I) -> bool {
    forall|numbers: (u32, usize), x: u64, y: u64| #[trigger]
        call_ensures(idf, numbers, x) && #[trigger] call_ensures(idf, numbers, y) ==> x == y
}

/// The floor does not depend on the order of the weights that it is computed from.
pub open spec fn ignores_order<L: Fn(&Vec<u64>) -> u64>(floor_of: L) -> bool {
    forall|v: Vec<u64>, w: Vec<u64>, x: u64, y: u64| #[trigger]
        call_ensures(floor_of, (&v,), x) && #[trigger] call_ensures(floor_of, (&w,), y)
            && v@.to_multiset() == w@.to_multiset() ==> x == y
}

/// Mapping the items of two arrangements gives two arrangements.
pub(crate) proof fn lemma_map_multiset<V, W>(x: Seq<V>, y: Seq<V>, f: spec_fn(V) -> W)
    requires
        x.to_multiset() == y.to_multiset(),
    ensures
        x.map_values(f).to_multiset() == y.map_values(f).to_multiset(),
    decreases x.len(),
{
    x.to_multiset_ensures();
    y.to_multiset_ensures();
    if x.len() == 0 {
        assert(x.map_values(f) =~= y.map_values(f));
    } else {
        let item = x.last();
        let fewer = x.drop_last();
        assert(x.contains(item));
        assert(y.to_multiset().count(item) > 0);
        assert(y.contains(item));
        let at = y.index_of(item);
        let rest = y.remove(at);
        assert(x =~= fewer.push(item));
        fewer.to_multiset_ensures();
        assert(rest.insert(at, item) =~= y);
        vstd::seq_lib::to_multiset_insert(rest, at, item);
        assert(fewer.to_multiset() =~= x.to_multiset().remove(item));
        assert(rest.to_multiset() =~= y.to_multiset().remove(item));
        lemma_map_multiset(fewer, rest, f);
        assert(x.map_values(f) =~= fewer.map_values(f).push(f(item)));
        assert(y.map_values(f) =~= rest.map_values(f).insert(at, f(item)));
        fewer.map_values(f).to_multiset_ensures();
        vstd::seq_lib::to_multiset_insert(rest.map_values(f), at, f(item));
        assert(x.map_values(f).to_multiset() =~= y.map_values(f).to_multiset());
    }
}

/// Two lists without duplicates that hold the same items are arrangements of each other.
pub(crate) proof fn lemma_same_members<V>(x: Seq<V>, y: Seq<V>)
    requires
        x.no_duplicates(),
        y.no_duplicates(),
        forall|item: V| #[trigger] x.contains(item) <==> y.contains(item),
    ensures
        x.to_multiset() == y.to_multiset(),
{
    x.to_multiset_ensures();
    y.to_multiset_ensures();
    x.lemma_multiset_has_no_duplicates();
    y.lemma_multiset_has_no_duplicates();
    assert forall|item: V| #[trigger] x.to_multiset().count(item) == y.to_multiset().count(
        item,
    ) by {
        assert(x.contains(item) <==> x.to_multiset().count(item) > 0);
        assert(y.contains(item) <==> y.to_multiset().count(item) > 0);
        if x.contains(item) {
            assert(x.to_multiset().contains(item) && y.to_multiset().contains(item));
        }
    }
    assert(x.to_multiset() =~= y.to_multiset());
}

/// The symbols that occur in documents are those of the terms.
pub(crate) proof fn lemma_held_symbol(
    corpus: Seq<Seq<Seq<char>>>,
    strings: Seq<Seq<char>>,
    docs: Seq<Map<usize, u32>>,
    symbol: usize,
)
    requires
        representable(corpus, Seq::<Seq<char>>::empty()),
        interned(Seq::<Seq<char>>::empty(), corpus, strings),
        docs == corpus.map_values(|doc: Seq<Seq<char>>| histogram(encoded(strings, doc))),
        held(docs, symbol),
    ensures
        symbol < strings.len(),
        mentions(corpus, strings[symbol as int]),
        symbol_of(strings, strings[symbol as int]) == symbol,
{
    lemma_interned_strings(corpus, strings);
    let d = choose|d: int| 0 <= d < docs.len() && (#[trigger] docs[d]).contains_key(symbol);
    let symbols = encoded(strings, corpus[d]);
    assert(symbols.contains(symbol));
    let j = symbols.index_of(symbol);
    let term = corpus[d][j];
    assert(symbols[j] == symbol_of(strings, term));
    assert(strings.contains(term));
    assert(strings[strings.index_of(term)] == term);
    assert(strings.contains(strings[symbol as int]));
}

/// The document frequency of a term, and the symbol under which an index holds it.
pub(crate) proof fn lemma_frequency(
    corpus: Seq<Seq<Seq<char>>>,
    strings: Seq<Seq<char>>,
    docs: Seq<Map<usize, u32>>,
    term: Seq<char>,
)
    requires
        representable(corpus, Seq::<Seq<char>>::empty()),
        interned(Seq::<Seq<char>>::empty(), corpus, strings),
        docs == corpus.map_values(|doc: Seq<Seq<char>>| histogram(encoded(strings, doc))),
        mentions(corpus, term),
    ensures
        document_frequencies(docs).contains_key(symbol_of(strings, term)),
        document_frequencies(docs)[symbol_of(strings, term)] == documents_with(corpus, term),
{
    lemma_interned_strings(corpus, strings);
    document_frequencies_are_occurrences(strings, corpus, term);
    let d = choose|d: int| 0 <= d < corpus.len() && (#[trigger] corpus[d]).contains(term);
    assert(strings.contains(term));
    counts_are_occurrences(strings, corpus[d], term);
    assert(docs[d].contains_key(symbol_of(strings, term)));
}

/// The values of the symbols, in any order, are those of the terms in some order.
pub(crate) proof fn lemma_values_by_term(
    corpus: Seq<Seq<Seq<char>>>,
    strings: Seq<Seq<char>>,
    docs: Seq<Map<usize, u32>>,
    raw: Map<usize, u64>,
    order: Seq<usize>,
    by_term: spec_fn(Seq<char>) -> u64,
) -> (names: Seq<Seq<char>>)
    requires
        representable(corpus, Seq::<Seq<char>>::empty()),
        interned(Seq::<Seq<char>>::empty(), corpus, strings),
        docs == corpus.map_values(|doc: Seq<Seq<char>>| histogram(encoded(strings, doc))),
        order.no_duplicates(),
        order.to_set() == document_frequencies(docs).dom(),
        forall|term: Seq<char>| #[trigger]
            mentions(corpus, term) ==> raw[symbol_of(strings, term)] == by_term(term),
    ensures
        names.no_duplicates(),
        forall|term: Seq<char>| #[trigger] names.contains(term) <==> mentions(corpus, term),
        order.map_values(|symbol: usize| raw[symbol]) == names.map_values(by_term),
{
    let names = order.map_values(|symbol: usize| strings[symbol as int]);
    lemma_interned_strings(corpus, strings);
    assert forall|i: int| 0 <= i < order.len() implies {
        let symbol = #[trigger] order[i];
        &&& symbol < strings.len()
        &&& mentions(corpus, strings[symbol as int])
        &&& symbol_of(strings, strings[symbol as int]) == symbol
    } by {
        assert(order.to_set().contains(order[i]));
        lemma_held_symbol(corpus, strings, docs, order[i]);
    }
    assert(names.no_duplicates()) by {
        assert forall|i: int, j: int|
            0 <= i < names.len() && 0 <= j < names.len() && i != j implies names[i]
            != names[j] by {
            assert(order[i] != order[j]);
        }
    }
    assert forall|term: Seq<char>| #[trigger] names.contains(term) <==> mentions(corpus, term) by {
        if names.contains(term) {
            let i = names.index_of(term);
            assert(strings[order[i] as int] == term);
        }
        if mentions(corpus, term) {
            lemma_frequency(corpus, strings, docs, term);
            let symbol = symbol_of(strings, term);
            assert(order.to_set().contains(symbol));
            let i = order.index_of(symbol);
            assert(strings.contains(term));
            assert(strings[strings.index_of(term)] == term);
            assert(names[i] == term);
        }
    }
    assert(order.map_values(|symbol: usize| raw[symbol]) =~= names.map_values(by_term)) by {
        assert forall|i: int| 0 <= i < order.len() implies raw[order[i]] == by_term(names[i]) by {
            assert(mentions(corpus, names[i]));
        }
    }
    names
}

/// No term of the query that the index knows has a negative weight before the floor is applied.
pub open spec fn unfloored<I: Fn(u32, usize) -> u64>(
    index: BM25Okapi,
    idf: I,
    query: Seq<Seq<char>>,
) -> bool {
    forall|term: Seq<char>, weight: u64|
        #![trigger query.contains(term), is_negative(weight)]
        query.contains(term) && index.strings().contains(term) && call_ensures(
            idf,
            (
                document_frequencies(index.docs())[symbol_of(index.strings(), term)],
                index.docs().len() as usize,
            ),
            weight,
        ) ==> !is_negative(weight)
}

/// Two indexes of the same tokens give the terms of a query the same weights, if the floor does not
/// depend on the order of the weights, or if no term of the query needs the floor.
pub proof fn same_tokens_same_weights<I: Fn(u32, usize) -> u64, L: Fn(&Vec<u64>) -> u64>(
    x: BM25Okapi,
    y: BM25Okapi,
    tokens: Seq<Seq<Seq<char>>>,
    idf: I,
    floor_of: L,
    query: Seq<Seq<char>>,
)
    requires
        weighs_alike(idf),
        ignores_order(floor_of) || unfloored(x, idf, query),
        representable(tokens, Seq::<Seq<char>>::empty()),
        x.describes(tokens, idf, floor_of),
        y.describes(tokens, idf, floor_of),
    ensures
        forall|term: Seq<char>| #[trigger]
            query.contains(term) && mentions(tokens, term) ==> same_weight(
                term,
                x.strings(),
                x.weights(),
                y.strings(),
                y.weights(),
            ),
{
    let size = tokens.len() as usize;
    let nd_x = document_frequencies(x.docs());
    let nd_y = document_frequencies(y.docs());
    let (raw_x, floor_x) = choose|raw: Map<usize, u64>, floor: u64|
        weighs(nd_x, x.docs().len() as usize, idf, raw) && #[trigger] floors(
            raw,
            floor_of,
            floor,
            x.weights(),
        );
    let (raw_y, floor_y) = choose|raw: Map<usize, u64>, floor: u64|
        weighs(nd_y, y.docs().len() as usize, idf, raw) && #[trigger] floors(
            raw,
            floor_of,
            floor,
            y.weights(),
        );
    let by_term = |term: Seq<char>| raw_x[symbol_of(x.strings(), term)];
    assert forall|term: Seq<char>| #[trigger] mentions(tokens, term) implies raw_y[symbol_of(
        y.strings(),
        term,
    )] == by_term(term) && nd_x.contains_key(symbol_of(x.strings(), term)) && nd_y.contains_key(
        symbol_of(y.strings(), term),
    ) by {
        lemma_frequency(tokens, x.strings(), x.docs(), term);
        lemma_frequency(tokens, y.strings(), y.docs(), term);
        let numbers = (documents_with(tokens, term) as u32, size);
        assert(call_ensures(idf, numbers, raw_x[symbol_of(x.strings(), term)]));
        assert(call_ensures(idf, numbers, raw_y[symbol_of(y.strings(), term)]));
    }
    let (values_x, order_x) = choose|values: Vec<u64>, order: Seq<usize>|
        {
            &&& #[trigger] call_ensures(floor_of, (&values,), floor_x)
            &&& #[trigger] order.no_duplicates()
            &&& order.to_set() == raw_x.dom()
            &&& values@ == order.map_values(|symbol: usize| raw_x[symbol])
        };
    let (values_y, order_y) = choose|values: Vec<u64>, order: Seq<usize>|
        {
            &&& #[trigger] call_ensures(floor_of, (&values,), floor_y)
            &&& #[trigger] order.no_duplicates()
            &&& order.to_set() == raw_y.dom()
            &&& values@ == order.map_values(|symbol: usize| raw_y[symbol])
        };
    let names_x = lemma_values_by_term(tokens, x.strings(), x.docs(), raw_x, order_x, by_term);
    let names_y = lemma_values_by_term(tokens, y.strings(), y.docs(), raw_y, order_y, by_term);
    assert forall|term: Seq<char>| #[trigger] names_x.contains(term) <==> names_y.contains(
        term,
    ) by {
        assert(names_x.contains(term) <==> mentions(tokens, term));
    }
    lemma_same_members(names_x, names_y);
    lemma_map_multiset(names_x, names_y, by_term);
    assert(values_x@.to_multiset() == values_y@.to_multiset());
    assert(ignores_order(floor_of) ==> floor_x == floor_y);
    lemma_interned_strings(tokens, x.strings());
    assert forall|term: Seq<char>| #[trigger]
        query.contains(term) && mentions(tokens, term) implies same_weight(
        term,
        x.strings(),
        x.weights(),
        y.strings(),
        y.weights(),
    ) by {
        let raw = by_term(term);
        assert(raw_y[symbol_of(y.strings(), term)] == raw);
        assert(x.strings().contains(term));
        if unfloored(x, idf, query) {
            assert(!is_negative(raw));
        }
    }
}

/// Two indexes of the same tokens answer alike: a query finds the same in every document, in
/// whatever way the two have numbered the terms.
pub proof fn same_tokens_same_answers<I: Fn(u32, usize) -> u64, L: Fn(&Vec<u64>) -> u64>(
    x: BM25Okapi,
    y: BM25Okapi,
    tokens: Seq<Seq<Seq<char>>>,
    idf: I,
    floor_of: L,
    query: Seq<Seq<char>>,
)
    requires
        weighs_alike(idf),
        ignores_order(floor_of) || unfloored(x, idf, query),
        representable(tokens, Seq::<Seq<char>>::empty()),
        x.describes(tokens, idf, floor_of),
        y.describes(tokens, idf, floor_of),
    ensures
        x.docs().len() == y.docs().len(),
        x.lengths() == y.lengths(),
        x.length() == y.length(),
        x.parts(x.terms(query)) == y.parts(y.terms(query)),
{
    same_tokens_same_weights(x, y, tokens, idf, floor_of, query);
    assert forall|d: int| #[trigger] x.parts(x.terms(query))(d) == y.parts(y.terms(query))(d) by {
        if 0 <= d < tokens.len() {
            numbering_makes_no_difference(
                tokens,
                x.strings(),
                x.weights(),
                y.strings(),
                y.weights(),
                query,
                d,
                x.lengths()[d],
            );
            assert(x.docs()[d] == histogram(encoded(x.strings(), tokens[d])));
            assert(y.docs()[d] == histogram(encoded(y.strings(), tokens[d])));
        }
    }
    assert(x.parts(x.terms(query)) =~= y.parts(y.terms(query)));
}

/// The scores of all documents and the best documents for a query are the same for both indexes,
/// the latter wherever the documents can be put in order.
pub open spec fn answer_alike<T: Fn(u32, u32, u64) -> u64, A: Fn(u64, u64) -> u64>(
    x: BM25Okapi,
    y: BM25Okapi,
    scorer: Scorer<T, A>,
    query: Seq<Seq<char>>,
) -> bool {
    &&& forall|scores_x: Seq<u64>, scores_y: Seq<u64>| #[trigger]
        x.scores_all(x.terms(query), scorer, scores_x) && #[trigger] y.scores_all(
            y.terms(query),
            scorer,
            scores_y,
        ) ==> scores_x == scores_y
    &&& forall|n: Option<usize>, top_x: Seq<(usize, u64)>, top_y: Seq<(usize, u64)>| #[trigger]
        x.is_top_n(query, n, scorer, top_x) && #[trigger] y.is_top_n(query, n, scorer, top_y)
            && can_rank(x.parts(x.terms(query)), scorer) ==> top_x == top_y
}

/// The two indexes have documents of the same lengths, and answer alike: to all queries, if the
/// floor does not depend on the order of the weights, and else to those in which no term needs the
/// floor.
pub open spec fn agree<
    I: Fn(u32, usize) -> u64,
    L: Fn(&Vec<u64>) -> u64,
    T: Fn(u32, u32, u64) -> u64,
    A: Fn(u64, u64) -> u64,
>(x: BM25Okapi, y: BM25Okapi, idf: I, floor_of: L, scorer: Scorer<T, A>) -> bool {
    &&& x.docs().len() == y.docs().len()
    &&& x.lengths() == y.lengths()
    &&& x.length() == y.length()
    &&& forall|query: Seq<Seq<char>>|
        ignores_order(floor_of) || unfloored(x, idf, query) ==> #[trigger] answer_alike(
            x,
            y,
            scorer,
            query,
        )
}

/// Two indexes of the same tokens give the same scores and the same best documents.
pub proof fn same_tokens_same_scores<
    I: Fn(u32, usize) -> u64,
    L: Fn(&Vec<u64>) -> u64,
    T: Fn(u32, u32, u64) -> u64,
    A: Fn(u64, u64) -> u64,
>(
    x: BM25Okapi,
    y: BM25Okapi,
    tokens: Seq<Seq<Seq<char>>>,
    idf: I,
    floor_of: L,
    scorer: Scorer<T, A>,
)
    requires
        weighs_alike(idf),
        scorer.deterministic(),
        representable(tokens, Seq::<Seq<char>>::empty()),
        x.describes(tokens, idf, floor_of),
        y.describes(tokens, idf, floor_of),
    ensures
        agree(x, y, idf, floor_of, scorer),
{
    assert forall|query: Seq<Seq<char>>|
        ignores_order(floor_of) || unfloored(x, idf, query) implies #[trigger] answer_alike(
        x,
        y,
        scorer,
        query,
    ) by {
        same_tokens_same_answers(x, y, tokens, idf, floor_of, query);
        let parts = x.parts(x.terms(query));
        assert forall|scores_x: Seq<u64>, scores_y: Seq<u64>| #[trigger]
            x.scores_all(x.terms(query), scorer, scores_x) && #[trigger] y.scores_all(
                y.terms(query),
                scorer,
                scores_y,
            ) implies scores_x == scores_y by {
            scores_are_determined(parts, scorer, scores_x, scores_y);
        }
        assert forall|n: Option<usize>, top_x: Seq<(usize, u64)>, top_y: Seq<(usize, u64)>|
            #[trigger]
            x.is_top_n(query, n, scorer, top_x) && #[trigger] y.is_top_n(query, n, scorer, top_y)
                && can_rank(parts, scorer) implies top_x == top_y by {
            let k = asked_for(n);
            if k == 0 {
                assert(top_x =~= top_y);
            } else {
                shorter_top_is_prefix(parts, scorer, x.docs().len(), k, top_x, k, top_y);
                assert(top_y.len() <= k);
            }
        }
    }
}

/// A tokenizer beside a tokenized corpus makes no difference.
pub proof fn tokenizer_beside_tokens_makes_no_difference<
    E,
    K: Fn(&String) -> Result<Vec<String>, E>,
    I: Fn(u32, usize) -> u64,
    L: Fn(&Vec<u64>) -> u64,
    T: Fn(u32, u32, u64) -> u64,
    A: Fn(u64, u64) -> u64,
>(
    x: BM25Okapi,
    tokenizer_x: Option<K>,
    y: BM25Okapi,
    tokenizer_y: Option<K>,
    lists: Vec<Vec<String>>,
    idf: I,
    floor_of: L,
    scorer: Scorer<T, A>,
)
    requires
        weighs_alike(idf),
        scorer.deterministic(),
        x.built_from(None, tokenizer_x, Some(lists), idf, floor_of),
        y.built_from(None, tokenizer_y, Some(lists), idf, floor_of),
    ensures
        agree(x, y, idf, floor_of, scorer),
{
    let tokens_x = choose|tokens: Seq<Seq<Seq<char>>>| #[trigger]
        gives_tokens(None, tokenizer_x, Some(lists), tokens) && tokens.len() > 0 && representable(
            tokens,
            Seq::<Seq<char>>::empty(),
        ) && x.describes(tokens, idf, floor_of);
    let tokens_y = choose|tokens: Seq<Seq<Seq<char>>>| #[trigger]
        gives_tokens(None, tokenizer_y, Some(lists), tokens) && tokens.len() > 0 && representable(
            tokens,
            Seq::<Seq<char>>::empty(),
        ) && y.describes(tokens, idf, floor_of);
    assert(gives_tokens(None, tokenizer_x, Some(lists), tokens_y));
    tokens_are_determined(None, tokenizer_x, Some(lists), tokens_x, tokens_y);
    same_tokens_same_scores(x, y, tokens_x, idf, floor_of, scorer);
}

/// Building an index from texts agrees with building it from the tokens of the texts.
pub proof fn texts_agree_with_their_tokens<
    E,
    K: Fn(&String) -> Result<Vec<String>, E>,
    I: Fn(u32, usize) -> u64,
    L: Fn(&Vec<u64>) -> u64,
    T: Fn(u32, u32, u64) -> u64,
    A: Fn(u64, u64) -> u64,
>(
    x: BM25Okapi,
    docs: Vec<String>,
    y: BM25Okapi,
    tokenizer: Option<K>,
    lists: Vec<Vec<String>>,
    idf: I,
    floor_of: L,
    scorer: Scorer<T, A>,
)
    requires
        weighs_alike(idf),
        scorer.deterministic(),
        lists@.len() == docs@.len(),
        forall|i: int|
            0 <= i < docs@.len() ==> texts(#[trigger] lists@[i]@) == document_tokens(docs@[i]@),
        x.built_from(Some(docs), None::<K>, None, idf, floor_of),
        y.built_from(None, tokenizer, Some(lists), idf, floor_of),
    ensures
        agree(x, y, idf, floor_of, scorer),
{
    let tokens_x = choose|tokens: Seq<Seq<Seq<char>>>| #[trigger]
        gives_tokens(Some(docs), None::<K>, None, tokens) && tokens.len() > 0 && representable(
            tokens,
            Seq::<Seq<char>>::empty(),
        ) && x.describes(tokens, idf, floor_of);
    let tokens_y = choose|tokens: Seq<Seq<Seq<char>>>| #[trigger]
        gives_tokens(None, tokenizer, Some(lists), tokens) && tokens.len() > 0 && representable(
            tokens,
            Seq::<Seq<char>>::empty(),
        ) && y.describes(tokens, idf, floor_of);
    assert forall|i: int| 0 <= i < docs@.len() implies #[trigger] tokens_y[i] == document_tokens(
        docs@[i]@,
    ) by {
        assert(texts(lists@[i]@) == document_tokens(docs@[i]@));
    }
    assert(gives_tokens(Some(docs), None::<K>, None, tokens_y));
    tokens_are_determined(Some(docs), None::<K>, None, tokens_x, tokens_y);
    same_tokens_same_scores(x, y, tokens_x, idf, floor_of, scorer);
}

} // verus!
