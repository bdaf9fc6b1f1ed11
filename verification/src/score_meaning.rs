//! What scores, their order and the parts they are made of mean, in terms of bit patterns,
//! sequences and the caller's arithmetic alone.
use crate::bm25okapi::BM25Okapi;
use crate::collections::{counts_of, postings_of};
use crate::idf::can_weigh;
use crate::index::IndexView;
use crate::index_meaning::{inverted_index_lists_the_holders, posting_lists_name_the_holders};
use crate::laws::inverted_parts_match_documents;
use crate::optimizations::scores_single;
use crate::score::{is_nan, is_negative, rank, Scorer, ZERO};
use crate::scoring::{
    all_parts, direct_parts, hits, inverted_parts, list_of, resolved, scores_inverted, within,
};
use vstd::prelude::*;

verus! {

// ---------------------------------------------------------------------------------------------
// The order of doubles
// ---------------------------------------------------------------------------------------------

/// Scores are ordered like the doubles that they are the bit patterns of. Without the sign bit, a
/// larger bit pattern is a larger number; with the sign bit, it is a smaller one. No number with
/// the sign bit is above one without it, and the two zeros are equal.
pub proof fn ranks_are_ordered_like_doubles(x: u64, y: u64)
    ensures
        x < y < 0x8000_0000_0000_0000 ==> rank(x) < rank(y),
        0x8000_0000_0000_0000 <= x < y ==> rank(x) > rank(y),
        x < 0x8000_0000_0000_0000 <= y ==> rank(y) <= 0 <= rank(x),
        0 < x < 0x8000_0000_0000_0000 ==> rank(x) > 0,
        x > 0x8000_0000_0000_0000 ==> rank(x) < 0,
        rank(0) == 0,
        rank(0x8000_0000_0000_0000) == 0,
{
}

/// Changing the sign of a score turns its place in the order round.
pub proof fn sign_turns_the_order_round(x: u64)
    requires
        x < 0x8000_0000_0000_0000,
    ensures
        rank((x + 0x8000_0000_0000_0000) as u64) == -rank(x),
{
}

/// Two scores stand at the same place in the order if and only if they have the same bits or are
/// both zeros.
pub proof fn equal_ranks_are_equal_numbers(x: u64, y: u64)
    ensures
        rank(x) == rank(y) <==> x == y || ((x == 0 || x == 0x8000_0000_0000_0000) && (y == 0 || y
            == 0x8000_0000_0000_0000)),
{
}

/// Not a number is what lies beyond infinity, with and without the sign bit.
pub proof fn not_a_number_lies_beyond_infinity(score: u64)
    ensures
        is_nan(score) <==> (0x7ff0_0000_0000_0000 < score < 0x8000_0000_0000_0000 || score
            > 0xfff0_0000_0000_0000),
{
}

/// Negative is what has the sign bit, other than negative zero and what is not a number.
pub proof fn negative_has_the_sign_bit(score: u64)
    ensures
        is_negative(score) <==> 0x8000_0000_0000_0000 < score <= 0xfff0_0000_0000_0000,
        is_negative(score) ==> !is_nan(score),
{
}

// ---------------------------------------------------------------------------------------------
// Sums
// ---------------------------------------------------------------------------------------------

/// The operations of the scorer compute the functions `term` and `plus`.
pub open spec fn computes<T: Fn(u32, u32, u64) -> u64, A: Fn(u64, u64) -> u64>(
    scorer: Scorer<T, A>,
    term: spec_fn(u32, u32, u64) -> u64,
    plus: spec_fn(u64, u64) -> u64,
) -> bool {
    &&& forall|freq: u32, dl: u32, weight: u64, x: u64| #[trigger]
        call_ensures(scorer.term, (freq, dl, weight), x) ==> x == term(freq, dl, weight)
    &&& forall|a: u64, b: u64, x: u64| #[trigger]
        call_ensures(scorer.add, (a, b), x) ==> x == plus(a, b)
}

/// A sum of parts is what is left when, from zero, the contribution of one part after the other is
/// added.
pub proof fn sums_fold_the_contributions<T: Fn(u32, u32, u64) -> u64, A: Fn(u64, u64) -> u64>(
    scorer: Scorer<T, A>,
    term: spec_fn(u32, u32, u64) -> u64,
    plus: spec_fn(u64, u64) -> u64,
    parts: Seq<(u32, u32, u64)>,
    score: u64,
)
    requires
        computes(scorer, term, plus),
        scorer.sums(parts, score),
    ensures
        score == parts.fold_left(
            0u64,
            |sum: u64, part: (u32, u32, u64)| plus(sum, term(part.0, part.1, part.2)),
        ),
    decreases parts.len(),
{
    if parts.len() == 0 {
        let sums = choose|sums: Seq<u64>| scorer.running(ZERO, parts, score, sums);
        assert(sums.len() == 1);
    } else {
        let earlier = parts.drop_last();
        let part = parts.last();
        assert(parts =~= earlier + seq![part]);
        let mid = scorer.lemma_accumulates_split(ZERO, earlier, seq![part], score);
        scorer.lemma_accumulates_one(mid, part, score);
        sums_fold_the_contributions(scorer, term, plus, earlier, mid);
        let x = choose|x: u64| #[trigger]
            call_ensures(scorer.term, part, x) && call_ensures(scorer.add, (mid, x), score);
        assert(call_ensures(scorer.term, (part.0, part.1, part.2), x));
    }
}

/// No parts sum up to zero, and one more part after others is added to their sum.
pub proof fn sums_add_part_after_part<T: Fn(u32, u32, u64) -> u64, A: Fn(u64, u64) -> u64>(
    scorer: Scorer<T, A>,
    parts: Seq<(u32, u32, u64)>,
    part: (u32, u32, u64),
    score: u64,
)
    ensures
        scorer.sums(Seq::<(u32, u32, u64)>::empty(), score) <==> score == 0,
        scorer.sums(parts.push(part), score) <==> exists|before: u64, x: u64|
            scorer.sums(parts, before) && #[trigger] call_ensures(
                scorer.term,
                (part.0, part.1, part.2),
                x,
            ) && #[trigger] call_ensures(scorer.add, (before, x), score),
{
    let none = Seq::<(u32, u32, u64)>::empty();
    if scorer.sums(none, score) {
        let sums = choose|sums: Seq<u64>| scorer.running(ZERO, none, score, sums);
        assert(sums.len() == 1);
    }
    scorer.lemma_accumulates_none(ZERO);
    if scorer.sums(parts.push(part), score) {
        assert(parts.push(part) =~= parts + seq![part]);
        let mid = scorer.lemma_accumulates_split(ZERO, parts, seq![part], score);
        scorer.lemma_accumulates_one(mid, part, score);
        let x = choose|x: u64| #[trigger]
            call_ensures(scorer.term, part, x) && call_ensures(scorer.add, (mid, x), score);
        assert(scorer.sums(parts, mid));
        assert(call_ensures(scorer.term, (part.0, part.1, part.2), x));
    }
    if exists|before: u64, x: u64|
        scorer.sums(parts, before) && #[trigger] call_ensures(
            scorer.term,
            (part.0, part.1, part.2),
            x,
        ) && #[trigger] call_ensures(scorer.add, (before, x), score) {
        let (before, x) = choose|before: u64, x: u64|
            scorer.sums(parts, before) && #[trigger] call_ensures(
                scorer.term,
                (part.0, part.1, part.2),
                x,
            ) && #[trigger] call_ensures(scorer.add, (before, x), score);
        assert(call_ensures(scorer.term, part, x));
        assert(scorer.adds(before, part, score));
        scorer.lemma_accumulates_push(ZERO, parts, before, part, score);
    }
}

// ---------------------------------------------------------------------------------------------
// Parts
// ---------------------------------------------------------------------------------------------

/// A document holds one part for every term that occurs in it, in the order of the terms: the
/// number of times the term occurs, the length of the document, and the weight of the term as it
/// is.
pub proof fn parts_are_the_terms_that_occur(
    counts: Map<usize, u32>,
    dl: u32,
    terms: Seq<(usize, u64)>,
)
    ensures
        direct_parts(counts, dl, terms) == terms.filter(
            |term: (usize, u64)| counts.contains_key(term.0),
        ).map_values(|term: (usize, u64)| (counts[term.0], dl, term.1)),
    decreases terms.len(),
{
    reveal(Seq::filter);
    let occurs = |term: (usize, u64)| counts.contains_key(term.0);
    let part = |term: (usize, u64)| (counts[term.0], dl, term.1);
    if terms.len() > 0 {
        parts_are_the_terms_that_occur(counts, dl, terms.drop_last());
    }
    assert(direct_parts(counts, dl, terms) =~= terms.filter(occurs).map_values(part));
}

/// What a document holds of a single term, whatever its weight.
pub proof fn a_single_term_is_one_part(counts: Map<usize, u32>, dl: u32, symbol: usize, weight: u64)
    ensures
        direct_parts(counts, dl, seq![(symbol, weight)]) == if counts.contains_key(symbol) {
            seq![(counts[symbol], dl, weight)]
        } else {
            Seq::empty()
        },
{
    let terms = seq![(symbol, weight)];
    assert(terms.drop_last() =~= Seq::empty());
    assert(terms.last() == (symbol, weight));
    assert(direct_parts(counts, dl, terms.drop_last()) =~= Seq::empty());
    assert(direct_parts(counts, dl, terms) =~= if counts.contains_key(symbol) {
        seq![(counts[symbol], dl, weight)]
    } else {
        Seq::empty()
    });
}

/// A posting list holds of a document what its postings with the identifier of the document hold.
pub proof fn hits_are_the_postings_of_the_document(
    list: Seq<(u32, u32)>,
    dl: u32,
    weight: u64,
    d: int,
)
    ensures
        hits(list, dl, weight, d) == list.filter(
            |posting: (u32, u32)| posting.0 == d,
        ).map_values(|posting: (u32, u32)| (posting.1, dl, weight)),
    decreases list.len(),
{
    reveal(Seq::filter);
    let meant = |posting: (u32, u32)| posting.0 == d;
    let part = |posting: (u32, u32)| (posting.1, dl, weight);
    if list.len() > 0 {
        hits_are_the_postings_of_the_document(list.drop_last(), dl, weight, d);
    }
    assert(hits(list, dl, weight, d) =~= list.filter(meant).map_values(part));
}

/// What posting lists hold of a document for a single term, whatever its weight: what the posting
/// list of the term holds, if it has one.
pub proof fn a_single_term_reads_its_posting_list(
    postings: Map<usize, Seq<(u32, u32)>>,
    dl: u32,
    symbol: usize,
    weight: u64,
    d: int,
)
    ensures
        inverted_parts(postings, dl, seq![(symbol, weight)], d) == if postings.contains_key(
            symbol,
        ) {
            postings[symbol].filter(|posting: (u32, u32)| posting.0 == d).map_values(
                |posting: (u32, u32)| (posting.1, dl, weight),
            )
        } else {
            Seq::empty()
        },
        inverted_parts(postings, dl, Seq::<(usize, u64)>::empty(), d) == Seq::<
            (u32, u32, u64),
        >::empty(),
{
    let terms = seq![(symbol, weight)];
    assert(terms.drop_last() =~= Seq::empty());
    assert(terms.last() == (symbol, weight));
    assert(inverted_parts(postings, dl, terms.drop_last(), d) =~= Seq::empty());
    if postings.contains_key(symbol) {
        hits_are_the_postings_of_the_document(postings[symbol], dl, weight, d);
        assert(inverted_parts(postings, dl, terms, d) =~= hits(postings[symbol], dl, weight, d));
    } else {
        assert(inverted_parts(postings, dl, terms, d) =~= Seq::empty());
    }
}

/// Looking up a query keeps the terms that are interned and have a weight, every time they stand in
/// it and in their order, each with the position of its string and with its weight.
pub proof fn known_terms_are_kept(
    query: Seq<Seq<char>>,
    strings: Seq<Seq<char>>,
    weights: Map<usize, u64>,
)
    ensures
        resolved(query, strings, weights) == query.filter(
            |term: Seq<char>|
                strings.contains(term) && weights.contains_key(strings.index_of(term) as usize),
        ).map_values(
            |term: Seq<char>|
                (strings.index_of(term) as usize, weights[strings.index_of(term) as usize]),
        ),
    decreases query.len(),
{
    reveal(Seq::filter);
    let known = |term: Seq<char>|
        strings.contains(term) && weights.contains_key(strings.index_of(term) as usize);
    let entry = |term: Seq<char>|
        (strings.index_of(term) as usize, weights[strings.index_of(term) as usize]);
    if query.len() > 0 {
        known_terms_are_kept(query.drop_last(), strings, weights);
    }
    assert(resolved(query, strings, weights) =~= query.filter(known).map_values(entry));
}

/// A single known term is kept with its symbol and its weight, and an unknown one is dropped.
pub proof fn a_known_term_is_kept(
    term: Seq<char>,
    strings: Seq<Seq<char>>,
    weights: Map<usize, u64>,
    symbol: usize,
)
    requires
        strings.no_duplicates(),
        strings.len() <= usize::MAX,
    ensures
        symbol < strings.len() && strings[symbol as int] == term && weights.contains_key(symbol)
            ==> resolved(seq![term], strings, weights) == seq![(symbol, weights[symbol])],
        symbol < strings.len() && strings[symbol as int] == term && !weights.contains_key(symbol)
            ==> resolved(seq![term], strings, weights) == Seq::<(usize, u64)>::empty(),
        !strings.contains(term) ==> resolved(seq![term], strings, weights) == Seq::<
            (usize, u64),
        >::empty(),
        resolved(Seq::<Seq<char>>::empty(), strings, weights) == Seq::<(usize, u64)>::empty(),
{
    let query = seq![term];
    assert(query.drop_last() =~= Seq::empty());
    assert(query.last() == term);
    assert(resolved(query.drop_last(), strings, weights) =~= Seq::empty());
    if symbol < strings.len() && strings[symbol as int] == term {
        assert(strings.contains(term));
        assert(strings[strings.index_of(term)] == term);
        assert(strings.index_of(term) == symbol);
        if weights.contains_key(symbol) {
            assert(resolved(query, strings, weights) =~= seq![(symbol, weights[symbol])]);
        }
    }
}

// ---------------------------------------------------------------------------------------------
// Scores
// ---------------------------------------------------------------------------------------------

/// Folding over mapped items is folding over the items.
proof fn lemma_fold_mapped<V, W, B>(
    items: Seq<V>,
    f: spec_fn(V) -> W,
    start: B,
    step: spec_fn(B, W) -> B,
    joined: spec_fn(B, V) -> B,
)
    requires
        forall|b: B, v: V| #[trigger] joined(b, v) == step(b, f(v)),
    ensures
        items.map_values(f).fold_left(start, step) == items.fold_left(start, joined),
    decreases items.len(),
{
    if items.len() > 0 {
        lemma_fold_mapped(items.drop_last(), f, start, step, joined);
        assert(items.map_values(f).drop_last() =~= items.drop_last().map_values(f));
        assert(items.map_values(f).last() == f(items.last()));
        assert(joined(items.drop_last().fold_left(start, joined), items.last()) == step(
            items.drop_last().fold_left(start, joined),
            f(items.last()),
        ));
    }
}

/// The score of a document for terms is what is left when, from zero, the contributions of the
/// terms that occur in it are added in order. The contribution of a term is that of the number of
/// times it occurs in the document, the length of the document, and the weight of the term.
pub proof fn a_score_adds_up_the_terms_that_occur<
    T: Fn(u32, u32, u64) -> u64,
    A: Fn(u64, u64) -> u64,
>(
    scorer: Scorer<T, A>,
    term: spec_fn(u32, u32, u64) -> u64,
    plus: spec_fn(u64, u64) -> u64,
    counts: Map<usize, u32>,
    dl: u32,
    terms: Seq<(usize, u64)>,
    score: u64,
)
    requires
        computes(scorer, term, plus),
        scorer.sums(direct_parts(counts, dl, terms), score),
    ensures
        score == terms.filter(|x: (usize, u64)| counts.contains_key(x.0)).fold_left(
            0u64,
            |sum: u64, x: (usize, u64)| plus(sum, term(counts[x.0], dl, x.1)),
        ),
{
    sums_fold_the_contributions(scorer, term, plus, direct_parts(counts, dl, terms), score);
    parts_are_the_terms_that_occur(counts, dl, terms);
    lemma_fold_mapped(
        terms.filter(|x: (usize, u64)| counts.contains_key(x.0)),
        |x: (usize, u64)| (counts[x.0], dl, x.1),
        0u64,
        |sum: u64, part: (u32, u32, u64)| plus(sum, term(part.0, part.1, part.2)),
        |sum: u64, x: (usize, u64)| plus(sum, term(counts[x.0], dl, x.1)),
    );
}

/// What the posting lists of an index give as the score of a document is what its counts give.
pub proof fn inverted_scores_add_up_the_terms_that_occur<
    T: Fn(u32, u32, u64) -> u64,
    A: Fn(u64, u64) -> u64,
>(
    scorer: Scorer<T, A>,
    term: spec_fn(u32, u32, u64) -> u64,
    plus: spec_fn(u64, u64) -> u64,
    index: IndexView<'_>,
    terms: Seq<(usize, u64)>,
    scores: Seq<u64>,
)
    requires
        computes(scorer, term, plus),
        index.consistent(),
        scores_inverted(index, terms, scorer, scores),
    ensures
        scores.len() == index.corpus_size,
        forall|d: int|
            0 <= d < index.corpus_size ==> #[trigger] scores[d] == terms.filter(
                |x: (usize, u64)| index.docs()[d].contains_key(x.0),
            ).fold_left(
                0u64,
                |sum: u64, x: (usize, u64)|
                    plus(sum, term(index.docs()[d][x.0], index.doc_len@[d], x.1)),
            ),
{
    assert forall|d: int| 0 <= d < index.corpus_size implies #[trigger] scores[d] == terms.filter(
        |x: (usize, u64)| index.docs()[d].contains_key(x.0),
    ).fold_left(
        0u64,
        |sum: u64, x: (usize, u64)| plus(sum, term(index.docs()[d][x.0], index.doc_len@[d], x.1)),
    ) by {
        let counts = index.docs()[d];
        let dl = index.doc_len@[d];
        inverted_parts_match_documents(index.docs(), dl, terms, d);
        assert(scorer.sums(inverted_parts(index.postings(), dl, terms, d), scores[d]));
        a_score_adds_up_the_terms_that_occur(scorer, term, plus, counts, dl, terms, scores[d]);
        assert(terms.filter(|x: (usize, u64)| index.docs()[d].contains_key(x.0)) == terms.filter(
            |x: (usize, u64)| counts.contains_key(x.0),
        )) by {
            assert((|x: (usize, u64)| index.docs()[d].contains_key(x.0)) =~= (|x: (usize, u64)|
                counts.contains_key(x.0)));
        }
        assert((|sum: u64, x: (usize, u64)|
            plus(sum, term(index.docs()[d][x.0], index.doc_len@[d], x.1))) =~= (|
            sum: u64,
            x: (usize, u64),
        | plus(sum, term(counts[x.0], dl, x.1))));
    }
}

/// The scores that an index object gives are made of the counts and lengths of its documents.
pub proof fn index_scores_add_up_the_terms_that_occur<
    T: Fn(u32, u32, u64) -> u64,
    A: Fn(u64, u64) -> u64,
>(
    scorer: Scorer<T, A>,
    term: spec_fn(u32, u32, u64) -> u64,
    plus: spec_fn(u64, u64) -> u64,
    index: BM25Okapi,
    terms: Seq<(usize, u64)>,
    scores: Seq<u64>,
    d: int,
)
    requires
        computes(scorer, term, plus),
        index.scores_all(terms, scorer, scores),
        0 <= d < index.docs().len(),
    ensures
        scores.len() == index.docs().len(),
        scores[d] == terms.filter(
            |x: (usize, u64)| index.docs()[d].contains_key(x.0),
        ).fold_left(
            0u64,
            |sum: u64, x: (usize, u64)|
                plus(sum, term(index.docs()[d][x.0], index.lengths()[d], x.1)),
        ),
{
    let counts = index.docs()[d];
    let dl = index.lengths()[d];
    assert(scorer.sums(index.parts(terms)(d), scores[d]));
    a_score_adds_up_the_terms_that_occur(scorer, term, plus, counts, dl, terms, scores[d]);
    assert((|x: (usize, u64)| index.docs()[d].contains_key(x.0)) =~= (|x: (usize, u64)|
        counts.contains_key(x.0)));
    assert((|sum: u64, x: (usize, u64)|
        plus(sum, term(index.docs()[d][x.0], index.lengths()[d], x.1))) =~= (|
        sum: u64,
        x: (usize, u64),
    | plus(sum, term(counts[x.0], dl, x.1))));
}

/// A document by itself: for a single term that occurs in it the contribution of that term as it
/// is, for a single one that does not zero, and else the sum.
pub proof fn a_single_score_adds_up_the_terms_that_occur<
    T: Fn(u32, u32, u64) -> u64,
    A: Fn(u64, u64) -> u64,
>(
    scorer: Scorer<T, A>,
    term: spec_fn(u32, u32, u64) -> u64,
    plus: spec_fn(u64, u64) -> u64,
    counts: Map<usize, u32>,
    dl: u32,
    terms: Seq<(usize, u64)>,
    score: u64,
)
    requires
        computes(scorer, term, plus),
        scores_single(scorer, counts, dl, terms, score),
    ensures
        terms.len() == 1 && counts.contains_key(terms[0].0) ==> score == term(
            counts[terms[0].0],
            dl,
            terms[0].1,
        ),
        terms.len() == 1 && !counts.contains_key(terms[0].0) ==> score == 0,
        terms.len() != 1 ==> score == terms.filter(
            |x: (usize, u64)| counts.contains_key(x.0),
        ).fold_left(
            0u64,
            |sum: u64, x: (usize, u64)| plus(sum, term(counts[x.0], dl, x.1)),
        ),
{
    if terms.len() != 1 {
        a_score_adds_up_the_terms_that_occur(scorer, term, plus, counts, dl, terms, score);
    }
}

/// The score of a document for a single term: its contribution added to zero if it occurs, and else
/// zero.
pub proof fn a_single_term_scores_its_contribution<
    T: Fn(u32, u32, u64) -> u64,
    A: Fn(u64, u64) -> u64,
>(
    scorer: Scorer<T, A>,
    counts: Map<usize, u32>,
    dl: u32,
    symbol: usize,
    weight: u64,
    score: u64,
)
    requires
        scorer.sums(direct_parts(counts, dl, seq![(symbol, weight)]), score),
    ensures
        counts.contains_key(symbol) ==> exists|x: u64| #[trigger]
            call_ensures(scorer.term, (counts[symbol], dl, weight), x) && call_ensures(
                scorer.add,
                (0u64, x),
                score,
            ),
        !counts.contains_key(symbol) ==> score == 0,
{
    a_single_term_is_one_part(counts, dl, symbol, weight);
    if counts.contains_key(symbol) {
        let part = (counts[symbol], dl, weight);
        scorer.lemma_accumulates_one(ZERO, part, score);
        let x = choose|x: u64| #[trigger]
            call_ensures(scorer.term, part, x) && call_ensures(scorer.add, (ZERO, x), score);
        assert(call_ensures(scorer.term, (counts[symbol], dl, weight), x));
    } else {
        sums_add_part_after_part(scorer, Seq::empty(), (0, 0, 0), score);
    }
}

/// What a view of an index finds of the terms in a document: what its posting lists hold. Where the
/// posting lists belong to the documents, that is what the documents hold, and nothing is found
/// beyond them.
pub proof fn a_view_finds_the_terms_that_occur(
    index: IndexView<'_>,
    terms: Seq<(usize, u64)>,
    d: int,
)
    ensures
        all_parts(index, terms)(d) == inverted_parts(
            index.postings(),
            index.doc_len@[d],
            terms,
            d,
        ),
        index.consistent() && 0 <= d < index.corpus_size ==> all_parts(index, terms)(d)
            == terms.filter(
            |term: (usize, u64)| index.docs()[d].contains_key(term.0),
        ).map_values(|term: (usize, u64)| (index.docs()[d][term.0], index.doc_len@[d], term.1)),
        index.consistent() && d >= index.corpus_size ==> all_parts(index, terms)(d).len() == 0,
{
    if index.consistent() {
        inverted_parts_match_documents(index.docs(), index.doc_len@[d], terms, d);
        if 0 <= d < index.corpus_size {
            let counts = index.docs()[d];
            let dl = index.doc_len@[d];
            parts_are_the_terms_that_occur(counts, dl, terms);
            assert((|term: (usize, u64)| index.docs()[d].contains_key(term.0)) =~= (|
                term: (usize, u64),
            | counts.contains_key(term.0)));
            assert((|term: (usize, u64)| (index.docs()[d][term.0], index.doc_len@[d], term.1))
                =~= (|term: (usize, u64)| (counts[term.0], dl, term.1)));
        }
    }
}

/// A view of an index shows the counts and posting lists that it borrows. Where they belong
/// together, there are as many documents and lengths as the view says, and a posting list names the
/// documents that have its symbol and no others, in ascending order and with their counts.
pub proof fn a_view_shows_what_it_borrows(index: IndexView<'_>, symbol: usize)
    ensures
        index.docs().len() == index.doc_freqs@.len(),
        forall|d: int|
            0 <= d < index.doc_freqs@.len() ==> #[trigger] index.docs()[d] == counts_of(
                index.doc_freqs@[d],
            ),
        index.postings() == postings_of(*index.inverted),
        index.consistent() ==> {
            let list = index.postings()[symbol];
            &&& index.doc_freqs@.len() == index.corpus_size
            &&& index.doc_len@.len() == index.corpus_size
            &&& index.postings().contains_key(symbol) <==> exists|d: int|
                0 <= d < index.corpus_size && (#[trigger] index.docs()[d]).contains_key(symbol)
            &&& index.postings().contains_key(symbol) ==> {
                &&& forall|j: int|
                    0 <= j < list.len() ==> (#[trigger] list[j]).0 < index.corpus_size
                        && index.docs()[list[j].0 as int].contains_key(symbol) && list[j].1
                        == index.docs()[list[j].0 as int][symbol]
                &&& forall|i: int, j: int|
                    0 <= i < j < list.len() ==> (#[trigger] list[i]).0 < (#[trigger] list[j]).0
                &&& forall|d: int|
                    0 <= d < index.corpus_size && (#[trigger] index.docs()[d]).contains_key(symbol)
                        ==> exists|j: int| 0 <= j < list.len() && (#[trigger] list[j]).0 == d
            }
        },
{
    if index.consistent() {
        inverted_index_lists_the_holders(index.docs(), symbol);
        posting_lists_name_the_holders(index.docs(), symbol);
    }
}

/// Operations that compute functions are deterministic.
pub proof fn operations_that_compute_functions_are_deterministic<
    T: Fn(u32, u32, u64) -> u64,
    A: Fn(u64, u64) -> u64,
>(
    scorer: Scorer<T, A>,
    term: spec_fn(u32, u32, u64) -> u64,
    plus: spec_fn(u64, u64) -> u64,
)
    requires
        computes(scorer, term, plus),
    ensures
        scorer.deterministic(),
{
    assert forall|part: (u32, u32, u64), x: u64, y: u64| #[trigger]
        call_ensures(scorer.term, part, x) && #[trigger] call_ensures(
            scorer.term,
            part,
            y,
        ) implies x == y by {
        assert(call_ensures(scorer.term, (part.0, part.1, part.2), x));
        assert(call_ensures(scorer.term, (part.0, part.1, part.2), y));
    }
    assert forall|values: (u64, u64), x: u64, y: u64| #[trigger]
        call_ensures(scorer.add, values, x) && #[trigger] call_ensures(
            scorer.add,
            values,
            y,
        ) implies x == y by {
        assert(call_ensures(scorer.add, (values.0, values.1), x));
        assert(call_ensures(scorer.add, (values.0, values.1), y));
    }
}

/// The posting lists of terms name documents below a bound if every posting of every one of them
/// does.
pub proof fn posting_lists_stay_within_a_bound(
    postings: Map<usize, Seq<(u32, u32)>>,
    terms: Seq<(usize, u64)>,
    bound: int,
)
    requires
        forall|i: int, j: int|
            0 <= i < terms.len() && postings.contains_key(terms[i].0) && 0 <= j
                < postings[terms[i].0].len() ==> (#[trigger] postings[terms[i].0][j]).0 < bound,
    ensures
        within(postings, terms, bound),
{
    assert forall|i: int, j: int|
        #![trigger list_of(postings, terms[i].0)[j]]
        0 <= i < terms.len() && 0 <= j < list_of(postings, terms[i].0).len() implies list_of(
        postings,
        terms[i].0,
    )[j].0 < bound by {
        assert(postings[terms[i].0][j].0 < bound);
    }
}

/// A scorer is total if both of its operations accept all values.
pub proof fn operations_that_accept_all_values_are_total<
    T: Fn(u32, u32, u64) -> u64,
    A: Fn(u64, u64) -> u64,
>(scorer: Scorer<T, A>)
    requires
        forall|freq: u32, dl: u32, weight: u64| #[trigger]
            call_requires(scorer.term, (freq, dl, weight)),
        forall|a: u64, b: u64| #[trigger] call_requires(scorer.add, (a, b)),
    ensures
        scorer.total(),
{
}

/// A formula that accepts all numbers can weigh all terms.
pub proof fn a_formula_that_accepts_all_numbers_can_weigh<I: Fn(u32, usize) -> u64>(
    nd: Map<usize, u32>,
    corpus_size: usize,
    idf: I,
)
    requires
        forall|freq: u32, size: usize| #[trigger] call_requires(idf, (freq, size)),
    ensures
        can_weigh(nd, corpus_size, idf),
{
}

} // verus!
