//! What an index means, in terms of the tokens of its documents alone.
use crate::agreement::{
    lemma_frequency, lemma_held_symbol, lemma_map_multiset, lemma_same_members,
    lemma_values_by_term,
};
use crate::bm25okapi::{gives_nothing, gives_tokens, BM25Okapi};
use crate::collections::{counts_of, postings_of, texts};
use crate::idf::{floors, weighs};
use crate::index::{doc_counts, representable, BuiltIndex};
use crate::interning::{
    has_room, interned, lemma_interned_contains, mentions, new_terms, partly_interned,
};
use crate::laws::{
    counts_are_occurrences, interning_keeps_symbols, lemma_documents_with, lemma_interned_strings,
};
use crate::model::{
    document_frequencies, documents_with, encoded, held, histogram, holders, inverted_index,
    lemma_holders, lemma_occurrences, occurrences, posting_list, symbol_of, times, total_length,
};
use crate::score::Scorer;
use crate::score_meaning::{computes, sums_fold_the_contributions};
use crate::scoring::{direct_parts, resolved};
use crate::tokenization::{document_tokens, returns_tokens};
use vstd::prelude::*;

verus! {

// ---------------------------------------------------------------------------------------------
// Counting
// ---------------------------------------------------------------------------------------------

/// The number of times a term occurs is the number of tokens that are equal to it.
pub proof fn times_counts_equal_tokens(doc: Seq<Seq<char>>, term: Seq<char>)
    ensures
        times(doc, term) == doc.filter(|token: Seq<char>| token == term).len(),
{
    lemma_times_filter(doc, term, |token: Seq<char>| token == term);
}

proof fn lemma_times_filter(
    doc: Seq<Seq<char>>,
    term: Seq<char>,
    same: spec_fn(Seq<char>) -> bool,
)
    requires
        forall|token: Seq<char>| #[trigger] same(token) <==> token == term,
    ensures
        times(doc, term) == doc.filter(same).len(),
    decreases doc.len(),
{
    reveal(Seq::filter);
    if doc.len() > 0 {
        lemma_times_filter(doc.drop_last(), term, same);
    }
}

/// The number of documents with a term is the number of those that contain it.
pub proof fn documents_with_counts_documents(corpus: Seq<Seq<Seq<char>>>, term: Seq<char>)
    ensures
        documents_with(corpus, term) == corpus.filter(
            |doc: Seq<Seq<char>>| doc.contains(term),
        ).len(),
    decreases corpus.len(),
{
    reveal(Seq::filter);
    if corpus.len() > 0 {
        documents_with_counts_documents(corpus.drop_last(), term);
    }
}

/// The total length is the sum of the lengths.
pub proof fn total_length_adds_up_lengths(corpus: Seq<Seq<Seq<char>>>)
    ensures
        total_length(corpus) == corpus.fold_left(
            0nat,
            |sum: nat, doc: Seq<Seq<char>>| sum + doc.len(),
        ),
    decreases corpus.len(),
{
    if corpus.len() > 0 {
        total_length_adds_up_lengths(corpus.drop_last());
    }
}

/// The histogram of symbols has the symbols that occur, each with the number of places at which it
/// does.
pub proof fn histogram_counts_places(symbols: Seq<usize>, symbol: usize)
    requires
        symbols.len() <= u32::MAX,
    ensures
        histogram(symbols).contains_key(symbol) <==> symbols.contains(symbol),
        symbols.contains(symbol) ==> histogram(symbols)[symbol] == symbols.filter(
            |other: usize| other == symbol,
        ).len(),
{
    lemma_occurrences(symbols, symbol);
    lemma_occurrences_filter(symbols, symbol);
}

proof fn lemma_occurrences_filter(symbols: Seq<usize>, symbol: usize)
    ensures
        occurrences(symbols, symbol) == symbols.filter(|other: usize| other == symbol).len(),
    decreases symbols.len(),
{
    reveal(Seq::filter);
    if symbols.len() > 0 {
        lemma_occurrences_filter(symbols.drop_last(), symbol);
    }
}

/// The document frequency of a symbol is the number of documents that have it, and a symbol has one
/// if some document has it.
pub proof fn document_frequencies_count_documents(docs: Seq<Map<usize, u32>>, symbol: usize, d: int)
    requires
        docs.len() <= u32::MAX,
    ensures
        0 <= d < docs.len() && docs[d].contains_key(symbol) ==> document_frequencies(
            docs,
        ).contains_key(symbol),
        document_frequencies(docs).contains_key(symbol) ==> document_frequencies(docs)[symbol] > 0
            && document_frequencies(docs)[symbol] == docs.filter(
            |doc: Map<usize, u32>| doc.contains_key(symbol),
        ).len(),
{
    lemma_holders(docs, symbol);
    lemma_holders_filter(docs, symbol);
}

proof fn lemma_holders_filter(docs: Seq<Map<usize, u32>>, symbol: usize)
    ensures
        holders(docs, symbol) == docs.filter(
            |doc: Map<usize, u32>| doc.contains_key(symbol),
        ).len(),
    decreases docs.len(),
{
    reveal(Seq::filter);
    if docs.len() > 0 {
        lemma_holders_filter(docs.drop_last(), symbol);
    }
}

/// A posting list names the documents that have the symbol and no others, in ascending order, each
/// with the number that the document has for the symbol.
pub proof fn posting_lists_name_the_holders(docs: Seq<Map<usize, u32>>, symbol: usize)
    requires
        docs.len() <= u32::MAX,
    ensures
        forall|j: int|
            0 <= j < posting_list(docs, symbol).len() ==> {
                let posting = #[trigger] posting_list(docs, symbol)[j];
                &&& posting.0 < docs.len()
                &&& docs[posting.0 as int].contains_key(symbol)
                &&& posting.1 == docs[posting.0 as int][symbol]
            },
        forall|i: int, j: int|
            0 <= i < j < posting_list(docs, symbol).len() ==> (#[trigger] posting_list(
                docs,
                symbol,
            )[i]).0 < (#[trigger] posting_list(docs, symbol)[j]).0,
        forall|d: int|
            0 <= d < docs.len() && (#[trigger] docs[d]).contains_key(symbol) ==> exists|j: int|
                0 <= j < posting_list(docs, symbol).len() && (#[trigger] posting_list(
                    docs,
                    symbol,
                )[j]).0 == d,
    decreases docs.len(),
{
    if docs.len() > 0 {
        let fewer = docs.drop_last();
        let before = posting_list(fewer, symbol);
        let after = posting_list(docs, symbol);
        posting_lists_name_the_holders(fewer, symbol);
        assert forall|j: int| 0 <= j < after.len() implies {
            let posting = #[trigger] after[j];
            &&& posting.0 < docs.len()
            &&& docs[posting.0 as int].contains_key(symbol)
            &&& posting.1 == docs[posting.0 as int][symbol]
        } by {
            if j < before.len() {
                assert(after[j] == before[j]);
            }
        }
        assert forall|i: int, j: int| 0 <= i < j < after.len() implies (#[trigger] after[i]).0 < (
        #[trigger] after[j]).0 by {
            assert(after[i] == before[i]);
            if j < before.len() {
                assert(after[j] == before[j]);
            }
        }
        assert forall|d: int| 0 <= d < docs.len() && (#[trigger] docs[d]).contains_key(
            symbol,
        ) implies exists|j: int| 0 <= j < after.len() && (#[trigger] after[j]).0 == d by {
            if d < fewer.len() {
                assert(fewer[d].contains_key(symbol));
                let j = choose|j: int| 0 <= j < before.len() && (#[trigger] before[j]).0 == d;
                assert(after[j] == before[j]);
            } else {
                assert(after[before.len() as int].0 == d);
            }
        }
    }
}

/// The inverted index has a list for the symbols that some document has, and it is their posting
/// list.
pub proof fn inverted_index_lists_the_holders(docs: Seq<Map<usize, u32>>, symbol: usize)
    ensures
        inverted_index(docs).contains_key(symbol) <==> exists|d: int|
            0 <= d < docs.len() && (#[trigger] docs[d]).contains_key(symbol),
        inverted_index(docs).contains_key(symbol) ==> inverted_index(docs)[symbol] == posting_list(
            docs,
            symbol,
        ),
{
}

// ---------------------------------------------------------------------------------------------
// Interning
// ---------------------------------------------------------------------------------------------

/// Interning leaves the strings that were there where they are. What follows are tokens of the
/// corpus that were not there, each once, and every token of the corpus is then interned.
pub proof fn interning_adds_the_missing_tokens(
    before: Seq<Seq<char>>,
    corpus: Seq<Seq<Seq<char>>>,
    after: Seq<Seq<char>>,
)
    requires
        interned(before, corpus, after),
    ensures
        before.len() <= after.len(),
        forall|i: int| 0 <= i < before.len() ==> #[trigger] after[i] == before[i],
        forall|i: int|
            before.len() <= i < after.len() ==> !before.contains(#[trigger] after[i]) && exists|
                d: int,
                j: int,
            |
                0 <= d < corpus.len() && 0 <= j < corpus[d].len() && #[trigger] corpus[d][j]
                    == after[i],
        forall|i: int, j: int|
            before.len() <= i < j < after.len() ==> #[trigger] after[i] != #[trigger] after[j],
        forall|d: int, j: int|
            0 <= d < corpus.len() && 0 <= j < corpus[d].len() ==> after.contains(
                #[trigger] corpus[d][j],
            ),
{
    let n = before.len() as int;
    let added = after.skip(n);
    assert forall|i: int| 0 <= i < before.len() implies #[trigger] after[i] == before[i] by {
        assert(after.take(n)[i] == before[i]);
    }
    assert forall|i: int| before.len() <= i < after.len() implies !before.contains(
        #[trigger] after[i],
    ) && exists|d: int, j: int|
        0 <= d < corpus.len() && 0 <= j < corpus[d].len() && #[trigger] corpus[d][j]
            == after[i] by {
        assert(added[i - n] == after[i]);
        assert(added.contains(after[i]));
        assert(mentions(corpus, after[i]));
        let d = choose|d: int| 0 <= d < corpus.len() && (#[trigger] corpus[d]).contains(after[i]);
        let j = corpus[d].index_of(after[i]);
        assert(corpus[d][j] == after[i]);
    }
    assert forall|i: int, j: int|
        before.len() <= i < j < after.len() implies #[trigger] after[i] != #[trigger] after[j] by {
        assert(added[i - n] == after[i] && added[j - n] == after[j]);
    }
    assert forall|d: int, j: int|
        0 <= d < corpus.len() && 0 <= j < corpus[d].len() implies after.contains(
        #[trigger] corpus[d][j],
    ) by {
        lemma_interned_contains(before, corpus, after, d, j);
    }
}

/// Where only some tokens are interned, the strings that were there stay where they are all the
/// same.
pub proof fn partial_interning_keeps_symbols(
    before: Seq<Seq<char>>,
    corpus: Seq<Seq<Seq<char>>>,
    after: Seq<Seq<char>>,
)
    requires
        partly_interned(before, corpus, after),
    ensures
        before.len() <= after.len(),
        forall|i: int| 0 <= i < before.len() ==> #[trigger] after[i] == before[i],
        forall|i: int|
            before.len() <= i < after.len() ==> !before.contains(#[trigger] after[i]) && exists|
                d: int,
                j: int,
            |
                0 <= d < corpus.len() && 0 <= j < corpus[d].len() && #[trigger] corpus[d][j]
                    == after[i],
{
    let n = before.len() as int;
    let added = after.skip(n);
    assert forall|i: int| 0 <= i < before.len() implies #[trigger] after[i] == before[i] by {
        assert(after.take(n)[i] == before[i]);
    }
    assert forall|i: int| before.len() <= i < after.len() implies !before.contains(
        #[trigger] after[i],
    ) && exists|d: int, j: int|
        0 <= d < corpus.len() && 0 <= j < corpus[d].len() && #[trigger] corpus[d][j]
            == after[i] by {
        assert(added[i - n] == after[i]);
        assert(added.contains(after[i]));
        assert(mentions(corpus, after[i]));
        let d = choose|d: int| 0 <= d < corpus.len() && (#[trigger] corpus[d]).contains(after[i]);
        let j = corpus[d].index_of(after[i]);
        assert(corpus[d][j] == after[i]);
    }
}

/// All tokens of a corpus, one document after the other.
spec fn all_tokens(corpus: Seq<Seq<Seq<char>>>) -> Seq<Seq<char>>
    decreases corpus.len(),
{
    if corpus.len() == 0 {
        Seq::empty()
    } else {
        all_tokens(corpus.drop_last()) + corpus.last()
    }
}

proof fn lemma_all_tokens(corpus: Seq<Seq<Seq<char>>>)
    ensures
        all_tokens(corpus).len() == total_length(corpus),
        forall|d: int, j: int|
            0 <= d < corpus.len() && 0 <= j < corpus[d].len() ==> all_tokens(corpus).contains(
                #[trigger] corpus[d][j],
            ),
    decreases corpus.len(),
{
    if corpus.len() > 0 {
        let fewer = corpus.drop_last();
        lemma_all_tokens(fewer);
        let all = all_tokens(corpus);
        let before = all_tokens(fewer);
        assert forall|d: int, j: int|
            0 <= d < corpus.len() && 0 <= j < corpus[d].len() implies all.contains(
            #[trigger] corpus[d][j],
        ) by {
            if d < fewer.len() {
                assert(fewer[d][j] == corpus[d][j]);
                let k = before.index_of(corpus[d][j]);
                assert(all[k] == corpus[d][j]);
            } else {
                assert(all[before.len() + j] == corpus[d][j]);
            }
        }
    }
}

/// A corpus can be indexed wherever its documents, the tokens of each document, and the strings
/// that are interned together with all tokens can be numbered with thirty-two bits.
pub proof fn small_corpora_can_be_indexed(corpus: Seq<Seq<Seq<char>>>, known: Seq<Seq<char>>)
    requires
        corpus.len() <= 0xffff_ffff,
        known.len() + corpus.fold_left(0nat, |sum: nat, doc: Seq<Seq<char>>| sum + doc.len())
            <= 0xffff_ffff,
    ensures
        representable(corpus, known),
{
    total_length_adds_up_lengths(corpus);
    lemma_all_tokens(corpus);
    let all = all_tokens(corpus);
    let wanted = new_terms(known, corpus);
    assert forall|term: Seq<char>| wanted.contains(term) implies all.to_set().contains(term) by {
        assert(mentions(corpus, term));
        let d = choose|d: int| 0 <= d < corpus.len() && (#[trigger] corpus[d]).contains(term);
        assert(corpus[d][corpus[d].index_of(term)] == term);
    }
    all.lemma_cardinality_of_set();
    vstd::seq_lib::seq_to_set_is_finite(all);
    vstd::set_lib::lemma_len_subset(wanted, all.to_set());
    assert forall|d: int| 0 <= d < corpus.len() implies (#[trigger] corpus[d]).len()
        <= u32::MAX by {
        lemma_length_of_one(corpus, d);
    }
}

proof fn lemma_length_of_one(corpus: Seq<Seq<Seq<char>>>, d: int)
    requires
        0 <= d < corpus.len(),
    ensures
        corpus[d].len() <= total_length(corpus),
    decreases corpus.len(),
{
    if d < corpus.len() - 1 {
        lemma_length_of_one(corpus.drop_last(), d);
    }
}

/// When a corpus can be indexed: its documents and the tokens of each document can be numbered with
/// thirty-two bits, and so can the strings that are interned together with the missing tokens, if
/// any are missing.
pub proof fn corpora_that_can_be_indexed(
    corpus: Seq<Seq<Seq<char>>>,
    known: Seq<Seq<char>>,
    missing: Seq<Seq<char>>,
)
    requires
        missing.no_duplicates(),
        forall|term: Seq<char>| #[trigger]
            missing.contains(term) <==> !known.contains(term) && exists|d: int|
                0 <= d < corpus.len() && (#[trigger] corpus[d]).contains(term),
    ensures
        representable(corpus, known) <==> {
            &&& corpus.len() <= 0xffff_ffff
            &&& forall|d: int| 0 <= d < corpus.len() ==> (#[trigger] corpus[d]).len() <= 0xffff_ffff
            &&& missing.len() == 0 || known.len() + missing.len() <= 0xffff_ffff
        },
        has_room(known, corpus) <==> missing.len() == 0 || known.len() + missing.len()
            <= 0xffff_ffff,
{
    assert forall|term: Seq<char>| #[trigger] missing.to_set().contains(term) <==> new_terms(
        known,
        corpus,
    ).contains(term) by {
        assert(missing.contains(term) <==> missing.to_set().contains(term));
    }
    assert(missing.to_set() =~= new_terms(known, corpus));
    missing.unique_seq_to_set();
}

// ---------------------------------------------------------------------------------------------
// The index of a corpus
// ---------------------------------------------------------------------------------------------

/// What an index holds of a document and a symbol is what the document says of the string that the
/// symbol stands for: how often it occurs, in how many documents it occurs, and in which.
pub proof fn an_index_holds_what_the_documents_say(
    built: BuiltIndex,
    corpus: Seq<Seq<Seq<char>>>,
    known: Seq<Seq<char>>,
    strings: Seq<Seq<char>>,
    d: int,
    symbol: usize,
)
    requires
        representable(corpus, known),
        known.no_duplicates(),
        interned(known, corpus, strings),
        strings.len() <= usize::MAX,
        built.describes(corpus, strings),
        0 <= d < corpus.len(),
    ensures
        built.corpus_size == corpus.len(),
        built.doc_freqs@.len() == corpus.len(),
        built.doc_len@.len() == corpus.len(),
        built.doc_len@[d] == corpus[d].len(),
        built.total_len == corpus.fold_left(
            0nat,
            |sum: nat, doc: Seq<Seq<char>>| sum + doc.len(),
        ),
        symbol >= strings.len() ==> !counts_of(built.doc_freqs@[d]).contains_key(symbol)
            && !counts_of(built.nd).contains_key(symbol) && !postings_of(
            built.inverted,
        ).contains_key(symbol),
        symbol < strings.len() ==> {
            let term = strings[symbol as int];
            &&& counts_of(built.doc_freqs@[d]).contains_key(symbol) <==> corpus[d].contains(term)
            &&& corpus[d].contains(term) ==> counts_of(built.doc_freqs@[d])[symbol]
                == corpus[d].filter(|token: Seq<char>| token == term).len()
            &&& counts_of(built.nd).contains_key(symbol) <==> corpus.filter(
                |doc: Seq<Seq<char>>| doc.contains(term),
            ).len() > 0
            &&& counts_of(built.nd).contains_key(symbol) ==> counts_of(built.nd)[symbol]
                == corpus.filter(|doc: Seq<Seq<char>>| doc.contains(term)).len()
            &&& postings_of(built.inverted).contains_key(symbol) <==> counts_of(
                built.nd,
            ).contains_key(symbol)
        },
{
    let docs = doc_counts(built.doc_freqs@);
    total_length_adds_up_lengths(corpus);
    lemma_all_interned(known, corpus, strings);
    assert(docs.len() == corpus.len());
    assert(built.doc_freqs@.len() == docs.len());
    assert(docs[d] == counts_of(built.doc_freqs@[d]));
    assert(corpus[d].len() <= u32::MAX);
    assert(built.doc_len@[d] == corpus[d].len() as u32);
    if symbol < strings.len() {
        let term = strings[symbol as int];
        assert(strings.contains(term));
        assert(strings[strings.index_of(term)] == term);
        assert(symbol_of(strings, term) == symbol);
        assert forall|j: int| 0 <= j < corpus[d].len() implies strings.contains(
            #[trigger] corpus[d][j],
        ) by {}
        counts_are_occurrences(strings, corpus[d], term);
        times_counts_equal_tokens(corpus[d], term);
        lemma_documents_with(strings, corpus, docs, term);
        documents_with_counts_documents(corpus, term);
        lemma_holders(docs, symbol);
    } else {
        assert forall|e: int| 0 <= e < corpus.len() implies !(
        #[trigger] docs[e]).contains_key(symbol) by {
            lemma_symbols_below(strings, corpus[e], symbol);
            assert(docs[e] == histogram(encoded(strings, corpus[e])));
        }
        assert(!held(docs, symbol));
    }
}

proof fn lemma_all_interned(
    known: Seq<Seq<char>>,
    corpus: Seq<Seq<Seq<char>>>,
    strings: Seq<Seq<char>>,
)
    requires
        known.no_duplicates(),
        interned(known, corpus, strings),
    ensures
        strings.no_duplicates(),
        forall|d: int, j: int|
            0 <= d < corpus.len() && 0 <= j < corpus[d].len() ==> strings.contains(
                #[trigger] corpus[d][j],
            ),
{
    interning_keeps_symbols(known, corpus, strings);
    assert forall|d: int, j: int|
        0 <= d < corpus.len() && 0 <= j < corpus[d].len() implies strings.contains(
        #[trigger] corpus[d][j],
    ) by {
        lemma_interned_contains(known, corpus, strings, d, j);
    }
}

proof fn lemma_symbols_below(strings: Seq<Seq<char>>, doc: Seq<Seq<char>>, symbol: usize)
    requires
        strings.len() <= usize::MAX,
        strings.len() <= symbol,
        forall|j: int| 0 <= j < doc.len() ==> strings.contains(#[trigger] doc[j]),
    ensures
        !encoded(strings, doc).contains(symbol),
{
    let symbols = encoded(strings, doc);
    if symbols.contains(symbol) {
        let j = symbols.index_of(symbol);
        assert(strings.contains(doc[j]));
        assert(strings[strings.index_of(doc[j])] == doc[j]);
        assert(symbols[j] == strings.index_of(doc[j]) as usize);
    }
}

/// The posting list of a symbol names the documents in which its string occurs and no others, in
/// ascending order, each with the number of times.
pub proof fn a_posting_list_says_where_a_string_occurs(
    built: BuiltIndex,
    corpus: Seq<Seq<Seq<char>>>,
    known: Seq<Seq<char>>,
    strings: Seq<Seq<char>>,
    symbol: usize,
)
    requires
        representable(corpus, known),
        known.no_duplicates(),
        interned(known, corpus, strings),
        strings.len() <= usize::MAX,
        built.describes(corpus, strings),
        postings_of(built.inverted).contains_key(symbol),
    ensures
        symbol < strings.len(),
        forall|j: int|
            0 <= j < postings_of(built.inverted)[symbol].len() ==> {
                let posting = #[trigger] postings_of(built.inverted)[symbol][j];
                &&& posting.0 < corpus.len()
                &&& corpus[posting.0 as int].contains(strings[symbol as int])
                &&& posting.1 == corpus[posting.0 as int].filter(
                    |token: Seq<char>| token == strings[symbol as int],
                ).len()
            },
        forall|i: int, j: int|
            0 <= i < j < postings_of(built.inverted)[symbol].len() ==> (#[trigger] postings_of(
                built.inverted,
            )[symbol][i]).0 < (#[trigger] postings_of(built.inverted)[symbol][j]).0,
        forall|d: int|
            0 <= d < corpus.len() && (#[trigger] corpus[d]).contains(strings[symbol as int])
                ==> exists|j: int|
                0 <= j < postings_of(built.inverted)[symbol].len() && (#[trigger] postings_of(
                    built.inverted,
                )[symbol][j]).0 == d,
{
    let docs = doc_counts(built.doc_freqs@);
    let list = postings_of(built.inverted)[symbol];
    posting_lists_name_the_holders(docs, symbol);
    assert(held(docs, symbol));
    let e = choose|e: int| 0 <= e < docs.len() && (#[trigger] docs[e]).contains_key(symbol);
    an_index_holds_what_the_documents_say(built, corpus, known, strings, e, symbol);
    assert(docs[e] == counts_of(built.doc_freqs@[e]));
    assert(list == posting_list(docs, symbol));
    let term = strings[symbol as int];
    assert forall|j: int| 0 <= j < list.len() implies {
        let posting = #[trigger] list[j];
        &&& posting.0 < corpus.len()
        &&& corpus[posting.0 as int].contains(term)
        &&& posting.1 == corpus[posting.0 as int].filter(
            |token: Seq<char>| token == strings[symbol as int],
        ).len()
    } by {
        let d = list[j].0 as int;
        assert(docs[d] == counts_of(built.doc_freqs@[d]));
        an_index_holds_what_the_documents_say(built, corpus, known, strings, d, symbol);
        assert((|token: Seq<char>| token == strings[symbol as int]) =~= (|token: Seq<char>|
            token == term));
    }
    assert forall|d: int| 0 <= d < corpus.len() && (#[trigger] corpus[d]).contains(
        term,
    ) implies exists|j: int| 0 <= j < list.len() && (#[trigger] list[j]).0 == d by {
        an_index_holds_what_the_documents_say(built, corpus, known, strings, d, symbol);
        assert(docs[d] == counts_of(built.doc_freqs@[d]));
        assert(docs[d].contains_key(symbol));
    }
}

// ---------------------------------------------------------------------------------------------
// Weights
// ---------------------------------------------------------------------------------------------

/// The floor takes the place of the negative weights and of no others, and it is computed from all
/// weights, each of them once.
pub proof fn the_floor_replaces_negative_weights<L: Fn(&Vec<u64>) -> u64>(
    raw: Map<usize, u64>,
    floor_of: L,
    floor: u64,
    weights: Map<usize, u64>,
)
    requires
        floors(raw, floor_of, floor, weights),
    ensures
        weights.dom() == raw.dom(),
        forall|symbol: usize| #[trigger]
            raw.contains_key(symbol) ==> weights[symbol] == if 0x8000_0000_0000_0000 < raw[symbol]
                <= 0xfff0_0000_0000_0000 {
                floor
            } else {
                raw[symbol]
            },
        exists|values: Vec<u64>, order: Seq<usize>|
            {
                &&& #[trigger] call_ensures(floor_of, (&values,), floor)
                &&& #[trigger] order.no_duplicates()
                &&& forall|symbol: usize| order.contains(symbol) <==> raw.contains_key(symbol)
                &&& values@.len() == order.len()
                &&& forall|i: int| 0 <= i < order.len() ==> #[trigger] values@[i] == raw[order[i]]
            },
{
    let (values, order) = choose|values: Vec<u64>, order: Seq<usize>|
        {
            &&& #[trigger] call_ensures(floor_of, (&values,), floor)
            &&& #[trigger] order.no_duplicates()
            &&& order.to_set() == raw.dom()
            &&& values@ == order.map_values(|symbol: usize| raw[symbol])
        };
    assert forall|symbol: usize| order.contains(symbol) <==> raw.contains_key(symbol) by {
        assert(order.contains(symbol) <==> order.to_set().contains(symbol));
    }
    assert(weights.dom() =~= raw.dom());
    assert(call_ensures(floor_of, (&values,), floor));
    assert(order.no_duplicates());
}

/// The weights of an index: every interned string has the weight that the formula gives for the
/// number of documents in which it occurs and the number of all documents, unless that is negative;
/// then it has the floor, which is computed from what the formula gives for all strings.
pub proof fn weights_are_what_the_formula_gives<
    I: Fn(u32, usize) -> u64,
    L: Fn(&Vec<u64>) -> u64,
>(
    index: BM25Okapi,
    tokens: Seq<Seq<Seq<char>>>,
    idf: I,
    floor_of: L,
    formula: spec_fn(u32, usize) -> u64,
)
    requires
        representable(tokens, Seq::<Seq<char>>::empty()),
        index.describes(tokens, idf, floor_of),
        forall|freq: u32, size: usize, weight: u64| #[trigger]
            call_ensures(idf, (freq, size), weight) ==> weight == formula(freq, size),
    ensures
        forall|symbol: usize| #[trigger]
            index.weights().contains_key(symbol) <==> symbol < index.strings().len(),
        exists|floor: u64, values: Vec<u64>|
            {
                &&& #[trigger] call_ensures(floor_of, (&values,), floor)
                &&& values@.to_multiset() == index.strings().map_values(
                    |term: Seq<char>|
                        formula(
                            tokens.filter(|doc: Seq<Seq<char>>| doc.contains(term)).len() as u32,
                            tokens.len() as usize,
                        ),
                ).to_multiset()
                &&& forall|symbol: usize|
                    symbol < index.strings().len() ==> #[trigger] index.weights()[symbol] == {
                        let raw = formula(
                            tokens.filter(
                                |doc: Seq<Seq<char>>|
                                    doc.contains(index.strings()[symbol as int]),
                            ).len() as u32,
                            tokens.len() as usize,
                        );
                        if 0x8000_0000_0000_0000 < raw <= 0xfff0_0000_0000_0000 {
                            floor
                        } else {
                            raw
                        }
                    }
            },
{
    let strings = index.strings();
    let docs = index.docs();
    let nd = document_frequencies(docs);
    let size = tokens.len() as usize;
    let by_term = |term: Seq<char>|
        formula(
            tokens.filter(|doc: Seq<Seq<char>>| doc.contains(term)).len() as u32,
            tokens.len() as usize,
        );
    lemma_interned_strings(tokens, strings);
    assert(docs.len() == tokens.len());
    let (raw, floor) = choose|raw: Map<usize, u64>, floor: u64|
        weighs(nd, docs.len() as usize, idf, raw) && #[trigger] floors(
            raw,
            floor_of,
            floor,
            index.weights(),
        );
    assert forall|term: Seq<char>| #[trigger] mentions(tokens, term) implies raw[symbol_of(
        strings,
        term,
    )] == by_term(term) && nd.contains_key(symbol_of(strings, term)) by {
        lemma_frequency(tokens, strings, docs, term);
        documents_with_counts_documents(tokens, term);
        let symbol = symbol_of(strings, term);
        assert(call_ensures(idf, (nd[symbol], size), raw[symbol]));
    }
    assert forall|symbol: usize| symbol < strings.len() implies #[trigger] raw.contains_key(symbol)
        && raw[symbol] == by_term(strings[symbol as int]) by {
        let term = strings[symbol as int];
        assert(strings.contains(term));
        assert(strings[strings.index_of(term)] == term);
        assert(symbol_of(strings, term) == symbol);
        assert(mentions(tokens, term));
        assert(nd.dom().contains(symbol));
    }
    the_floor_replaces_negative_weights(raw, floor_of, floor, index.weights());
    assert forall|symbol: usize| #[trigger] index.weights().contains_key(symbol) <==> symbol
        < strings.len() by {
        if index.weights().contains_key(symbol) {
            assert(raw.dom().contains(symbol));
            assert(nd.contains_key(symbol));
            lemma_held_symbol(tokens, strings, docs, symbol);
        } else if symbol < strings.len() {
            assert(raw.contains_key(symbol));
            assert(index.weights().dom().contains(symbol));
        }
    }
    let (values, order) = choose|values: Vec<u64>, order: Seq<usize>|
        {
            &&& #[trigger] call_ensures(floor_of, (&values,), floor)
            &&& #[trigger] order.no_duplicates()
            &&& order.to_set() == raw.dom()
            &&& values@ == order.map_values(|symbol: usize| raw[symbol])
        };
    let names = lemma_values_by_term(tokens, strings, docs, raw, order, by_term);
    assert forall|term: Seq<char>| #[trigger] names.contains(term) <==> strings.contains(term) by {
        assert(names.contains(term) <==> mentions(tokens, term));
    }
    lemma_same_members(names, strings);
    lemma_map_multiset(names, strings, by_term);
    assert(values@.to_multiset() == strings.map_values(by_term).to_multiset());
    assert forall|symbol: usize| symbol < strings.len() implies #[trigger] index.weights()[symbol]
        == {
        let weight = formula(
            tokens.filter(
                |doc: Seq<Seq<char>>| doc.contains(index.strings()[symbol as int]),
            ).len() as u32,
            tokens.len() as usize,
        );
        if 0x8000_0000_0000_0000 < weight <= 0xfff0_0000_0000_0000 {
            floor
        } else {
            weight
        }
    } by {
        assert(raw.contains_key(symbol));
        let term = strings[symbol as int];
        assert((|doc: Seq<Seq<char>>| doc.contains(index.strings()[symbol as int])) =~= (|
            doc: Seq<Seq<char>>,
        | doc.contains(term)));
    }
    assert(call_ensures(floor_of, (&values,), floor));
}

// ---------------------------------------------------------------------------------------------
// Scores
// ---------------------------------------------------------------------------------------------

/// What a query finds in a document, folded over the terms of the query.
proof fn lemma_fold_query(
    query: Seq<Seq<char>>,
    strings: Seq<Seq<char>>,
    weights: Map<usize, u64>,
    counts: Map<usize, u32>,
    dl: u32,
    step: spec_fn(u64, (u32, u32, u64)) -> u64,
    occurs: spec_fn(Seq<char>) -> bool,
    joined: spec_fn(u64, Seq<char>) -> u64,
)
    requires
        forall|word: Seq<char>| #[trigger]
            occurs(word) <==> strings.contains(word) && weights.contains_key(
                symbol_of(strings, word),
            ) && counts.contains_key(symbol_of(strings, word)),
        forall|sum: u64, word: Seq<char>|
            occurs(word) ==> #[trigger] joined(sum, word) == step(
                sum,
                (counts[symbol_of(strings, word)], dl, weights[symbol_of(strings, word)]),
            ),
    ensures
        direct_parts(counts, dl, resolved(query, strings, weights)).fold_left(0u64, step)
            == query.filter(occurs).fold_left(0u64, joined),
    decreases query.len(),
{
    reveal(Seq::filter);
    if query.len() > 0 {
        let shorter = query.drop_last();
        let word = query.last();
        lemma_fold_query(shorter, strings, weights, counts, dl, step, occurs, joined);
        let before = resolved(shorter, strings, weights);
        let parts = direct_parts(counts, dl, before);
        let kept = shorter.filter(occurs);
        if strings.contains(word) && weights.contains_key(symbol_of(strings, word)) {
            let entry = (symbol_of(strings, word), weights[symbol_of(strings, word)]);
            assert(before.push(entry).drop_last() =~= before);
            assert(before.push(entry).last() == entry);
            if occurs(word) {
                let part = (counts[entry.0], dl, entry.1);
                assert(parts.push(part).drop_last() =~= parts);
                assert(kept.push(word).drop_last() =~= kept);
                assert(joined(kept.fold_left(0u64, joined), word) == step(
                    kept.fold_left(0u64, joined),
                    part,
                ));
            }
        }
    }
}

/// The score that an index gives a document for a query: from zero, for every word of the query
/// that occurs in the document, in order and every time it stands in the query, its contribution
/// is added. That is the contribution of the number of times the word occurs in the document, of
/// the number of tokens of the document, and of the weight that the index holds for the word.
pub proof fn a_score_says_what_the_tokens_say<
    I: Fn(u32, usize) -> u64,
    L: Fn(&Vec<u64>) -> u64,
    T: Fn(u32, u32, u64) -> u64,
    A: Fn(u64, u64) -> u64,
>(
    index: BM25Okapi,
    tokens: Seq<Seq<Seq<char>>>,
    idf: I,
    floor_of: L,
    query: Seq<Seq<char>>,
    scorer: Scorer<T, A>,
    term: spec_fn(u32, u32, u64) -> u64,
    plus: spec_fn(u64, u64) -> u64,
    scores: Seq<u64>,
    d: int,
)
    requires
        computes(scorer, term, plus),
        representable(tokens, Seq::<Seq<char>>::empty()),
        index.describes(tokens, idf, floor_of),
        index.scores_all(index.terms(query), scorer, scores),
        0 <= d < tokens.len(),
    ensures
        scores.len() == tokens.len(),
        scores[d] == query.filter(|word: Seq<char>| tokens[d].contains(word)).fold_left(
            0u64,
            |sum: u64, word: Seq<char>|
                plus(
                    sum,
                    term(
                        tokens[d].filter(|token: Seq<char>| token == word).len() as u32,
                        tokens[d].len() as u32,
                        index.weights()[index.strings().index_of(word) as usize],
                    ),
                ),
        ),
{
    let strings = index.strings();
    let weights = index.weights();
    let docs = index.docs();
    assert(docs.len() == tokens.len());
    let counts = docs[d];
    let dl = tokens[d].len() as u32;
    assert(index.lengths()[d] == dl);
    assert(counts == histogram(encoded(strings, tokens[d])));
    let step = |sum: u64, part: (u32, u32, u64)| plus(sum, term(part.0, part.1, part.2));
    let occurs = |word: Seq<char>| tokens[d].contains(word);
    let joined = |sum: u64, word: Seq<char>|
        plus(
            sum,
            term(
                tokens[d].filter(|token: Seq<char>| token == word).len() as u32,
                tokens[d].len() as u32,
                index.weights()[index.strings().index_of(word) as usize],
            ),
        );
    let parts = direct_parts(counts, dl, index.terms(query));
    assert(index.parts(index.terms(query))(d) == parts);
    assert(scorer.sums(index.parts(index.terms(query))(d), scores[d]));
    sums_fold_the_contributions(scorer, term, plus, parts, scores[d]);
    lemma_interned_strings(tokens, strings);
    assert(tokens[d].len() <= u32::MAX);
    assert forall|j: int| 0 <= j < tokens[d].len() implies strings.contains(
        #[trigger] tokens[d][j],
    ) by {}
    let nd = document_frequencies(docs);
    let (raw, floor) = choose|raw: Map<usize, u64>, floor: u64|
        weighs(nd, docs.len() as usize, idf, raw) && #[trigger] floors(
            raw,
            floor_of,
            floor,
            weights,
        );
    the_floor_replaces_negative_weights(raw, floor_of, floor, weights);
    assert forall|word: Seq<char>| #[trigger] occurs(word) <==> strings.contains(word)
        && weights.contains_key(symbol_of(strings, word)) && counts.contains_key(
        symbol_of(strings, word),
    ) by {
        if tokens[d].contains(word) {
            assert(strings.contains(tokens[d][tokens[d].index_of(word)]));
            counts_are_occurrences(strings, tokens[d], word);
            assert(mentions(tokens, word));
            lemma_frequency(tokens, strings, docs, word);
            assert(weights.dom().contains(symbol_of(strings, word)));
        } else if strings.contains(word) {
            counts_are_occurrences(strings, tokens[d], word);
        }
    }
    assert forall|sum: u64, word: Seq<char>| occurs(word) implies #[trigger] joined(sum, word)
        == step(
        sum,
        (counts[symbol_of(strings, word)], dl, weights[symbol_of(strings, word)]),
    ) by {
        assert(strings.contains(word));
        counts_are_occurrences(strings, tokens[d], word);
        assert(tokens[d].contains(word));
        let same = |token: Seq<char>| token == word;
        lemma_times_filter(tokens[d], word, same);
        let many = tokens[d].filter(same).len();
        assert(counts[symbol_of(strings, word)] == many as u32);
        assert(joined(sum, word) == plus(
            sum,
            term(many as u32, dl, weights[symbol_of(strings, word)]),
        ));
    }
    lemma_fold_query(query, strings, weights, counts, dl, step, occurs, joined);
}

/// A query finds something in a document as often as its words occur in the document: once for
/// every word of the query that does. So documents without a word of the query are those in which
/// nothing is found.
pub proof fn a_query_finds_the_words_that_occur<
    I: Fn(u32, usize) -> u64,
    L: Fn(&Vec<u64>) -> u64,
>(
    index: BM25Okapi,
    tokens: Seq<Seq<Seq<char>>>,
    idf: I,
    floor_of: L,
    query: Seq<Seq<char>>,
    d: int,
)
    requires
        representable(tokens, Seq::<Seq<char>>::empty()),
        index.describes(tokens, idf, floor_of),
    ensures
        0 <= d < tokens.len() ==> index.parts(index.terms(query))(d).len() == query.filter(
            |word: Seq<char>| tokens[d].contains(word),
        ).len(),
        d >= tokens.len() ==> index.parts(index.terms(query))(d).len() == 0,
    decreases query.len(),
{
    reveal(Seq::filter);
    let strings = index.strings();
    let weights = index.weights();
    let docs = index.docs();
    assert(docs.len() == tokens.len());
    if 0 <= d < tokens.len() && query.len() > 0 {
        let word = query.last();
        a_query_finds_the_words_that_occur(index, tokens, idf, floor_of, query.drop_last(), d);
        let before = index.terms(query.drop_last());
        let symbol = symbol_of(strings, word);
        let entry = (symbol, weights[symbol]);
        assert(before.push(entry).drop_last() =~= before);
        assert(before.push(entry).last() == entry);
        lemma_interned_strings(tokens, strings);
        assert(tokens[d].len() <= u32::MAX);
        assert(docs[d] == histogram(encoded(strings, tokens[d])));
        assert forall|j: int| 0 <= j < tokens[d].len() implies strings.contains(
            #[trigger] tokens[d][j],
        ) by {}
        if tokens[d].contains(word) {
            assert(strings.contains(tokens[d][tokens[d].index_of(word)]));
            assert(mentions(tokens, word));
            lemma_frequency(tokens, strings, docs, word);
            let nd = document_frequencies(docs);
            let (raw, floor) = choose|raw: Map<usize, u64>, floor: u64|
                weighs(nd, docs.len() as usize, idf, raw) && #[trigger] floors(
                    raw,
                    floor_of,
                    floor,
                    weights,
                );
            the_floor_replaces_negative_weights(raw, floor_of, floor, weights);
            assert(weights.dom().contains(symbol));
        }
        if strings.contains(word) {
            counts_are_occurrences(strings, tokens[d], word);
        }
    }
}

/// An index that describes documents has as many, with their lengths and the sum of these, and its
/// strings are the distinct tokens.
pub proof fn an_index_has_the_documents_it_describes<
    I: Fn(u32, usize) -> u64,
    L: Fn(&Vec<u64>) -> u64,
>(
    index: BM25Okapi,
    tokens: Seq<Seq<Seq<char>>>,
    idf: I,
    floor_of: L,
)
    requires
        representable(tokens, Seq::<Seq<char>>::empty()),
        index.describes(tokens, idf, floor_of),
    ensures
        index.docs().len() == tokens.len(),
        index.lengths().len() == tokens.len(),
        forall|d: int|
            0 <= d < tokens.len() ==> #[trigger] index.lengths()[d] == tokens[d].len(),
        index.length() == tokens.fold_left(
            0nat,
            |sum: nat, doc: Seq<Seq<char>>| sum + doc.len(),
        ),
        index.strings().no_duplicates(),
        forall|word: Seq<char>| #[trigger]
            index.strings().contains(word) <==> exists|d: int|
                0 <= d < tokens.len() && (#[trigger] tokens[d]).contains(word),
{
    total_length_adds_up_lengths(tokens);
    lemma_interned_strings(tokens, index.strings());
    assert forall|d: int| 0 <= d < tokens.len() implies #[trigger] index.lengths()[d]
        == tokens[d].len() by {
        assert(tokens[d].len() <= u32::MAX);
    }
    assert forall|word: Seq<char>| #[trigger] index.strings().contains(word) <==> exists|d: int|
        0 <= d < tokens.len() && (#[trigger] tokens[d]).contains(word) by {
        assert(index.strings().contains(word) <==> mentions(tokens, word));
    }
}

// ---------------------------------------------------------------------------------------------
// What is indexed
// ---------------------------------------------------------------------------------------------

/// Which tokens are indexed: those of the token lists if these are given, and else those of the
/// texts, by the tokenizer if there is one. Giving both or neither gives no tokens.
pub proof fn given_tokens_are_those_of_the_arguments<
    E,
    K: Fn(&String) -> Result<Vec<String>, E>,
>(
    docs: Vec<String>,
    tokenizer: K,
    lists: Vec<Vec<String>>,
    any_tokenizer: Option<K>,
    tokens: Seq<Seq<Seq<char>>>,
)
    ensures
        gives_tokens(None, any_tokenizer, Some(lists), tokens) <==> {
            &&& tokens.len() == lists@.len()
            &&& forall|i: int|
                0 <= i < tokens.len() ==> (#[trigger] tokens[i]).len() == lists@[i]@.len()
                    && forall|j: int|
                    0 <= j < tokens[i].len() ==> #[trigger] tokens[i][j] == lists@[i]@[j]@
        },
        gives_tokens(Some(docs), None::<K>, None, tokens) <==> {
            &&& tokens.len() == docs@.len()
            &&& forall|i: int|
                0 <= i < tokens.len() ==> #[trigger] tokens[i] == document_tokens(docs@[i]@)
        },
        gives_tokens(Some(docs), Some(tokenizer), None, tokens) <==> {
            &&& tokens.len() == docs@.len()
            &&& forall|i: int|
                0 <= i < tokens.len() ==> returns_tokens(tokenizer, docs@[i], #[trigger] tokens[i])
        },
        !gives_tokens(Some(docs), any_tokenizer, Some(lists), tokens),
        !gives_tokens(None, any_tokenizer, None, tokens),
        gives_nothing(Some(docs), None) <==> docs@.len() == 0,
        gives_nothing(None, Some(lists)) <==> lists@.len() == 0,
        !gives_nothing(Some(docs), Some(lists)),
        !gives_nothing(None, None),
{
    let right = tokens.len() == lists@.len() && forall|i: int|
        0 <= i < tokens.len() ==> (#[trigger] tokens[i]).len() == lists@[i]@.len() && forall|j: int|
            0 <= j < tokens[i].len() ==> #[trigger] tokens[i][j] == lists@[i]@[j]@;
    if right {
        assert forall|i: int| 0 <= i < lists@.len() implies #[trigger] tokens[i]
            == texts(lists@[i]@) by {
            assert(tokens[i] =~= texts(lists@[i]@));
        }
    }
}

/// An index is built from the tokens that the arguments give, which are at least one document and
/// can be indexed.
pub proof fn an_index_is_built_from_what_is_given<
    E,
    K: Fn(&String) -> Result<Vec<String>, E>,
    I: Fn(u32, usize) -> u64,
    L: Fn(&Vec<u64>) -> u64,
>(
    index: BM25Okapi,
    corpus: Option<Vec<String>>,
    tokenizer: Option<K>,
    tokenized_corpus: Option<Vec<Vec<String>>>,
    idf: I,
    floor_of: L,
)
    requires
        index.built_from(corpus, tokenizer, tokenized_corpus, idf, floor_of),
    ensures
        exists|tokens: Seq<Seq<Seq<char>>>|
            {
                &&& #[trigger] gives_tokens(corpus, tokenizer, tokenized_corpus, tokens)
                &&& tokens.len() > 0
                &&& representable(tokens, Seq::<Seq<char>>::empty())
                &&& index.describes(tokens, idf, floor_of)
            },
        corpus is Some && tokenized_corpus is None ==> index.docs().len() == corpus->0@.len(),
        corpus is None && tokenized_corpus is Some ==> index.docs().len()
            == tokenized_corpus->0@.len(),
        corpus is Some <==> tokenized_corpus is None,
{
}

} // verus!
