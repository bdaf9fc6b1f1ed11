//! What an index says of a corpus, in terms of sequences and maps.
//!
//! A document is seen as the map from the symbols that occur in it to the number of times they
//! occur.
use vstd::prelude::*;

verus! {

/// The symbol of an interned string, which is its position.
pub open spec fn symbol_of(strings: Seq<Seq<char>>, term: Seq<char>) -> usize {
    strings.index_of(term) as usize
}

/// The symbols of the tokens of a document.
pub open spec fn encoded(strings: Seq<Seq<char>>, doc: Seq<Seq<char>>) -> Seq<usize> {
    doc.map_values(|term: Seq<char>| symbol_of(strings, term))
}

/// The number of times a symbol occurs.
pub open spec fn occurrences(symbols: Seq<usize>, symbol: usize) -> nat
    decreases symbols.len(),
{
    if symbols.len() == 0 {
        0
    } else {
        occurrences(symbols.drop_last(), symbol) + if symbols.last() == symbol {
            1nat
        } else {
            0nat
        }
    }
}

/// The number of times a term occurs in a document.
pub open spec fn times(doc: Seq<Seq<char>>, term: Seq<char>) -> nat
    decreases doc.len(),
{
    if doc.len() == 0 {
        0
    } else {
        times(doc.drop_last(), term) + if doc.last() == term {
            1nat
        } else {
            0nat
        }
    }
}

/// The number of documents in which a term occurs.
pub open spec fn documents_with(corpus: Seq<Seq<Seq<char>>>, term: Seq<char>) -> nat
    decreases corpus.len(),
{
    if corpus.len() == 0 {
        0
    } else {
        documents_with(corpus.drop_last(), term) + if corpus.last().contains(term) {
            1nat
        } else {
            0nat
        }
    }
}

/// Every symbol that occurs, with the number of times it does.
pub open spec fn histogram(symbols: Seq<usize>) -> Map<usize, u32> {
    Map::new(
        |symbol: usize| symbols.contains(symbol),
        |symbol: usize| occurrences(symbols, symbol) as u32,
    )
}

/// The symbol occurs in some document.
pub open spec fn held(docs: Seq<Map<usize, u32>>, symbol: usize) -> bool {
    exists|d: int| 0 <= d < docs.len() && (#[trigger] docs[d]).contains_key(symbol)
}

/// The number of documents in which the symbol occurs.
pub open spec fn holders(docs: Seq<Map<usize, u32>>, symbol: usize) -> nat
    decreases docs.len(),
{
    if docs.len() == 0 {
        0
    } else {
        holders(docs.drop_last(), symbol) + if docs.last().contains_key(symbol) {
            1nat
        } else {
            0nat
        }
    }
}

/// Every symbol that occurs, with the number of documents in which it does.
pub open spec fn document_frequencies(docs: Seq<Map<usize, u32>>) -> Map<usize, u32> {
    Map::new(|symbol: usize| held(docs, symbol), |symbol: usize| holders(docs, symbol) as u32)
}

/// The documents in which the symbol occurs, in order, each with the number of times.
pub open spec fn posting_list(docs: Seq<Map<usize, u32>>, symbol: usize) -> Seq<(u32, u32)>
    decreases docs.len(),
{
    if docs.len() == 0 {
        Seq::empty()
    } else {
        let before = posting_list(docs.drop_last(), symbol);
        if docs.last().contains_key(symbol) {
            before.push(((docs.len() - 1) as u32, docs.last()[symbol]))
        } else {
            before
        }
    }
}

/// The documents in which a term occurs, in order, each with the number of times.
pub open spec fn term_postings(corpus: Seq<Seq<Seq<char>>>, term: Seq<char>) -> Seq<(u32, u32)>
    decreases corpus.len(),
{
    if corpus.len() == 0 {
        Seq::empty()
    } else {
        let before = term_postings(corpus.drop_last(), term);
        if corpus.last().contains(term) {
            before.push(((corpus.len() - 1) as u32, times(corpus.last(), term) as u32))
        } else {
            before
        }
    }
}

/// Every symbol that occurs, with its posting list.
pub open spec fn inverted_index(docs: Seq<Map<usize, u32>>) -> Map<usize, Seq<(u32, u32)>> {
    Map::new(|symbol: usize| held(docs, symbol), |symbol: usize| posting_list(docs, symbol))
}

/// The sum of the lengths of the documents.
pub open spec fn total_length(docs: Seq<Seq<Seq<char>>>) -> nat
    decreases docs.len(),
{
    if docs.len() == 0 {
        0
    } else {
        total_length(docs.drop_last()) + docs.last().len()
    }
}

pub proof fn lemma_occurrences(symbols: Seq<usize>, symbol: usize)
    ensures
        occurrences(symbols, symbol) <= symbols.len(),
        occurrences(symbols, symbol) > 0 <==> symbols.contains(symbol),
    decreases symbols.len(),
{
    if symbols.len() > 0 {
        let before = symbols.drop_last();
        lemma_occurrences(before, symbol);
        assert(symbols =~= before.push(symbols.last()));
        if symbols.contains(symbol) && symbols.last() != symbol {
            let i = choose|i: int| 0 <= i < symbols.len() && symbols[i] == symbol;
            assert(before[i] == symbol);
        }
        if before.contains(symbol) {
            let i = choose|i: int| 0 <= i < before.len() && before[i] == symbol;
            assert(symbols[i] == symbol);
        }
    }
}

pub proof fn lemma_occurrences_push(symbols: Seq<usize>, next: usize, symbol: usize)
    ensures
        occurrences(symbols.push(next), symbol) == occurrences(symbols, symbol) + if next
            == symbol {
            1nat
        } else {
            0nat
        },
{
    assert(symbols.push(next).drop_last() =~= symbols);
}

/// One more symbol raises its own count and no other.
pub proof fn lemma_histogram_push(symbols: Seq<usize>, next: usize)
    requires
        symbols.len() < u32::MAX,
    ensures
        histogram(symbols.push(next)) == histogram(symbols).insert(
            next,
            (occurrences(symbols, next) + 1) as u32,
        ),
        histogram(symbols).contains_key(next) <==> occurrences(symbols, next) > 0,
        occurrences(symbols, next) < u32::MAX,
{
    let after = symbols.push(next);
    lemma_occurrences(symbols, next);
    assert forall|s: usize| #[trigger]
        after.contains(s) <==> s == next || symbols.contains(s) by {
        lemma_occurrences_push(symbols, next, s);
        lemma_occurrences(symbols, s);
        lemma_occurrences(after, s);
    }
    assert forall|s: usize| #[trigger] after.contains(s) && s != next implies occurrences(after, s)
        == occurrences(symbols, s) by {
        lemma_occurrences_push(symbols, next, s);
    }
    lemma_occurrences_push(symbols, next, next);
    assert(histogram(after) =~= histogram(symbols).insert(
        next,
        (occurrences(symbols, next) + 1) as u32,
    ));
}

pub proof fn lemma_holders(docs: Seq<Map<usize, u32>>, symbol: usize)
    ensures
        holders(docs, symbol) <= docs.len(),
        holders(docs, symbol) > 0 <==> held(docs, symbol),
        posting_list(docs, symbol).len() == holders(docs, symbol),
    decreases docs.len(),
{
    if docs.len() > 0 {
        let before = docs.drop_last();
        lemma_holders(before, symbol);
        if held(docs, symbol) && !docs.last().contains_key(symbol) {
            let d = choose|d: int| 0 <= d < docs.len() && (#[trigger] docs[d]).contains_key(symbol);
            assert(before[d].contains_key(symbol));
        }
        if held(before, symbol) {
            let d = choose|d: int|
                0 <= d < before.len() && (#[trigger] before[d]).contains_key(symbol);
            assert(docs[d].contains_key(symbol));
        }
    }
}

} // verus!
