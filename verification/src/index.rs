//! Corpus indexing: document frequencies and the inverted index.
use crate::collections::{
    counts_entries, counts_entry, counts_new, counts_of, ids_insert, ids_members, ids_new, ids_of,
    interner_get, lists_entries, postings_entry, postings_new, postings_of, texts, tokens_as_slice,
    Interner, Tokens,
};
use crate::interning::{
    has_room, intern_terms, interned, lemma_interned_contains, partly_interned, token_lists,
};
use crate::model::{
    document_frequencies, encoded, held, histogram, holders, inverted_index, lemma_histogram_push,
    lemma_holders, posting_list, symbol_of, total_length,
};
use crate::parallel::{keeps_ranges, parallel_map, parallel_reduce};
use ahash::{AHashMap, AHashSet};
use vstd::prelude::*;

pub use crate::idf::{calc_idf_l, calc_idf_okapi, calc_idf_plus};
pub use crate::tokenization::{
    lowercase_token, tokenize_corpus_parallel, tokenize_corpus_with_py, tokenize_document,
    tokenized_corpus_from_vecs,
};

verus! {

/// Counts the tokens of a document whose terms are interned: how often each symbol occurs, the
/// length of the document, and the symbols that occur.
fn count_document(doc: &Tokens, interner: &Interner) -> (counted: (
    AHashMap<usize, u32>,
    u32,
    AHashSet<usize>,
))
    requires
        doc@.len() <= u32::MAX,
        forall|j: int| 0 <= j < doc@.len() ==> interner@.contains(#[trigger] doc@[j]),
    ensures
        counts_of(counted.0) == histogram(encoded(interner@, doc@)),
        counted.1 == doc@.len(),
        ids_of(counted.2) == counts_of(counted.0).dom(),
{
    let ghost symbols = encoded(interner@, doc@);
    let tokens = tokens_as_slice(doc);
    let mut freqs = counts_new();
    let mut unique = ids_new();
    assert(texts(tokens@).len() == tokens@.len());
    assert(counts_of(freqs) =~= histogram(symbols.take(0)));
    let mut j: usize = 0;
    while j < tokens.len()
        invariant
            texts(tokens@) == doc@,
            symbols == encoded(interner@, doc@),
            doc@.len() <= u32::MAX,
            forall|k: int| 0 <= k < doc@.len() ==> interner@.contains(#[trigger] doc@[k]),
            j <= tokens@.len(),
            counts_of(freqs) == histogram(symbols.take(j as int)),
            ids_of(unique) == counts_of(freqs).dom(),
        decreases tokens@.len() - j,
    {
        let ghost before = symbols.take(j as int);
        assert(texts(tokens@)[j as int] == tokens@[j as int]@);
        if let Some(symbol) = interner_get(interner, tokens[j].as_str()) {
            proof {
                let term = doc@[j as int];
                assert(interner@.contains(term));
                assert(interner@[interner@.index_of(term)] == term);
                assert(symbols[j as int] == symbol_of(interner@, term));
                assert(symbol == symbols[j as int]);
                lemma_histogram_push(before, symbol);
                assert(symbols.take(j + 1) =~= before.push(symbol));
            }
            let place = counts_entry(&mut freqs, symbol, 0);
            *place += 1;
            ids_insert(&mut unique, symbol);
            assert(counts_of(freqs) =~= histogram(symbols.take(j + 1)));
            assert(ids_of(unique) =~= counts_of(freqs).dom());
        }
        j += 1;
    }
    assert(symbols.take(j as int) =~= symbols);
    (freqs, tokens.len() as u32, unique)
}

/// The count of a symbol, which is zero where the map has none.
spec fn count_or_zero(counts: Map<usize, u32>, symbol: usize) -> int {
    if counts.contains_key(symbol) {
        counts[symbol] as int
    } else {
        0
    }
}

/// The counts of two maps added up.
spec fn added_counts(a: Map<usize, u32>, b: Map<usize, u32>) -> Map<usize, u32> {
    Map::new(
        |symbol: usize| a.contains_key(symbol) || b.contains_key(symbol),
        |symbol: usize| (count_or_zero(a, symbol) + count_or_zero(b, symbol)) as u32,
    )
}

/// No sum of two counts is too large.
spec fn can_add_counts(a: Map<usize, u32>, b: Map<usize, u32>) -> bool {
    forall|symbol: usize| #[trigger]
        count_or_zero(a, symbol) + count_or_zero(b, symbol) <= u32::MAX
}

/// `symbol` is among the first `upto` entries.
spec fn listed(entries: Seq<(usize, u32)>, upto: int, symbol: usize) -> bool {
    exists|k: int| 0 <= k < upto && (#[trigger] entries[k]).0 == symbol
}

/// Adds the counts of `local` to those of `acc`.
fn merge_counts(acc: AHashMap<usize, u32>, local: AHashMap<usize, u32>) -> (merged: AHashMap<
    usize,
    u32,
>)
    requires
        can_add_counts(counts_of(acc), counts_of(local)),
    ensures
        counts_of(merged) == added_counts(counts_of(acc), counts_of(local)),
{
    let ghost a = counts_of(acc);
    let ghost b = counts_of(local);
    let mut acc = acc;
    let entries = counts_entries(&local);
    let mut i: usize = 0;
    while i < entries.len()
        invariant
            can_add_counts(a, b),
            lists_entries(entries@, b),
            i <= entries@.len(),
            forall|s: usize| #[trigger]
                counts_of(acc).contains_key(s) <==> a.contains_key(s) || listed(
                    entries@,
                    i as int,
                    s,
                ),
            forall|s: usize| #[trigger]
                count_or_zero(counts_of(acc), s) == count_or_zero(a, s) + if listed(
                    entries@,
                    i as int,
                    s,
                ) {
                    count_or_zero(b, s)
                } else {
                    0
                },
        decreases entries@.len() - i,
    {
        let (symbol, count) = entries[i];
        let ghost before = counts_of(acc);
        assert(entries@[i as int] == (symbol, count));
        assert(!listed(entries@, i as int, symbol));
        assert(count_or_zero(before, symbol) == count_or_zero(a, symbol));
        assert(count_or_zero(a, symbol) + count_or_zero(b, symbol) <= u32::MAX);
        let place = counts_entry(&mut acc, symbol, 0);
        *place += count;
        proof {
            assert(listed(entries@, i + 1, symbol));
            assert forall|s: usize| s != symbol implies (#[trigger] listed(entries@, i + 1, s)
                <==> listed(entries@, i as int, s)) by {
                if listed(entries@, i + 1, s) {
                    let k = choose|k: int| 0 <= k < i + 1 && (#[trigger] entries@[k]).0 == s;
                    assert(k < i);
                }
            }
            assert forall|s: usize| s != symbol implies #[trigger] count_or_zero(counts_of(acc), s)
                == count_or_zero(before, s) by {}
        }
        i += 1;
    }
    proof {
        assert forall|s: usize| #[trigger] listed(entries@, i as int, s) <==> b.contains_key(s) by {
            if b.contains_key(s) {
                let k = choose|k: int| 0 <= k < entries@.len() && (#[trigger] entries@[k]).0 == s;
                assert(entries@[k].0 == s);
            }
        }
        assert forall|s: usize| counts_of(acc).contains_key(s) implies counts_of(acc)[s]
            == #[trigger] added_counts(a, b)[s] by {
            assert(count_or_zero(counts_of(acc), s) == count_or_zero(a, s) + count_or_zero(b, s));
        }
        assert(counts_of(acc) =~= added_counts(a, b));
    }
    acc
}

/// Counts every member of a set once.
fn count_members(set: &AHashSet<usize>) -> (counts: AHashMap<usize, u32>)
    ensures
        counts_of(counts) == Map::new(
            |symbol: usize| ids_of(*set).contains(symbol),
            |symbol: usize| 1u32,
        ),
{
    let members = ids_members(set);
    let mut counts = counts_new();
    let mut i: usize = 0;
    while i < members.len()
        invariant
            members@.no_duplicates(),
            i <= members@.len(),
            forall|s: usize| #[trigger]
                counts_of(counts).contains_key(s) <==> members@.take(i as int).contains(s),
            forall|s: usize| #[trigger]
                counts_of(counts).contains_key(s) ==> counts_of(counts)[s] == 1,
        decreases members@.len() - i,
    {
        let symbol = members[i];
        proof {
            let next = members@.take(i + 1);
            assert(next =~= members@.take(i as int).push(symbol));
            if members@.take(i as int).contains(symbol) {
                let k = members@.take(i as int).index_of(symbol);
                assert(members@[k] == members@[i as int]);
            }
            assert(next[i as int] == symbol);
            assert forall|s: usize| members@.take(i as int).contains(s) implies next.contains(
                s,
            ) by {
                let k = members@.take(i as int).index_of(s);
                assert(next[k] == s);
            }
        }
        let place = counts_entry(&mut counts, symbol, 0);
        *place += 1;
        i += 1;
    }
    assert(members@.take(i as int) =~= members@);
    assert(counts_of(counts) =~= Map::new(
        |symbol: usize| ids_of(*set).contains(symbol),
        |symbol: usize| 1u32,
    ));
    counts
}

/// What was counted in every document.
spec fn counted_docs(data: Seq<(AHashMap<usize, u32>, u32, AHashSet<usize>)>) -> Seq<
    Map<usize, u32>,
> {
    data.map_values(|counted: (AHashMap<usize, u32>, u32, AHashSet<usize>)| counts_of(counted.0))
}

/// The numbers of holders in two neighbouring ranges of documents add up.
proof fn lemma_holders_split(
    docs: Seq<Map<usize, u32>>,
    from: int,
    mid: int,
    to: int,
    symbol: usize,
)
    requires
        0 <= from <= mid <= to <= docs.len(),
    ensures
        holders(docs.subrange(from, to), symbol) == holders(docs.subrange(from, mid), symbol)
            + holders(docs.subrange(mid, to), symbol),
    decreases to - mid,
{
    if mid == to {
        assert(docs.subrange(mid, to) =~= Seq::empty());
    } else {
        lemma_holders_split(docs, from, mid, to - 1, symbol);
        assert(docs.subrange(from, to).drop_last() =~= docs.subrange(from, to - 1));
        assert(docs.subrange(mid, to).drop_last() =~= docs.subrange(mid, to - 1));
    }
}

/// The document frequencies of two neighbouring ranges of documents add up.
proof fn lemma_frequencies_split(docs: Seq<Map<usize, u32>>, from: int, mid: int, to: int)
    requires
        0 <= from <= mid <= to <= docs.len() <= u32::MAX,
    ensures
        can_add_counts(
            document_frequencies(docs.subrange(from, mid)),
            document_frequencies(docs.subrange(mid, to)),
        ),
        added_counts(
            document_frequencies(docs.subrange(from, mid)),
            document_frequencies(docs.subrange(mid, to)),
        ) == document_frequencies(docs.subrange(from, to)),
{
    let left = docs.subrange(from, mid);
    let right = docs.subrange(mid, to);
    let all = docs.subrange(from, to);
    assert forall|s: usize|
        #![trigger document_frequencies(all).contains_key(s)]
        #![trigger count_or_zero(document_frequencies(left), s)]
        {
            &&& count_or_zero(document_frequencies(left), s) == holders(left, s)
            &&& count_or_zero(document_frequencies(right), s) == holders(right, s)
            &&& holders(all, s) == holders(left, s) + holders(right, s)
            &&& holders(all, s) <= u32::MAX
            &&& held(all, s) <==> held(left, s) || held(right, s)
        } by {
        lemma_holders_split(docs, from, mid, to, s);
        lemma_holders(left, s);
        lemma_holders(right, s);
        lemma_holders(all, s);
    }
    assert(added_counts(document_frequencies(left), document_frequencies(right))
        =~= document_frequencies(all));
}

/// Counts for every symbol the documents in which it occurs.
fn count_holders(data: &Vec<(AHashMap<usize, u32>, u32, AHashSet<usize>)>) -> (nd: AHashMap<
    usize,
    u32,
>)
    requires
        data@.len() <= u32::MAX,
        forall|d: int|
            0 <= d < data@.len() ==> ids_of((#[trigger] data@[d]).2) == counts_of(data@[d].0).dom(),
    ensures
        counts_of(nd) == document_frequencies(counted_docs(data@)),
{
    let ghost docs = counted_docs(data@);
    let count_one = |counted: &(AHashMap<usize, u32>, u32, AHashSet<usize>)| -> (local: AHashMap<
        usize,
        u32,
    >)
        ensures
            counts_of(local) == Map::new(
                |symbol: usize| ids_of(counted.2).contains(symbol),
                |symbol: usize| 1u32,
            ),
        { count_members(&counted.2) };
    let locals = parallel_map(data.as_slice(), count_one);
    let identity = || -> (none: AHashMap<usize, u32>)
        ensures
            counts_of(none).dom() == Set::<usize>::empty(),
        { counts_new() };
    let op = |acc: AHashMap<usize, u32>, local: AHashMap<usize, u32>| -> (merged: AHashMap<
        usize,
        u32,
    >)
        requires
            can_add_counts(counts_of(acc), counts_of(local)),
        ensures
            counts_of(merged) == added_counts(counts_of(acc), counts_of(local)),
        { merge_counts(acc, local) };
    let ghost holds = |value: AHashMap<usize, u32>, from: int, to: int|
        counts_of(value) == document_frequencies(docs.subrange(from, to));
    proof {
        assert forall|value: AHashMap<usize, u32>, at: int|
            #![trigger holds(value, at, at)]
            0 <= at <= locals@.len() && call_ensures(identity, (), value) implies holds(
            value,
            at,
            at,
        ) by {
            assert(counts_of(value) =~= document_frequencies(docs.subrange(at, at)));
        }
        assert forall|d: int| 0 <= d < locals@.len() implies holds(
            #[trigger] locals@[d],
            d,
            d + 1,
        ) by {
            let one = docs.subrange(d, d + 1);
            assert(call_ensures(count_one, (&data@[d],), locals@[d]));
            assert(one[0] == counts_of(data@[d].0));
            assert forall|s: usize| #[trigger] held(one, s) <==> ids_of(data@[d].2).contains(s) by {
                if ids_of(data@[d].2).contains(s) {
                    assert(one[0].contains_key(s));
                }
            }
            assert forall|s: usize| #[trigger] held(one, s) implies holders(one, s) == 1 by {
                lemma_holders(one, s);
            }
            assert(counts_of(locals@[d]) =~= document_frequencies(one));
        }
        assert forall|
            left: AHashMap<usize, u32>,
            right: AHashMap<usize, u32>,
            from: int,
            mid: int,
            to: int,
        |
            0 <= from <= mid <= to <= locals@.len() && #[trigger] holds(left, from, mid)
                && #[trigger] holds(right, mid, to) implies call_requires(op, (left, right))
            && forall|joined: AHashMap<usize, u32>| #[trigger]
            call_ensures(op, (left, right), joined) ==> holds(joined, from, to) by {
            lemma_frequencies_split(docs, from, mid, to);
        }
        assert(keeps_ranges(holds, locals@, identity, op));
    }
    let nd = parallel_reduce(locals, identity, op);
    proof {
        assert(holds(nd, 0, docs.len() as int));
        assert(docs.subrange(0, docs.len() as int) =~= docs);
    }
    nd
}

/// The posting list of a symbol, which is empty where the map has none.
spec fn postings_or_empty(map: Map<usize, Seq<(u32, u32)>>, symbol: usize) -> Seq<(u32, u32)> {
    if map.contains_key(symbol) {
        map[symbol]
    } else {
        Seq::empty()
    }
}

/// A symbol that occurs nowhere has an empty posting list.
proof fn lemma_inverted_index(docs: Seq<Map<usize, u32>>, symbol: usize)
    ensures
        postings_or_empty(inverted_index(docs), symbol) == posting_list(docs, symbol),
{
    lemma_holders(docs, symbol);
    if !held(docs, symbol) {
        assert(posting_list(docs, symbol) =~= Seq::empty());
    }
}

/// The posting lists with one more document.
proof fn lemma_posting_list_take(docs: Seq<Map<usize, u32>>, at: int, symbol: usize)
    requires
        0 <= at < docs.len(),
    ensures
        posting_list(docs.take(at + 1), symbol) == if docs[at].contains_key(symbol) {
            posting_list(docs.take(at), symbol).push((at as u32, docs[at][symbol]))
        } else {
            posting_list(docs.take(at), symbol)
        },
        held(docs.take(at + 1), symbol) <==> held(docs.take(at), symbol) || docs[at].contains_key(
            symbol,
        ),
{
    let next = docs.take(at + 1);
    assert(next.drop_last() =~= docs.take(at));
    assert(next.last() == docs[at]);
    lemma_holders(next, symbol);
    lemma_holders(docs.take(at), symbol);
}

/// Turns the counts of the documents into posting lists.
fn invert(doc_freqs: &Vec<AHashMap<usize, u32>>) -> (inverted: AHashMap<usize, Vec<(u32, u32)>>)
    requires
        doc_freqs@.len() <= u32::MAX,
    ensures
        postings_of(inverted) == inverted_index(
            doc_freqs@.map_values(|freqs: AHashMap<usize, u32>| counts_of(freqs)),
        ),
{
    let ghost docs = doc_freqs@.map_values(|freqs: AHashMap<usize, u32>| counts_of(freqs));
    let mut inverted = postings_new();
    assert(postings_of(inverted) =~= inverted_index(docs.take(0)));
    let mut d: usize = 0;
    while d < doc_freqs.len()
        invariant
            docs == doc_freqs@.map_values(|freqs: AHashMap<usize, u32>| counts_of(freqs)),
            doc_freqs@.len() <= u32::MAX,
            d <= doc_freqs@.len(),
            postings_of(inverted) == inverted_index(docs.take(d as int)),
        decreases doc_freqs@.len() - d,
    {
        let ghost before = docs.take(d as int);
        let entries = counts_entries(&doc_freqs[d]);
        assert(docs[d as int] == counts_of(doc_freqs@[d as int]));
        proof {
            assert forall|s: usize| #[trigger]
                postings_or_empty(postings_of(inverted), s) == posting_list(before, s) by {
                lemma_inverted_index(before, s);
            }
        }
        let mut i: usize = 0;
        while i < entries.len()
            invariant
                lists_entries(entries@, docs[d as int]),
                d < doc_freqs@.len() <= u32::MAX,
                i <= entries@.len(),
                forall|s: usize| #[trigger]
                    postings_of(inverted).contains_key(s) <==> held(before, s) || listed(
                        entries@,
                        i as int,
                        s,
                    ),
                forall|s: usize| #[trigger]
                    postings_or_empty(postings_of(inverted), s) == if listed(
                        entries@,
                        i as int,
                        s,
                    ) {
                        posting_list(before, s).push((d as u32, docs[d as int][s]))
                    } else {
                        posting_list(before, s)
                    },
            decreases entries@.len() - i,
        {
            let (symbol, freq) = entries[i];
            let ghost earlier = postings_of(inverted);
            assert(entries@[i as int] == (symbol, freq));
            assert(!listed(entries@, i as int, symbol));
            assert(postings_or_empty(earlier, symbol) == posting_list(before, symbol));
            let place = postings_entry(&mut inverted, symbol);
            place.push((d as u32, freq));
            proof {
                assert(listed(entries@, i + 1, symbol));
                assert forall|s: usize| s != symbol implies (#[trigger] listed(entries@, i + 1, s)
                    <==> listed(entries@, i as int, s)) by {
                    if listed(entries@, i + 1, s) {
                        let k = choose|k: int| 0 <= k < i + 1 && (#[trigger] entries@[k]).0 == s;
                        assert(k < i);
                    }
                }
                assert forall|s: usize| s != symbol implies #[trigger] postings_or_empty(
                    postings_of(inverted),
                    s,
                ) == postings_or_empty(earlier, s) by {}
            }
            i += 1;
        }
        proof {
            let next = docs.take(d + 1);
            assert forall|s: usize| #[trigger]
                listed(entries@, i as int, s) <==> docs[d as int].contains_key(s) by {
                if docs[d as int].contains_key(s) {
                    let k = choose|k: int|
                        0 <= k < entries@.len() && (#[trigger] entries@[k]).0 == s;
                    assert(entries@[k].0 == s);
                }
            }
            assert forall|s: usize| #[trigger]
                postings_of(inverted).contains_key(s) <==> held(next, s) by {
                lemma_posting_list_take(docs, d as int, s);
            }
            assert forall|s: usize| postings_of(inverted).contains_key(s) implies postings_of(
                inverted,
            )[s] == #[trigger] inverted_index(next)[s] by {
                lemma_posting_list_take(docs, d as int, s);
                assert(postings_or_empty(postings_of(inverted), s) == posting_list(next, s));
            }
            assert(postings_of(inverted) =~= inverted_index(next));
        }
        d += 1;
    }
    assert(docs.take(d as int) =~= docs);
    inverted
}

/// What is known of a corpus after indexing.
pub struct BuiltIndex {
    /// For every document, how often each symbol occurs in it.
    pub doc_freqs: Vec<AHashMap<usize, u32>>,
    /// For every document, the number of its tokens.
    pub doc_len: Vec<u32>,
    /// For every symbol, the documents in which it occurs and how often.
    pub inverted: AHashMap<usize, Vec<(u32, u32)>>,
    /// For every symbol, the number of documents in which it occurs.
    pub nd: AHashMap<usize, u32>,
    /// The number of tokens of all documents. The average document length is this number divided
    /// by the number of documents.
    pub total_len: u64,
    /// The number of documents.
    pub corpus_size: usize,
}

/// The documents as maps from symbols to counts.
pub open spec fn doc_counts(doc_freqs: Seq<AHashMap<usize, u32>>) -> Seq<Map<usize, u32>> {
    doc_freqs.map_values(|freqs: AHashMap<usize, u32>| counts_of(freqs))
}

impl BuiltIndex {
    /// The index describes `corpus`, whose terms have the symbols that `strings` gives them.
    pub open spec fn describes(
        self,
        corpus: Seq<Seq<Seq<char>>>,
        strings: Seq<Seq<char>>,
    ) -> bool {
        let docs = doc_counts(self.doc_freqs@);
        &&& self.corpus_size == corpus.len()
        &&& docs == corpus.map_values(|doc: Seq<Seq<char>>| histogram(encoded(strings, doc)))
        &&& self.doc_len@ == corpus.map_values(|doc: Seq<Seq<char>>| doc.len() as u32)
        &&& self.total_len == total_length(corpus)
        &&& counts_of(self.nd) == document_frequencies(docs)
        &&& postings_of(self.inverted) == inverted_index(docs)
    }
}

/// The numbers of documents, tokens and terms can be represented.
pub open spec fn representable(corpus: Seq<Seq<Seq<char>>>, strings: Seq<Seq<char>>) -> bool {
    &&& corpus.len() <= u32::MAX
    &&& forall|d: int| 0 <= d < corpus.len() ==> (#[trigger] corpus[d]).len() <= u32::MAX
    &&& has_room(strings, corpus)
}

/// Indexes a corpus and interns its terms, if its numbers can be represented. If not, some of the
/// terms may have been interned.
pub fn index_corpus(corpus: Vec<Tokens>, interner: &mut Interner) -> (built: Option<
    BuiltIndex,
>)
    ensures
        built is Some <==> representable(token_lists(corpus@), old(interner)@),
        built matches Some(index) ==> {
            &&& index.describes(token_lists(corpus@), final(interner)@)
            &&& interned(old(interner)@, token_lists(corpus@), final(interner)@)
        },
        built is None ==> partly_interned(
            old(interner)@,
            token_lists(corpus@),
            final(interner)@,
        ),
{
    let ghost lists = token_lists(corpus@);
    let corpus_size = corpus.len();
    assert(interner@.take(interner@.len() as int) =~= interner@);
    if corpus_size > 0xffff_ffff {
        return None;
    }
    let mut d: usize = 0;
    while d < corpus.len()
        invariant
            lists == token_lists(corpus@),
            interner@ == old(interner)@,
            interner@.take(interner@.len() as int) == interner@,
            d <= corpus@.len(),
            forall|k: int| 0 <= k < d ==> (#[trigger] lists[k]).len() <= u32::MAX,
        decreases corpus@.len() - d,
    {
        let doc = tokens_as_slice(&corpus[d]);
        assert(texts(doc@).len() == doc@.len());
        assert(lists[d as int] == texts(doc@));
        if doc.len() > 0xffff_ffff {
            return None;
        }
        d += 1;
    }
    if !intern_terms(&corpus, interner) {
        return None;
    }
    let symbols: &Interner = interner;
    let ghost strings = symbols@;
    proof {
        assert forall|k: int, j: int|
            0 <= k < lists.len() && 0 <= j < lists[k].len() implies strings.contains(
            #[trigger] lists[k][j],
        ) by {
            lemma_interned_contains(old(interner)@, lists, strings, k, j);
        }
    }
    let count_one = |doc: &Tokens| -> (counted: (AHashMap<usize, u32>, u32, AHashSet<usize>))
        requires
            doc@.len() <= u32::MAX,
            forall|j: int| 0 <= j < doc@.len() ==> symbols@.contains(#[trigger] doc@[j]),
        ensures
            counts_of(counted.0) == histogram(encoded(symbols@, doc@)),
            counted.1 == doc@.len(),
            ids_of(counted.2) == counts_of(counted.0).dom(),
        { count_document(doc, symbols) };
    assert forall|k: int| 0 <= k < corpus@.len() implies call_requires(
        count_one,
        (&#[trigger] corpus@[k],),
    ) by {
        assert(lists[k] == corpus@[k]@);
    }
    let doc_data = parallel_map(corpus.as_slice(), count_one);
    assert forall|k: int| 0 <= k < doc_data@.len() implies {
        &&& counts_of((#[trigger] doc_data@[k]).0) == histogram(encoded(strings, lists[k]))
        &&& doc_data@[k].1 == lists[k].len()
        &&& ids_of(doc_data@[k].2) == counts_of(doc_data@[k].0).dom()
    } by {
        assert(call_ensures(count_one, (&corpus@[k],), doc_data@[k]));
        assert(lists[k] == corpus@[k]@);
    }
    let ghost docs = lists.map_values(|doc: Seq<Seq<char>>| histogram(encoded(strings, doc)));
    let nd = count_holders(&doc_data);
    assert(counted_docs(doc_data@) =~= docs);
    let ghost data = doc_data@;
    let mut doc_freqs: Vec<AHashMap<usize, u32>> = Vec::new();
    let mut doc_len: Vec<u32> = Vec::new();
    let mut total_len: u64 = 0;
    assert(lists.take(0) =~= Seq::empty());
    for counted in it: doc_data
        invariant
            it.seq() == data,
            data.len() == lists.len() <= u32::MAX,
            forall|k: int|
                0 <= k < data.len() ==> counts_of((#[trigger] data[k]).0) == histogram(
                    encoded(strings, lists[k]),
                ) && data[k].1 == lists[k].len(),
            doc_freqs@.len() == it.index(),
            doc_len@.len() == it.index(),
            forall|k: int| 0 <= k < it.index() ==> #[trigger] doc_freqs@[k] == data[k].0,
            forall|k: int| 0 <= k < it.index() ==> #[trigger] doc_len@[k] == data[k].1,
            total_len == total_length(lists.take(it.index() as int)),
            total_len <= it.index() * u32::MAX,
    {
        proof {
            let at = it.index() as int;
            assert(lists.take(at + 1).drop_last() =~= lists.take(at));
            assert(at * u32::MAX + u32::MAX <= u32::MAX * u32::MAX) by (nonlinear_arith)
                requires
                    0 <= at < u32::MAX,
            ;
        }
        let (freqs, len, _) = counted;
        total_len += len as u64;
        doc_len.push(len);
        doc_freqs.push(freqs);
    }
    assert(lists.take(lists.len() as int) =~= lists);
    assert(doc_counts(doc_freqs@) =~= docs);
    assert(doc_len@ =~= lists.map_values(|doc: Seq<Seq<char>>| doc.len() as u32));
    let inverted = invert(&doc_freqs);
    Some(BuiltIndex { doc_freqs, doc_len, inverted, nd, total_len, corpus_size })
}

/// Builds the document frequencies, the inverted index and the document-frequency counts of a
/// corpus, and interns its terms.
pub fn build_index(corpus: Vec<Tokens>, interner: &mut Interner) -> (built: BuiltIndex)
    requires
        representable(token_lists(corpus@), old(interner)@),
    ensures
        built.describes(token_lists(corpus@), final(interner)@),
        interned(old(interner)@, token_lists(corpus@), final(interner)@),
{
    index_corpus(corpus, interner).unwrap()
}

/// A borrowed view of a built index for scoring.
pub struct IndexView<'a> {
    /// For every document, how often each symbol occurs in it.
    pub doc_freqs: &'a [AHashMap<usize, u32>],
    /// For every document, the number of its tokens.
    pub doc_len: &'a [u32],
    /// For every symbol, the documents in which it occurs and how often.
    pub inverted: &'a AHashMap<usize, Vec<(u32, u32)>>,
    /// The number of documents.
    pub corpus_size: usize,
    /// The number of tokens of all documents.
    pub total_len: u64,
}

impl<'a> IndexView<'a> {
    /// The documents as maps from symbols to counts.
    pub open spec fn docs(&self) -> Seq<Map<usize, u32>> {
        doc_counts(self.doc_freqs@)
    }

    /// The posting lists of the symbols.
    pub open spec fn postings(&self) -> Map<usize, Seq<(u32, u32)>> {
        postings_of(*self.inverted)
    }

    /// The parts belong to one corpus: the posting lists say the same as the counts of the
    /// documents.
    pub open spec fn consistent(&self) -> bool {
        &&& self.docs().len() == self.corpus_size <= u32::MAX
        &&& self.doc_len@.len() == self.corpus_size
        &&& self.postings() == inverted_index(self.docs())
    }
}

} // verus!
