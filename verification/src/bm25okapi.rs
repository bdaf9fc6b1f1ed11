//! An index of a corpus with Okapi weights, and the queries it answers.
use crate::collections::{counts_of, postings_of, texts, weights_of, Interner, Tokens};
use crate::idf::{calc_idf_okapi, floors, weighs};
use crate::index::{doc_counts, index_corpus, representable, IndexView};
use crate::interning::{interned, token_lists};
use crate::laws::{
    asked_for, best_list_is_complete, inverted_parts_match_documents, posting_lists_name_documents,
};
use crate::model::{document_frequencies, encoded, histogram, inverted_index, total_length};
use crate::score::{Part, Scorer};
use crate::scoring::{
    all_parts, direct_parts, is_top, preprocess_query, resolved, score_all_inverted,
    score_documents_parallel, score_queries_batch, top_k_inverted, within, PreprocessedQuery,
};
use crate::tokenization::{
    document_tokens, fails_at, returns_tokens, tokenize_corpus_parallel, tokenize_corpus_with_py,
    tokenized_corpus_from_vecs,
};
use ahash::AHashMap;
use vstd::prelude::*;

verus! {

/// The number of documents that are returned where no number is given.
pub const DEFAULT_TOP: usize = 5;

/// What is wrong with an argument.
#[derive(Clone, Copy, Debug, PartialEq, Eq, Structural)]
pub enum InputError {
    /// Both a corpus and a tokenized corpus were given.
    BothCorpora,
    /// Neither a corpus nor a tokenized corpus was given.
    NoCorpus,
    /// The corpus has no documents.
    EmptyCorpus,
    /// The corpus has more documents, tokens or terms than can be numbered.
    TooLarge,
    /// The number of documents is not that of the index.
    DocumentMismatch,
    /// A document identifier is not below the number of documents.
    OutOfRange,
}

impl InputError {
    /// The message for a user.
    pub fn message(&self) -> (text: &'static str)
        ensures
            text@ == match *self {
                InputError::BothCorpora => "Provide either corpus or tokenized_corpus, not both."@,
                InputError::NoCorpus => "Either corpus or tokenized_corpus must be provided."@,
                InputError::EmptyCorpus => "Corpus size must be greater than zero."@,
                InputError::TooLarge => "Corpus is too large to be indexed."@,
                InputError::DocumentMismatch =>
                    "The documents given don't match the index corpus!"@,
                InputError::OutOfRange => "One or more document IDs are out of range."@,
            },
    {
        match self {
            InputError::BothCorpora => "Provide either corpus or tokenized_corpus, not both.",
            InputError::NoCorpus => "Either corpus or tokenized_corpus must be provided.",
            InputError::EmptyCorpus => "Corpus size must be greater than zero.",
            InputError::TooLarge => "Corpus is too large to be indexed.",
            InputError::DocumentMismatch => "The documents given don't match the index corpus!",
            InputError::OutOfRange => "One or more document IDs are out of range.",
        }
    }
}

/// Why a corpus could not be indexed.
pub enum BuildError<E> {
    /// An argument is wrong.
    Input(InputError),
    /// The tokenizer failed.
    Tokenizer(E),
}

/// An indexed corpus.
pub struct BM25Okapi {
    corpus_size: usize,
    total_len: u64,
    doc_freqs: Vec<AHashMap<usize, u32>>,
    doc_len: Vec<u32>,
    inverted: AHashMap<usize, Vec<(u32, u32)>>,
    idf: AHashMap<usize, u64>,
    interner: Interner,
}

/// The tokens of the documents are those that the arguments give.
pub open spec fn gives_tokens<E, K: Fn(&String) -> Result<Vec<String>, E>>(
    corpus: Option<Vec<String>>,
    tokenizer: Option<K>,
    tokenized_corpus: Option<Vec<Vec<String>>>,
    tokens: Seq<Seq<Seq<char>>>,
) -> bool {
    match (corpus, tokenized_corpus) {
        (Some(docs), None) => tokens.len() == docs@.len() && match tokenizer {
            Some(tokenize) => forall|i: int|
                0 <= i < docs@.len() ==> returns_tokens(tokenize, docs@[i], #[trigger] tokens[i]),
            None => forall|i: int|
                0 <= i < docs@.len() ==> #[trigger] tokens[i] == document_tokens(docs@[i]@),
        },
        (None, Some(lists)) => tokens.len() == lists@.len() && forall|i: int|
            0 <= i < lists@.len() ==> #[trigger] tokens[i] == texts(lists@[i]@),
        _ => false,
    }
}

/// Without a tokenizer that is called, the arguments give one list of tokens for every document.
pub proof fn tokens_are_determined<E, K: Fn(&String) -> Result<Vec<String>, E>>(
    corpus: Option<Vec<String>>,
    tokenizer: Option<K>,
    tokenized_corpus: Option<Vec<Vec<String>>>,
    x: Seq<Seq<Seq<char>>>,
    y: Seq<Seq<Seq<char>>>,
)
    requires
        tokenizer is None || corpus is None,
        gives_tokens(corpus, tokenizer, tokenized_corpus, x),
        gives_tokens(corpus, tokenizer, tokenized_corpus, y),
    ensures
        x == y,
{
    assert forall|i: int| 0 <= i < x.len() implies #[trigger] x[i] == y[i] by {}
    assert(x =~= y);
}

/// Exactly one of the two corpora is given, and it has no documents.
pub open spec fn gives_nothing(
    corpus: Option<Vec<String>>,
    tokenized_corpus: Option<Vec<Vec<String>>>,
) -> bool {
    match (corpus, tokenized_corpus) {
        (Some(docs), None) => docs@.len() == 0,
        (None, Some(lists)) => lists@.len() == 0,
        _ => false,
    }
}

impl BM25Okapi {
    #[verifier::type_invariant]
    spec fn consistent(self) -> bool {
        &&& 0 < self.corpus_size <= u32::MAX
        &&& self.doc_freqs@.len() == self.corpus_size
        &&& self.doc_len@.len() == self.corpus_size
        &&& postings_of(self.inverted) == inverted_index(doc_counts(self.doc_freqs@))
    }

    /// The documents as maps from symbols to counts.
    pub closed spec fn docs(&self) -> Seq<Map<usize, u32>> {
        doc_counts(self.doc_freqs@)
    }

    /// The lengths of the documents.
    pub closed spec fn lengths(&self) -> Seq<u32> {
        self.doc_len@
    }

    /// The number of tokens of all documents.
    pub closed spec fn length(&self) -> nat {
        self.total_len as nat
    }

    /// The weights of the symbols.
    pub closed spec fn weights(&self) -> Map<usize, u64> {
        weights_of(self.idf)
    }

    /// The interned terms, in the order of their symbols.
    pub closed spec fn strings(&self) -> Seq<Seq<char>> {
        self.interner@
    }

    /// The terms of a query that the index knows, with their weights.
    pub open spec fn terms(&self, query: Seq<Seq<char>>) -> Seq<(usize, u64)> {
        resolved(query, self.strings(), self.weights())
    }

    /// What every document holds of the terms.
    pub open spec fn parts(&self, terms: Seq<(usize, u64)>) -> spec_fn(int) -> Seq<Part> {
        |d: int|
            if 0 <= d < self.docs().len() {
                direct_parts(self.docs()[d], self.lengths()[d], terms)
            } else {
                Seq::empty()
            }
    }

    /// `scores` are the scores of all documents for the terms.
    pub open spec fn scores_all<T: Fn(u32, u32, u64) -> u64, A: Fn(u64, u64) -> u64>(
        &self,
        terms: Seq<(usize, u64)>,
        scorer: Scorer<T, A>,
        scores: Seq<u64>,
    ) -> bool {
        &&& scores.len() == self.docs().len()
        &&& forall|d: int|
            0 <= d < scores.len() ==> scorer.sums(self.parts(terms)(d), #[trigger] scores[d])
    }

    /// The index describes documents with these tokens.
    pub open spec fn describes<I: Fn(u32, usize) -> u64, L: Fn(&Vec<u64>) -> u64>(
        &self,
        tokens: Seq<Seq<Seq<char>>>,
        idf: I,
        floor_of: L,
    ) -> bool {
        &&& interned(Seq::<Seq<char>>::empty(), tokens, self.strings())
        &&& self.docs() == tokens.map_values(
            |doc: Seq<Seq<char>>| histogram(encoded(self.strings(), doc)),
        )
        &&& self.lengths() == tokens.map_values(|doc: Seq<Seq<char>>| doc.len() as u32)
        &&& self.length() == total_length(tokens)
        &&& exists|raw: Map<usize, u64>, floor: u64|
            weighs(
                document_frequencies(self.docs()),
                self.docs().len() as usize,
                idf,
                raw,
            ) && #[trigger] floors(raw, floor_of, floor, self.weights())
    }

    /// The index is one of the documents that the arguments give.
    pub open spec fn built_from<
        E,
        K: Fn(&String) -> Result<Vec<String>, E>,
        I: Fn(u32, usize) -> u64,
        L: Fn(&Vec<u64>) -> u64,
    >(
        &self,
        corpus: Option<Vec<String>>,
        tokenizer: Option<K>,
        tokenized_corpus: Option<Vec<Vec<String>>>,
        idf: I,
        floor_of: L,
    ) -> bool {
        exists|tokens: Seq<Seq<Seq<char>>>| #[trigger]
            gives_tokens(corpus, tokenizer, tokenized_corpus, tokens) && tokens.len() > 0
                && representable(tokens, Seq::<Seq<char>>::empty()) && self.describes(
                tokens,
                idf,
                floor_of,
            )
    }

    /// Indexes a corpus of texts or of token lists.
    ///
    /// A text is tokenized by the callback if there is one, and else split at white space and
    /// lower-cased.
    pub fn new<
        E,
        K: Fn(&String) -> Result<Vec<String>, E>,
        I: Fn(u32, usize) -> u64 + Sync,
        L: Fn(&Vec<u64>) -> u64,
    >(
        corpus: Option<Vec<String>>,
        tokenizer: Option<K>,
        tokenized_corpus: Option<Vec<Vec<String>>>,
        idf: &I,
        floor_of: &L,
    ) -> (built: Result<Self, BuildError<E>>)
        requires
            tokenizer is Some && corpus is Some && tokenized_corpus is None ==> forall|i: int|
                0 <= i < corpus->0@.len() ==> call_requires(
                    tokenizer->0,
                    (&#[trigger] corpus->0@[i],),
                ),
            forall|freq: u32, size: usize| call_requires(*idf, (freq, size)),
            forall|values: &Vec<u64>| call_requires(*floor_of, (values,)),
        ensures
            built matches Err(BuildError::Input(InputError::BothCorpora)) <==> corpus is Some
                && tokenized_corpus is Some,
            built matches Err(BuildError::Input(InputError::NoCorpus)) <==> corpus is None
                && tokenized_corpus is None,
            built matches Err(BuildError::Input(InputError::EmptyCorpus)) <==> gives_nothing(
                corpus,
                tokenized_corpus,
            ),
            built matches Err(BuildError::Input(error)) ==> error != InputError::DocumentMismatch
                && error != InputError::OutOfRange,
            built matches Err(BuildError::Input(InputError::TooLarge)) ==> exists|
                tokens: Seq<Seq<Seq<char>>>,
            | #[trigger]
                gives_tokens(corpus, tokenizer, tokenized_corpus, tokens) && !representable(
                    tokens,
                    Seq::<Seq<char>>::empty(),
                ),
            built is Err && built->Err_0 is Tokenizer ==> corpus is Some && tokenized_corpus is None
                && tokenizer is Some && exists|i: int|
                fails_at(tokenizer->0, corpus->0@, i, built->Err_0->Tokenizer_0),
            built matches Ok(index) ==> index.built_from(
                corpus,
                tokenizer,
                tokenized_corpus,
                *idf,
                *floor_of,
            ),
            tokenizer is None || corpus is None ==> (built is Ok <==> exists|
                tokens: Seq<Seq<Seq<char>>>,
            | #[trigger]
                gives_tokens(corpus, tokenizer, tokenized_corpus, tokens) && tokens.len() > 0
                    && representable(tokens, Seq::<Seq<char>>::empty())),
    {
        let ghost given = corpus;
        let ghost given_lists = tokenized_corpus;
        let tokenized: Vec<Tokens> = match (corpus, tokenized_corpus) {
            (Some(docs), None) => {
                match &tokenizer {
                    Some(tokenize) => match tokenize_corpus_with_py(docs.as_slice(), tokenize) {
                        Ok(tokenized) => tokenized,
                        Err(error) => {
                            let failed: Result<Self, BuildError<E>> = Err(
                                BuildError::Tokenizer(error),
                            );
                            proof {
                                let i = choose|i: int|
                                    fails_at(*tokenize, docs@, i, error);
                                assert(fails_at(
                                    tokenizer->0,
                                    given->0@,
                                    i,
                                    failed->Err_0->Tokenizer_0,
                                ));
                            }
                            return failed;
                        },
                    },
                    None => tokenize_corpus_parallel(docs.as_slice()),
                }
            },
            (None, Some(lists)) => tokenized_corpus_from_vecs(lists),
            (Some(_), Some(_)) => {
                return Err(BuildError::Input(InputError::BothCorpora));
            },
            (None, None) => {
                return Err(BuildError::Input(InputError::NoCorpus));
            },
        };
        let ghost tokens = token_lists(tokenized@);
        assert(gives_tokens(given, tokenizer, given_lists, tokens));
        if tokenized.is_empty() {
            return Err(BuildError::Input(InputError::EmptyCorpus));
        }
        let mut interner = Interner::default();
        let built = match index_corpus(tokenized, &mut interner) {
            Some(built) => built,
            None => {
                proof {
                    if tokenizer is None || given is None {
                        assert forall|other: Seq<Seq<Seq<char>>>| #[trigger]
                            gives_tokens(given, tokenizer, given_lists, other) implies other
                            == tokens by {
                            tokens_are_determined(given, tokenizer, given_lists, other, tokens);
                        }
                    }
                }
                return Err(BuildError::Input(InputError::TooLarge));
            },
        };
        let weights = calc_idf_okapi(built.nd, built.corpus_size, idf, floor_of);
        assert(doc_counts(built.doc_freqs@).len() == built.doc_freqs@.len());
        let index = BM25Okapi {
            corpus_size: built.corpus_size,
            total_len: built.total_len,
            doc_freqs: built.doc_freqs,
            doc_len: built.doc_len,
            inverted: built.inverted,
            idf: weights,
            interner,
        };
        proof {
            let (raw, floor) = choose|raw: Map<usize, u64>, floor: u64|
                weighs(counts_of(built.nd), built.corpus_size, *idf, raw) && #[trigger] floors(
                    raw,
                    *floor_of,
                    floor,
                    weights_of(weights),
                );
            assert(index.docs().len() as usize == built.corpus_size);
            assert(weighs(
                document_frequencies(index.docs()),
                index.docs().len() as usize,
                *idf,
                raw,
            ));
            assert(floors(raw, *floor_of, floor, index.weights()));
            assert(index.describes(tokens, *idf, *floor_of));
        }
        Ok(index)
    }

    /// The number of documents.
    pub fn corpus_size(&self) -> (size: usize)
        ensures
            size == self.docs().len(),
            size > 0,
    {
        proof {
            use_type_invariant(self);
        }
        self.corpus_size
    }

    /// The number of tokens of all documents.
    pub fn total_len(&self) -> (len: u64)
        ensures
            len == self.length(),
    {
        self.total_len
    }

    /// Looks up the terms of a query, for use in several calls.
    pub fn preprocess_query(&self, query: Vec<String>) -> (preprocessed: PreprocessedQuery)
        ensures
            preprocessed@ == self.terms(texts(query@)),
    {
        preprocess_query(query.as_slice(), &self.interner, &self.idf)
    }

    /// The parts of the index that scoring reads.
    fn index_view(&self) -> (view: IndexView<'_>)
        ensures
            view.consistent(),
            view.docs() == self.docs(),
            view.doc_len@ == self.lengths(),
            view.corpus_size == self.docs().len(),
            view.corpus_size > 0,
            view.doc_freqs@ == self.doc_freqs@,
    {
        proof {
            use_type_invariant(self);
        }
        IndexView {
            doc_freqs: self.doc_freqs.as_slice(),
            doc_len: self.doc_len.as_slice(),
            inverted: &self.inverted,
            corpus_size: self.corpus_size,
            total_len: self.total_len,
        }
    }

    /// What the posting lists of the index hold of the documents is what the documents hold.
    proof fn lemma_parts(&self, view: IndexView<'_>, terms: Seq<(usize, u64)>)
        requires
            view.consistent(),
            view.docs() == self.docs(),
            view.doc_len@ == self.lengths(),
        ensures
            all_parts(view, terms) == self.parts(terms),
            within(view.postings(), terms, view.corpus_size as int),
    {
        posting_lists_name_documents(view.docs(), terms);
        assert forall|d: int| #[trigger] all_parts(view, terms)(d) == self.parts(terms)(d) by {
            inverted_parts_match_documents(view.docs(), view.doc_len@[d], terms, d);
        }
        assert(all_parts(view, terms) =~= self.parts(terms));
    }

    /// The scores of all documents for a query.
    pub fn get_scores<T: Fn(u32, u32, u64) -> u64, A: Fn(u64, u64) -> u64>(
        &self,
        query: Vec<String>,
        scorer: &Scorer<T, A>,
    ) -> (scores: Vec<u64>)
        requires
            scorer.total(),
        ensures
            self.scores_all(self.terms(texts(query@)), *scorer, scores@),
    {
        let preprocessed = self.preprocess_query(query);
        self.get_scores_with_preprocessed(&preprocessed, scorer)
    }

    /// The scores of all documents for a query that was looked up before.
    pub fn get_scores_with_preprocessed<T: Fn(u32, u32, u64) -> u64, A: Fn(u64, u64) -> u64>(
        &self,
        preprocessed: &PreprocessedQuery,
        scorer: &Scorer<T, A>,
    ) -> (scores: Vec<u64>)
        requires
            scorer.total(),
        ensures
            self.scores_all(preprocessed@, *scorer, scores@),
    {
        let view = self.index_view();
        proof {
            self.lemma_parts(view, preprocessed@);
        }
        let scores = score_all_inverted(&view, preprocessed, scorer);
        assert forall|d: int| 0 <= d < scores@.len() implies scorer.sums(
            self.parts(preprocessed@)(d),
            #[trigger] scores@[d],
        ) by {
            assert(all_parts(view, preprocessed@)(d) == self.parts(preprocessed@)(d));
        }
        scores
    }

    /// The best documents for a query, with their scores: those that hold a term of the query, by
    /// score, and then the others with score zero.
    pub fn get_top_n_indices<T: Fn(u32, u32, u64) -> u64, A: Fn(u64, u64) -> u64>(
        &self,
        query: Vec<String>,
        n: Option<usize>,
        scorer: &Scorer<T, A>,
    ) -> (top: Vec<(usize, u64)>)
        requires
            scorer.total(),
        ensures
            self.is_top_n(texts(query@), n, *scorer, top@),
    {
        let k: usize = match n {
            Some(k) => k,
            None => DEFAULT_TOP,
        };
        let preprocessed = self.preprocess_query(query);
        let view = self.index_view();
        proof {
            self.lemma_parts(view, preprocessed@);
        }
        top_k_inverted(&view, &preprocessed, scorer, k)
    }

    /// `top` are the `n` best documents for a query, or five if no number is given.
    pub open spec fn is_top_n<T: Fn(u32, u32, u64) -> u64, A: Fn(u64, u64) -> u64>(
        &self,
        query: Seq<Seq<char>>,
        n: Option<usize>,
        scorer: Scorer<T, A>,
        top: Seq<(usize, u64)>,
    ) -> bool {
        let k = match n {
            Some(k) => k,
            None => DEFAULT_TOP,
        };
        if k == 0 {
            top.len() == 0
        } else {
            is_top(self.parts(self.terms(query)), scorer, self.docs().len(), k as nat, top)
        }
    }

    /// The best documents name documents of the index.
    proof fn lemma_top_in_range<T: Fn(u32, u32, u64) -> u64, A: Fn(u64, u64) -> u64>(
        &self,
        query: Seq<Seq<char>>,
        n: Option<usize>,
        scorer: Scorer<T, A>,
        top: Seq<(usize, u64)>,
    )
        requires
            self.is_top_n(query, n, scorer, top),
            self.docs().len() <= usize::MAX,
        ensures
            forall|i: int| 0 <= i < top.len() ==> (#[trigger] top[i]).0 < self.docs().len(),
    {
        if asked_for(n) > 0 {
            let parts = self.parts(self.terms(query));
            best_list_is_complete(parts, scorer, self.docs().len(), asked_for(n), top);
        }
    }

    /// The texts of the best documents for a query, with their scores.
    pub fn get_top_n<T: Fn(u32, u32, u64) -> u64, A: Fn(u64, u64) -> u64>(
        &self,
        query: Vec<String>,
        documents: Vec<String>,
        n: Option<usize>,
        scorer: &Scorer<T, A>,
    ) -> (top: Result<Vec<(String, u64)>, InputError>)
        requires
            scorer.total(),
        ensures
            top is Err <==> documents@.len() != self.docs().len(),
            top matches Err(error) ==> error == InputError::DocumentMismatch,
            top matches Ok(found) ==> exists|best: Seq<(usize, u64)>| #[trigger]
                self.is_top_n(texts(query@), n, *scorer, best) && found@.len() == best.len()
                    && forall|i: int|
                    0 <= i < found@.len() ==> (#[trigger] found@[i]).0@
                        == documents@[best[i].0 as int]@ && found@[i].1 == best[i].1,
    {
        if self.corpus_size() != documents.len() {
            return Err(InputError::DocumentMismatch);
        }
        let ghost asked = texts(query@);
        let best = self.get_top_n_indices(query, n, scorer);
        proof {
            self.lemma_top_in_range(asked, n, *scorer, best@);
        }
        let mut found: Vec<(String, u64)> = Vec::new();
        let mut i: usize = 0;
        while i < best.len()
            invariant
                documents@.len() == self.docs().len(),
                forall|j: int| 0 <= j < best@.len() ==> (#[trigger] best@[j]).0 < self.docs().len(),
                i <= best@.len(),
                found@.len() == i,
                forall|j: int|
                    0 <= j < i ==> (#[trigger] found@[j]).0@ == documents@[best@[j].0 as int]@
                        && found@[j].1 == best@[j].1,
            decreases best@.len() - i,
        {
            let (doc_id, score) = best[i];
            assert(best@[i as int].0 < self.docs().len());
            found.push((documents[doc_id].clone(), score));
            i += 1;
        }
        Ok(found)
    }

    /// The scores of all documents for a query. Documents are scored together, whatever chunk size
    /// is asked for.
    pub fn get_scores_chunked<T: Fn(u32, u32, u64) -> u64, A: Fn(u64, u64) -> u64>(
        &self,
        query: Vec<String>,
        chunk_size: Option<usize>,
        scorer: &Scorer<T, A>,
    ) -> (scores: Vec<u64>)
        requires
            scorer.total(),
        ensures
            self.scores_all(self.terms(texts(query@)), *scorer, scores@),
    {
        let _ = chunk_size;
        self.get_scores(query, scorer)
    }

    /// The scores of chosen documents for a query.
    pub fn get_batch_scores<
        T: Fn(u32, u32, u64) -> u64 + Sync,
        A: Fn(u64, u64) -> u64 + Sync,
    >(&self, query: Vec<String>, doc_ids: Vec<usize>, scorer: &Scorer<T, A>) -> (scores: Result<
        Vec<u64>,
        InputError,
    >)
        requires
            scorer.total(),
        ensures
            scores is Err <==> exists|i: int|
                0 <= i < doc_ids@.len() && #[trigger] doc_ids@[i] >= self.docs().len(),
            scores matches Err(error) ==> error == InputError::OutOfRange,
            scores matches Ok(list) ==> list@.len() == doc_ids@.len() && forall|i: int|
                0 <= i < list@.len() ==> scorer.sums(
                    self.parts(self.terms(texts(query@)))(doc_ids@[i] as int),
                    #[trigger] list@[i],
                ),
    {
        let size: usize = self.corpus_size();
        let mut i: usize = 0;
        while i < doc_ids.len()
            invariant
                size == self.docs().len(),
                i <= doc_ids@.len(),
                forall|j: int| 0 <= j < i ==> #[trigger] doc_ids@[j] < size,
            decreases doc_ids@.len() - i,
        {
            if doc_ids[i] >= size {
                assert(doc_ids@[i as int] >= self.docs().len());
                return Err(InputError::OutOfRange);
            }
            i += 1;
        }
        let preprocessed = self.preprocess_query(query);
        let view = self.index_view();
        let scores = score_documents_parallel(
            doc_ids.as_slice(),
            view.doc_freqs,
            view.doc_len,
            &preprocessed,
            scorer,
        );
        assert forall|j: int| 0 <= j < scores@.len() implies scorer.sums(
            self.parts(preprocessed@)(doc_ids@[j] as int),
            #[trigger] scores@[j],
        ) by {
            assert(doc_ids@[j] < size);
        }
        Ok(scores)
    }

    /// The scores of all documents for several queries.
    pub fn get_scores_batch<
        T: Fn(u32, u32, u64) -> u64 + Sync,
        A: Fn(u64, u64) -> u64 + Sync,
    >(&self, queries: Vec<Vec<String>>, scorer: &Scorer<T, A>) -> (scores: Vec<Vec<u64>>)
        requires
            scorer.total(),
        ensures
            scores@.len() == queries@.len(),
            forall|q: int|
                0 <= q < queries@.len() ==> self.scores_all(
                    self.terms(texts(queries@[q]@)),
                    *scorer,
                    (#[trigger] scores@[q])@,
                ),
    {
        let ghost asked = queries@;
        let mut preprocessed: Vec<PreprocessedQuery> = Vec::new();
        for query in it: queries
            invariant
                it.seq() == asked,
                preprocessed@.len() == it.index(),
                forall|q: int|
                    0 <= q < it.index() ==> (#[trigger] preprocessed@[q])@ == self.terms(
                        texts(asked[q]@),
                    ),
        {
            preprocessed.push(self.preprocess_query(query));
        }
        let view = self.index_view();
        proof {
            assert forall|q: int| 0 <= q < preprocessed@.len() implies within(
                view.postings(),
                (#[trigger] preprocessed@[q])@,
                view.corpus_size as int,
            ) && all_parts(view, preprocessed@[q]@) == self.parts(preprocessed@[q]@) by {
                self.lemma_parts(view, preprocessed@[q]@);
            }
        }
        let scores = score_queries_batch(&view, preprocessed.as_slice(), scorer);
        assert forall|q: int| 0 <= q < asked.len() implies self.scores_all(
            self.terms(texts(asked[q]@)),
            *scorer,
            (#[trigger] scores@[q])@,
        ) by {
            let terms = preprocessed@[q]@;
            assert forall|d: int| 0 <= d < scores@[q]@.len() implies scorer.sums(
                self.parts(terms)(d),
                #[trigger] scores@[q]@[d],
            ) by {
                assert(all_parts(view, terms)(d) == self.parts(terms)(d));
            }
        }
        scores
    }
}

} // verus!
