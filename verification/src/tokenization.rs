//! Splitting documents into tokens.
use crate::collections::{texts, tokens_from_vec, Tokens};
use crate::parallel::parallel_map;
use crate::text::{
    split_whitespace, split_words, to_ascii_lowercase, to_lowercase, unicode_lower, white_space,
};
use vstd::prelude::*;

verus! {

/// The words of a text, separated by white space.
pub open spec fn words(text: Seq<char>) -> Seq<Seq<char>> {
    split_words(text, |c: char| white_space(c))
}

/// The tokens of a document: its words in lower case.
pub open spec fn document_tokens(text: Seq<char>) -> Seq<Seq<char>> {
    words(text).map_values(|word: Seq<char>| unicode_lower(word))
}

/// Lower-cases a token, with a fast path for ASCII. The path that is taken makes no difference.
pub fn lowercase_token(token: &str) -> (lowercased: String)
    ensures
        lowercased@ == unicode_lower(token@),
{
    if token.is_ascii() {
        to_ascii_lowercase(token)
    } else {
        to_lowercase(token)
    }
}

/// Splits a document at white space and lower-cases the tokens.
pub fn tokenize_document(doc: &str) -> (tokens: Tokens)
    ensures
        tokens@ == document_tokens(doc@),
{
    let found = split_whitespace(doc);
    let ghost expected = document_tokens(doc@);
    let mut lowercased: Vec<String> = Vec::new();
    let mut i: usize = 0;
    while i < found.len()
        invariant
            found@.map_values(|word: &str| word@) == words(doc@),
            expected == document_tokens(doc@),
            i <= found@.len(),
            texts(lowercased@) == expected.take(i as int),
        decreases found@.len() - i,
    {
        assert(words(doc@)[i as int] == found@[i as int]@);
        let ghost before = lowercased@;
        lowercased.push(lowercase_token(found[i]));
        proof {
            assert(lowercased@.last()@ == expected[i as int]);
            assert(texts(lowercased@) =~= texts(before).push(expected[i as int]));
            assert(expected.take(i + 1) =~= expected.take(i as int).push(expected[i as int]));
        }
        i += 1;
    }
    assert(expected.take(i as int) =~= expected);
    tokens_from_vec(lowercased)
}

/// Tokenizes the documents of a corpus in parallel.
pub fn tokenize_corpus_parallel(corpus: &[String]) -> (tokenized: Vec<Tokens>)
    ensures
        tokenized@.len() == corpus@.len(),
        forall|i: int|
            0 <= i < corpus@.len() ==> (#[trigger] tokenized@[i])@ == document_tokens(corpus@[i]@),
{
    let tokenize = |doc: &String| -> (tokens: Tokens)
        ensures
            tokens@ == document_tokens(doc@),
        { tokenize_document(doc.as_str()) };
    parallel_map(corpus, tokenize)
}

/// Tokenizes the documents of a corpus with a callback that may fail, and stops at the first
/// failure.
pub fn tokenize_corpus_with_py<E, F: Fn(&String) -> Result<Vec<String>, E>>(
    corpus: &[String],
    tokenizer: &F,
) -> (tokenized: Result<Vec<Tokens>, E>)
    requires
        forall|i: int|
            0 <= i < corpus@.len() ==> call_requires(*tokenizer, (&#[trigger] corpus@[i],)),
    ensures
        tokenized matches Ok(docs) ==> docs@.len() == corpus@.len() && forall|i: int|
            0 <= i < corpus@.len() ==> returns_tokens(
                *tokenizer,
                corpus@[i],
                (#[trigger] docs@[i])@,
            ),
        tokenized is Err ==> exists|i: int|
            fails_at(*tokenizer, corpus@, i, tokenized->Err_0),
{
    let mut tokenized: Vec<Tokens> = Vec::new();
    let mut i: usize = 0;
    while i < corpus.len()
        invariant
            forall|k: int|
                0 <= k < corpus@.len() ==> call_requires(*tokenizer, (&#[trigger] corpus@[k],)),
            i <= corpus@.len(),
            tokenized@.len() == i,
            forall|j: int|
                0 <= j < i ==> returns_tokens(*tokenizer, corpus@[j], (#[trigger] tokenized@[j])@),
        decreases corpus@.len() - i,
    {
        match tokenizer(&corpus[i]) {
            Ok(tokens) => {
                let ghost list = tokens;
                tokenized.push(tokens_from_vec(tokens));
                assert(call_ensures(*tokenizer, (&corpus@[i as int],), Ok::<Vec<String>, E>(list)));
            },
            Err(e) => {
                assert forall|j: int| 0 <= j < i implies returns_some(
                    *tokenizer,
                    #[trigger] corpus@[j],
                ) by {
                    assert(returns_tokens(*tokenizer, corpus@[j], tokenized@[j]@));
                }
                let failed: Result<Vec<Tokens>, E> = Err(e);
                assert(fails_at(*tokenizer, corpus@, i as int, failed->Err_0));
                return failed;
            },
        }
        i += 1;
    }
    Ok(tokenized)
}

/// The callback may return a list with these texts for `doc`.
pub open spec fn returns_tokens<E, F: Fn(&String) -> Result<Vec<String>, E>>(
    tokenizer: F,
    doc: String,
    tokens: Seq<Seq<char>>,
) -> bool {
    exists|list: Vec<String>| #[trigger]
        call_ensures(tokenizer, (&doc,), Ok::<Vec<String>, E>(list)) && tokens == texts(list@)
}

/// The callback may succeed on `doc`.
pub open spec fn returns_some<E, F: Fn(&String) -> Result<Vec<String>, E>>(
    tokenizer: F,
    doc: String,
) -> bool {
    exists|tokens: Seq<Seq<char>>| #[trigger] returns_tokens(tokenizer, doc, tokens)
}

/// The callback may fail with `error` on the document at `at`, after it has succeeded on those
/// before it.
pub open spec fn fails_at<E, F: Fn(&String) -> Result<Vec<String>, E>>(
    tokenizer: F,
    corpus: Seq<String>,
    at: int,
    error: E,
) -> bool {
    &&& 0 <= at < corpus.len()
    &&& call_ensures(tokenizer, (&corpus[at],), Err::<Vec<String>, E>(error))
    &&& forall|j: int| 0 <= j < at ==> returns_some(tokenizer, #[trigger] corpus[j])
}

/// Takes documents that are tokenized already.
pub fn tokenized_corpus_from_vecs(corpus: Vec<Vec<String>>) -> (tokenized: Vec<Tokens>)
    ensures
        tokenized@.len() == corpus@.len(),
        forall|i: int|
            0 <= i < corpus@.len() ==> (#[trigger] tokenized@[i])@ == texts(corpus@[i]@),
{
    let mut tokenized: Vec<Tokens> = Vec::new();
    for doc in it: corpus
        invariant
            it.seq() == corpus@,
            tokenized@.len() == it.index(),
            forall|i: int|
                0 <= i < it.index() ==> (#[trigger] tokenized@[i])@ == texts(corpus@[i]@),
    {
        tokenized.push(tokens_from_vec(doc));
    }
    tokenized
}

} // verus!
