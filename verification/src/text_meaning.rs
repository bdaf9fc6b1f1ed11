//! What lower-casing, splitting and tokenizing mean, in terms of characters and sequences alone.
use crate::collections::{texts, Tokens};
use crate::interning::token_lists;
use crate::text::{ascii_lower, lower_beyond_ascii, split_words, unicode_lower, white_space};
use crate::tokenization::{document_tokens, fails_at, returns_some, returns_tokens, words};
use vstd::prelude::*;
use vstd::utf8::is_ascii_chars;

verus! {

// ---------------------------------------------------------------------------------------------
// Characters
// ---------------------------------------------------------------------------------------------

/// The code points of the characters that separate words.
pub open spec fn separator_codes() -> Set<u32> {
    set![
        0x9u32, 0xa, 0xb, 0xc, 0xd, 0x20, 0x85, 0xa0, 0x1680, 0x2000, 0x2001, 0x2002, 0x2003,
        0x2004, 0x2005, 0x2006, 0x2007, 0x2008, 0x2009, 0x200a, 0x2028, 0x2029, 0x202f, 0x205f,
        0x3000,
    ]
}

/// White space are these characters and no others.
pub proof fn white_space_is_listed(c: char)
    ensures
        white_space(c) <==> separator_codes().contains(c as u32),
        white_space(' ') && white_space('\t') && white_space('\n') && white_space('\r'),
        'a' <= c <= 'z' || 'A' <= c <= 'Z' || '0' <= c <= '9' ==> !white_space(c),
{
}

/// Lower-casing an ASCII text changes no character but the letters `A` to `Z`, which move by the
/// distance of the two alphabets. Lower-casing any other text is what `str::to_lowercase` does.
pub proof fn lowering_moves_capitals(text: Seq<char>)
    ensures
        is_ascii_chars(text) ==> unicode_lower(text).len() == text.len(),
        is_ascii_chars(text) ==> forall|i: int|
            0 <= i < text.len() ==> (#[trigger] unicode_lower(text)[i]) as int == if 65
                <= text[i] as int <= 90 {
                text[i] as int + 32
            } else {
                text[i] as int
            },
        !is_ascii_chars(text) ==> unicode_lower(text) == lower_beyond_ascii(text),
{
}

/// Lower-casing an ASCII text leaves no capital, keeps it ASCII, and changes nothing the second
/// time.
pub proof fn lowered_text_has_no_capitals(text: Seq<char>)
    requires
        is_ascii_chars(text),
    ensures
        is_ascii_chars(unicode_lower(text)),
        forall|i: int|
            0 <= i < unicode_lower(text).len() ==> !('A' <= #[trigger] unicode_lower(text)[i]
                <= 'Z'),
        unicode_lower(unicode_lower(text)) == unicode_lower(text),
{
    let lowered = unicode_lower(text);
    lowering_moves_capitals(text);
    assert forall|i: int| 0 <= i < lowered.len() implies '\0' <= #[trigger] lowered[i] <= '\u{7f}'
        && !('A' <= lowered[i] <= 'Z') by {
        assert('\0' <= text[i] <= '\u{7f}');
    }
    lowering_moves_capitals(lowered);
    assert(unicode_lower(lowered) =~= lowered) by {
        assert forall|i: int| 0 <= i < lowered.len() implies unicode_lower(lowered)[i]
            == lowered[i] by {
            assert(!('A' <= lowered[i] <= 'Z'));
        }
    }
}

// ---------------------------------------------------------------------------------------------
// Words
// ---------------------------------------------------------------------------------------------

/// A text without white space is one word, and an empty text has none. Where white space stands in
/// a text, the words are those before it, followed by those after it. This fixes the words of every
/// text.
pub proof fn words_are_what_white_space_separates(x: Seq<char>, gap: char, y: Seq<char>)
    ensures
        words(Seq::<char>::empty()) == Seq::<Seq<char>>::empty(),
        x.len() > 0 && (forall|i: int| 0 <= i < x.len() ==> !white_space(#[trigger] x[i]))
            ==> words(x) == seq![x],
        white_space(gap) ==> words(x.push(gap) + y) == words(x) + words(y),
{
    let separates = |c: char| white_space(c);
    assert(words(Seq::<char>::empty()) =~= Seq::empty());
    if x.len() > 0 && (forall|i: int| 0 <= i < x.len() ==> !white_space(#[trigger] x[i])) {
        assert forall|i: int| 0 <= i < x.len() implies !separates(#[trigger] x[i]) by {
            assert(!white_space(x[i]));
        }
        lemma_one_word(x, separates);
    }
    if white_space(gap) {
        lemma_words_of_both(x, gap, y, separates);
    }
}

proof fn lemma_one_word(text: Seq<char>, separates: spec_fn(char) -> bool)
    requires
        text.len() > 0,
        forall|i: int| 0 <= i < text.len() ==> !separates(#[trigger] text[i]),
    ensures
        split_words(text, separates) == seq![text],
    decreases text.len(),
{
    let before = text.drop_last();
    assert(!separates(text[text.len() - 1]));
    if text.len() == 1 {
        assert(split_words(before, separates) =~= Seq::empty());
        assert(seq![text.last()] =~= text);
    } else {
        assert forall|i: int| 0 <= i < before.len() implies !separates(#[trigger] before[i]) by {
            assert(before[i] == text[i]);
        }
        lemma_one_word(before, separates);
        assert(!separates(text[text.len() - 2]));
        assert(before.push(text.last()) =~= text);
    }
    assert(split_words(text, separates) =~= seq![text]);
}

proof fn lemma_words_of_both(
    x: Seq<char>,
    gap: char,
    y: Seq<char>,
    separates: spec_fn(char) -> bool,
)
    requires
        separates(gap),
    ensures
        split_words(x.push(gap) + y, separates) == split_words(x, separates) + split_words(
            y,
            separates,
        ),
        y.len() > 0 && !separates(y.last()) ==> split_words(y, separates).len() > 0,
    decreases y.len(),
{
    let joined = x.push(gap) + y;
    let expected = split_words(x, separates) + split_words(y, separates);
    if y.len() == 0 {
        assert(joined =~= x.push(gap));
        assert(joined.drop_last() =~= x);
    } else {
        lemma_words_of_both(x, gap, y.drop_last(), separates);
        assert(joined.drop_last() =~= x.push(gap) + y.drop_last());
        assert(joined.last() == y.last());
        if y.len() == 1 {
            assert(joined[joined.len() - 2] == gap);
        } else {
            assert(joined[joined.len() - 2] == y[y.len() - 2]);
            assert(y.drop_last().last() == y[y.len() - 2]);
        }
    }
    assert(split_words(joined, separates) =~= expected);
}

/// The characters of the words are characters of the text.
proof fn lemma_words_hold(
    text: Seq<char>,
    separates: spec_fn(char) -> bool,
    holds: spec_fn(char) -> bool,
)
    requires
        forall|i: int| 0 <= i < text.len() ==> holds(#[trigger] text[i]),
    ensures
        forall|w: int, i: int|
            0 <= w < split_words(text, separates).len() && 0 <= i < split_words(
                text,
                separates,
            )[w].len() ==> holds(#[trigger] split_words(text, separates)[w][i]),
    decreases text.len(),
{
    if text.len() > 0 {
        let shorter = text.drop_last();
        assert forall|i: int| 0 <= i < shorter.len() implies holds(#[trigger] shorter[i]) by {
            assert(shorter[i] == text[i]);
        }
        lemma_words_hold(shorter, separates, holds);
        let before = split_words(shorter, separates);
        let after = split_words(text, separates);
        assert(holds(text[text.len() - 1]));
        assert forall|w: int, i: int|
            0 <= w < after.len() && 0 <= i < after[w].len() implies holds(
            #[trigger] after[w][i],
        ) by {
            if separates(text.last()) {
                assert(holds(before[w][i]));
            } else if text.len() == 1 || separates(text[text.len() - 2]) {
                if w < before.len() {
                    assert(holds(before[w][i]));
                }
            } else {
                assert(shorter.last() == text[text.len() - 2]);
                lemma_last_word(shorter, separates);
                if w < after.len() - 1 {
                    assert(after[w] == before[w]);
                    assert(holds(before[w][i]));
                } else if i < after[w].len() - 1 {
                    assert(holds(before[w][i]));
                }
            }
        }
    }
}

proof fn lemma_last_word(text: Seq<char>, separates: spec_fn(char) -> bool)
    requires
        text.len() > 0,
        !separates(text.last()),
    ensures
        split_words(text, separates).len() > 0,
{
    assert(split_words(text, separates).len() > 0);
}

/// Changing characters so that what separates stays what it is changes the words in the same way.
proof fn lemma_words_mapped(
    text: Seq<char>,
    separates: spec_fn(char) -> bool,
    f: spec_fn(char) -> char,
)
    requires
        forall|i: int|
            0 <= i < text.len() ==> (separates(f(#[trigger] text[i])) <==> separates(text[i])),
    ensures
        split_words(text.map_values(f), separates) == split_words(text, separates).map_values(
            |word: Seq<char>| word.map_values(f),
        ),
    decreases text.len(),
{
    let change = |word: Seq<char>| word.map_values(f);
    let mapped = text.map_values(f);
    if text.len() > 0 {
        let shorter = text.drop_last();
        assert forall|i: int| 0 <= i < shorter.len() implies (separates(f(#[trigger] shorter[i]))
            <==> separates(shorter[i])) by {
            assert(shorter[i] == text[i]);
        }
        lemma_words_mapped(shorter, separates, f);
        assert(mapped.drop_last() =~= shorter.map_values(f));
        let last = text[text.len() - 1];
        assert(separates(f(last)) <==> separates(last));
        let before = split_words(shorter, separates);
        if !separates(last) {
            if text.len() == 1 {
                assert(seq![last].map_values(f) =~= seq![f(last)]);
            } else {
                let previous = text[text.len() - 2];
                assert(separates(f(previous)) <==> separates(previous));
                if separates(previous) {
                    assert(seq![last].map_values(f) =~= seq![f(last)]);
                } else {
                    assert(shorter.last() == previous);
                    lemma_last_word(shorter, separates);
                    assert(before.last().push(last).map_values(f) =~= before.last().map_values(
                        f,
                    ).push(f(last)));
                }
            }
        }
    }
    assert(split_words(mapped, separates) =~= split_words(text, separates).map_values(change));
}

// ---------------------------------------------------------------------------------------------
// Tokens
// ---------------------------------------------------------------------------------------------

/// The tokens of a text are as many as its words, and each is the word at its place in lower case,
/// however long it is.
pub proof fn tokens_are_words_in_lower_case(text: Seq<char>)
    ensures
        document_tokens(text).len() == words(text).len(),
        forall|i: int|
            0 <= i < words(text).len() ==> #[trigger] document_tokens(text)[i] == unicode_lower(
                words(text)[i],
            ),
{
}

/// A text that is one word has that word in lower case as its only token; white space in a text
/// separates the tokens before it from those after it.
pub proof fn tokens_of_words_and_of_joined_texts(x: Seq<char>, gap: char, y: Seq<char>)
    ensures
        document_tokens(Seq::<char>::empty()) == Seq::<Seq<char>>::empty(),
        x.len() > 0 && (forall|i: int| 0 <= i < x.len() ==> !white_space(#[trigger] x[i]))
            ==> document_tokens(x) == seq![unicode_lower(x)],
        white_space(gap) ==> document_tokens(x.push(gap) + y) == document_tokens(x)
            + document_tokens(y),
{
    words_are_what_white_space_separates(x, gap, y);
    assert(document_tokens(Seq::<char>::empty()) =~= Seq::empty());
    if words(x) == seq![x] {
        assert(document_tokens(x) =~= seq![unicode_lower(x)]);
    }
    if white_space(gap) {
        assert(document_tokens(x.push(gap) + y) =~= document_tokens(x) + document_tokens(y));
    }
}

/// The tokens of an ASCII text hold no capitals, and capitals in the text make no difference to
/// them.
pub proof fn capitals_make_no_difference(text: Seq<char>)
    requires
        is_ascii_chars(text),
    ensures
        document_tokens(unicode_lower(text)) == document_tokens(text),
        forall|t: int, i: int|
            0 <= t < document_tokens(text).len() && 0 <= i < document_tokens(text)[t].len()
                ==> !('A' <= #[trigger] document_tokens(text)[t][i] <= 'Z'),
{
    let separates = |c: char| white_space(c);
    let lower = |c: char| ascii_lower(c);
    let lowered = unicode_lower(text);
    lowering_moves_capitals(text);
    lowered_text_has_no_capitals(text);
    assert(lowered =~= text.map_values(lower));
    assert forall|i: int| 0 <= i < text.len() implies (separates(lower(#[trigger] text[i]))
        <==> separates(text[i])) by {
        assert('\0' <= text[i] <= '\u{7f}');
    }
    lemma_words_mapped(text, separates, lower);
    lemma_words_hold(text, separates, |c: char| '\0' <= c <= '\u{7f}');
    assert forall|w: int| 0 <= w < words(text).len() implies is_ascii_chars(
        #[trigger] words(text)[w],
    ) by {
        let word = words(text)[w];
        assert forall|i: int| 0 <= i < word.len() implies '\0' <= #[trigger] word[i]
            <= '\u{7f}' by {
            let holds = |c: char| '\0' <= c <= '\u{7f}';
            assert(holds(split_words(text, separates)[w][i]));
        }
    }
    assert forall|w: int| 0 <= w < words(text).len() implies words(lowered)[w] == unicode_lower(
        #[trigger] words(text)[w],
    ) && unicode_lower(words(lowered)[w]) == unicode_lower(words(text)[w]) by {
        let word = words(text)[w];
        assert(is_ascii_chars(word));
        lowered_text_has_no_capitals(word);
        assert(word.map_values(lower) =~= unicode_lower(word));
    }
    assert(document_tokens(lowered) =~= document_tokens(text));
    assert forall|t: int, i: int|
        0 <= t < document_tokens(text).len() && 0 <= i < document_tokens(text)[t].len() implies !(
    'A' <= #[trigger] document_tokens(text)[t][i] <= 'Z') by {
        let word = words(text)[t];
        assert(is_ascii_chars(word));
        lowered_text_has_no_capitals(word);
        assert(document_tokens(text)[t] == unicode_lower(word));
    }
}

/// The texts of strings and the token lists of documents stand at their places.
pub proof fn texts_stand_at_their_places(strings: Seq<String>, docs: Seq<Tokens>)
    ensures
        texts(strings).len() == strings.len(),
        forall|i: int| 0 <= i < strings.len() ==> #[trigger] texts(strings)[i] == strings[i]@,
        token_lists(docs).len() == docs.len(),
        forall|d: int| 0 <= d < docs.len() ==> #[trigger] token_lists(docs)[d] == docs[d]@,
{
}

/// A tokenizer gives tokens by returning a list of them, text for text.
pub proof fn a_tokenizer_gives_what_it_returns<E, F: Fn(&String) -> Result<Vec<String>, E>>(
    tokenizer: F,
    doc: String,
    tokens: Seq<Seq<char>>,
)
    ensures
        returns_tokens(tokenizer, doc, tokens) <==> exists|list: Vec<String>|
            {
                &&& #[trigger] call_ensures(tokenizer, (&doc,), Ok::<Vec<String>, E>(list))
                &&& tokens.len() == list@.len()
                &&& forall|i: int| 0 <= i < tokens.len() ==> #[trigger] tokens[i] == list@[i]@
            },
        returns_some(tokenizer, doc) <==> exists|list: Vec<String>| #[trigger]
            call_ensures(tokenizer, (&doc,), Ok::<Vec<String>, E>(list)),
{
    if returns_tokens(tokenizer, doc, tokens) {
        let list = choose|list: Vec<String>| #[trigger]
            call_ensures(tokenizer, (&doc,), Ok::<Vec<String>, E>(list)) && tokens == texts(list@);
        assert(call_ensures(tokenizer, (&doc,), Ok::<Vec<String>, E>(list)));
    }
    if exists|list: Vec<String>|
        {
            &&& #[trigger] call_ensures(tokenizer, (&doc,), Ok::<Vec<String>, E>(list))
            &&& tokens.len() == list@.len()
            &&& forall|i: int| 0 <= i < tokens.len() ==> #[trigger] tokens[i] == list@[i]@
        } {
        let list = choose|list: Vec<String>|
            {
                &&& #[trigger] call_ensures(tokenizer, (&doc,), Ok::<Vec<String>, E>(list))
                &&& tokens.len() == list@.len()
                &&& forall|i: int| 0 <= i < tokens.len() ==> #[trigger] tokens[i] == list@[i]@
            };
        assert(tokens =~= texts(list@));
    }
    if returns_some(tokenizer, doc) {
        let some = choose|some: Seq<Seq<char>>| #[trigger] returns_tokens(tokenizer, doc, some);
        let list = choose|list: Vec<String>| #[trigger]
            call_ensures(tokenizer, (&doc,), Ok::<Vec<String>, E>(list)) && some == texts(list@);
        assert(call_ensures(tokenizer, (&doc,), Ok::<Vec<String>, E>(list)));
    }
    if exists|list: Vec<String>| #[trigger]
        call_ensures(tokenizer, (&doc,), Ok::<Vec<String>, E>(list)) {
        let list = choose|list: Vec<String>| #[trigger]
            call_ensures(tokenizer, (&doc,), Ok::<Vec<String>, E>(list));
        assert(returns_tokens(tokenizer, doc, texts(list@)));
    }
}

/// A tokenizer that fails at a document returned that error for it, and has returned tokens for
/// every document before it.
pub proof fn a_tokenizer_fails_with_what_it_returns<E, F: Fn(&String) -> Result<Vec<String>, E>>(
    tokenizer: F,
    corpus: Seq<String>,
    at: int,
    error: E,
    earlier: int,
)
    requires
        fails_at(tokenizer, corpus, at, error),
    ensures
        0 <= at < corpus.len(),
        call_ensures(tokenizer, (&corpus[at],), Err::<Vec<String>, E>(error)),
        0 <= earlier < at ==> exists|list: Vec<String>| #[trigger]
            call_ensures(tokenizer, (&corpus[earlier],), Ok::<Vec<String>, E>(list)),
{
    if 0 <= earlier < at {
        assert(returns_some(tokenizer, corpus[earlier]));
        a_tokenizer_gives_what_it_returns(tokenizer, corpus[earlier], Seq::empty());
    }
}

} // verus!
