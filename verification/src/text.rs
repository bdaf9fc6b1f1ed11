//! What tokenization needs of the standard library's strings.
use vstd::prelude::*;
use vstd::string::*;
use vstd::utf8::is_ascii_chars;

verus! {

/// The lower-case form of an ASCII letter; any other character is itself.
pub open spec fn ascii_lower(c: char) -> char {
    if 'A' <= c <= 'Z' {
        (c as u32 + 32) as char
    } else {
        c
    }
}

/// `str::to_ascii_lowercase`: the letters `A` to `Z` become `a` to `z`, and nothing else changes.
#[verifier::external_body]
pub(crate) fn to_ascii_lowercase(text: &str) -> (lowered: String)
    ensures
        lowered@ == text@.map_values(|c: char| ascii_lower(c)),
{
    text.to_ascii_lowercase()
}

/// The Unicode lower-case form of a text that is not all ASCII, as `str::to_lowercase` returns it.
pub uninterp spec fn lower_beyond_ascii(text: Seq<char>) -> Seq<char>;

/// The Unicode lower-case form of a text. In an ASCII text the letters `A` to `Z` become `a` to
/// `z`, and nothing else changes.
pub open spec fn unicode_lower(text: Seq<char>) -> Seq<char> {
    if is_ascii_chars(text) {
        text.map_values(|c: char| ascii_lower(c))
    } else {
        lower_beyond_ascii(text)
    }
}

/// `str::to_lowercase`: the Unicode lower-case form of the text, in which ASCII letters are mapped
/// as `str::to_ascii_lowercase` maps them. Of a text with other characters it says only that the
/// result depends on the text alone.
#[verifier::external_body]
pub(crate) fn to_lowercase(text: &str) -> (lowered: String)
    ensures
        is_ascii_chars(text@) ==> lowered@ == text@.map_values(|c: char| ascii_lower(c)),
        !is_ascii_chars(text@) ==> lowered@ == lower_beyond_ascii(text@),
{
    text.to_lowercase()
}

/// The character has the Unicode property `White_Space`.
pub open spec fn white_space(c: char) -> bool {
    ||| '\u{9}' <= c <= '\u{d}'
    ||| c == '\u{20}' || c == '\u{85}' || c == '\u{a0}' || c == '\u{1680}'
    ||| '\u{2000}' <= c <= '\u{200a}'
    ||| c == '\u{2028}' || c == '\u{2029}' || c == '\u{202f}' || c == '\u{205f}' || c == '\u{3000}'
}

/// The longest stretches of a text that hold no separator, from left to right.
pub open spec fn split_words(text: Seq<char>, separates: spec_fn(char) -> bool) -> Seq<Seq<char>>
    decreases text.len(),
{
    if text.len() == 0 {
        Seq::empty()
    } else {
        let before = split_words(text.drop_last(), separates);
        if separates(text.last()) {
            before
        } else if text.len() == 1 || separates(text[text.len() - 2]) {
            before.push(seq![text.last()])
        } else {
            before.drop_last().push(before.last().push(text.last()))
        }
    }
}

/// `str::split_whitespace`: the words of the text, which are its longest stretches without Unicode
/// white space, from left to right.
#[verifier::external_body]
pub(crate) fn split_whitespace(text: &str) -> (words: Vec<&str>)
    ensures
        words@.map_values(|word: &str| word@) == split_words(text@, |c: char| white_space(c)),
{
    text.split_whitespace().collect()
}

} // verus!
