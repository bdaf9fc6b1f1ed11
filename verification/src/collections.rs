//! The hash maps, hash sets, small vectors and string interner that the index is made of.
//!
//! The collections come from the `ahash`, `smallvec` and `string-interner` crates. Each one is
//! described by the mathematical collection it holds, and each function here makes one call into
//! its crate.
use crate::model::symbol_of;
use ahash::{AHashMap, AHashSet};
use smallvec::SmallVec;
use string_interner::{DefaultBackend, StringInterner, Symbol};
use vstd::prelude::*;

verus! {

/// The hash-function seed that every `ahash` collection carries.
#[verifier::external_type_specification]
#[verifier::external_body]
pub struct ExRandomState(ahash::RandomState);

/// The `ahash` hash map.
#[verifier::external_type_specification]
#[verifier::external_body]
#[verifier::reject_recursive_types(K)]
#[verifier::reject_recursive_types(V)]
#[verifier::reject_recursive_types(S)]
pub struct ExAHashMap<K, V, S>(ahash::AHashMap<K, V, S>);

/// The `ahash` hash set.
#[verifier::external_type_specification]
#[verifier::external_body]
#[verifier::reject_recursive_types(T)]
#[verifier::reject_recursive_types(S)]
pub struct ExAHashSet<T, S>(ahash::AHashSet<T, S>);

/// `items` lists every entry of `map` exactly once, in some order.
pub open spec fn lists_entries<K, V>(items: Seq<(K, V)>, map: Map<K, V>) -> bool {
    &&& forall|i: int, j: int|
        0 <= i < j < items.len() ==> (#[trigger] items[i]).0 != (#[trigger] items[j]).0
    &&& forall|i: int|
        0 <= i < items.len() ==> map.contains_key((#[trigger] items[i]).0) && map[items[i].0]
            == items[i].1
    &&& forall|k: K| #[trigger]
        map.contains_key(k) ==> exists|i: int| 0 <= i < items.len() && (#[trigger] items[i]).0 == k
}

/// `items` lists every member of `set` exactly once, in some order.
pub open spec fn lists_members<T>(items: Seq<T>, set: Set<T>) -> bool {
    &&& items.no_duplicates()
    &&& forall|x: T| #[trigger] set.contains(x) <==> items.contains(x)
}

// ---------------------------------------------------------------------------------------------
// Counts: symbol to number
// ---------------------------------------------------------------------------------------------

/// The entries of a map from symbols to counts.
pub uninterp spec fn counts_of(map: AHashMap<usize, u32>) -> Map<usize, u32>;

/// `AHashMap::new`: the map has no entries.
#[verifier::external_body]
pub(crate) fn counts_new() -> (map: AHashMap<usize, u32>)
    ensures
        counts_of(map).dom() == Set::<usize>::empty(),
{
    AHashMap::new()
}

/// `AHashMap::get`: the count of `key`, if there is one.
#[verifier::external_body]
pub(crate) fn counts_get(map: &AHashMap<usize, u32>, key: usize) -> (count: Option<u32>)
    ensures
        count == (if counts_of(*map).contains_key(key) {
            Some(counts_of(*map)[key])
        } else {
            None
        }),
{
    map.get(&key).copied()
}

/// `AHashMap::entry` with `or_insert`: the place of `key`, filled with `default` where the map had
/// none. What is written to the place becomes the count of `key`; the other entries stay.
#[verifier::external_body]
pub(crate) fn counts_entry(map: &mut AHashMap<usize, u32>, key: usize, default: u32) -> (place:
    &mut u32)
    ensures
        *place == (if counts_of(*old(map)).contains_key(key) {
            counts_of(*old(map))[key]
        } else {
            default
        }),
        counts_of(*final(map)) == counts_of(*old(map)).insert(key, *final(place)),
{
    map.entry(key).or_insert(default)
}

/// `AHashMap::iter`: every entry once, in an order that is not specified.
#[verifier::external_body]
pub(crate) fn counts_entries(map: &AHashMap<usize, u32>) -> (items: Vec<(usize, u32)>)
    ensures
        lists_entries(items@, counts_of(*map)),
{
    map.iter().map(|(&key, &count)| (key, count)).collect()
}

// ---------------------------------------------------------------------------------------------
// Weights: symbol or document to score
// ---------------------------------------------------------------------------------------------

/// The entries of a map to score bit patterns.
pub uninterp spec fn weights_of(map: AHashMap<usize, u64>) -> Map<usize, u64>;

/// `AHashMap::new`: the map has no entries.
#[verifier::external_body]
pub(crate) fn weights_new() -> (map: AHashMap<usize, u64>)
    ensures
        weights_of(map).dom() == Set::<usize>::empty(),
{
    AHashMap::new()
}

/// `AHashMap::get`: the weight of `key`, if there is one.
#[verifier::external_body]
pub(crate) fn weights_get(map: &AHashMap<usize, u64>, key: usize) -> (weight: Option<u64>)
    ensures
        weight == (if weights_of(*map).contains_key(key) {
            Some(weights_of(*map)[key])
        } else {
            None
        }),
{
    map.get(&key).copied()
}

/// `AHashMap::entry` with `or_insert`: the place of `key`, filled with `default` where the map had
/// none. What is written to the place becomes the weight of `key`; the other entries stay.
#[verifier::external_body]
pub(crate) fn weights_entry(map: &mut AHashMap<usize, u64>, key: usize, default: u64) -> (place:
    &mut u64)
    ensures
        *place == (if weights_of(*old(map)).contains_key(key) {
            weights_of(*old(map))[key]
        } else {
            default
        }),
        weights_of(*final(map)) == weights_of(*old(map)).insert(key, *final(place)),
{
    map.entry(key).or_insert(default)
}

/// `AHashMap::into_iter`: every entry once, in an order that is not specified.
#[verifier::external_body]
pub(crate) fn weights_into_entries(map: AHashMap<usize, u64>) -> (items: Vec<(usize, u64)>)
    ensures
        lists_entries(items@, weights_of(map)),
{
    map.into_iter().collect()
}

/// `AHashMap::from_iter`: the map of the given entries, whose keys are distinct.
#[verifier::external_body]
pub(crate) fn weights_from_entries(items: Vec<(usize, u64)>) -> (map: AHashMap<usize, u64>)
    requires
        forall|i: int, j: int| 0 <= i < j < items@.len() ==> items@[i].0 != items@[j].0,
    ensures
        lists_entries(items@, weights_of(map)),
{
    items.into_iter().collect()
}

// ---------------------------------------------------------------------------------------------
// Postings: symbol to the documents that hold it
// ---------------------------------------------------------------------------------------------

/// The entries of a map from symbols to posting lists.
pub uninterp spec fn postings_of(map: AHashMap<usize, Vec<(u32, u32)>>) -> Map<
    usize,
    Seq<(u32, u32)>,
>;

/// `AHashMap::new`: the map has no entries.
#[verifier::external_body]
pub(crate) fn postings_new() -> (map: AHashMap<usize, Vec<(u32, u32)>>)
    ensures
        postings_of(map).dom() == Set::<usize>::empty(),
{
    AHashMap::new()
}

/// `AHashMap::get`: the posting list of `key`, if there is one.
#[verifier::external_body]
pub(crate) fn postings_get(map: &AHashMap<usize, Vec<(u32, u32)>>, key: usize) -> (list: Option<
    &Vec<(u32, u32)>,
>)
    ensures
        list is Some <==> postings_of(*map).contains_key(key),
        list matches Some(l) ==> l@ == postings_of(*map)[key],
{
    map.get(&key)
}

/// `AHashMap::entry` with `or_default`: the posting list of `key`, empty where the map had none.
/// What the list is made to hold becomes the entry of `key`; the other entries stay.
#[verifier::external_body]
pub(crate) fn postings_entry(map: &mut AHashMap<usize, Vec<(u32, u32)>>, key: usize) -> (place:
    &mut Vec<(u32, u32)>)
    ensures
        place@ == (if postings_of(*old(map)).contains_key(key) {
            postings_of(*old(map))[key]
        } else {
            Seq::<(u32, u32)>::empty()
        }),
        postings_of(*final(map)) == postings_of(*old(map)).insert(key, final(place)@),
{
    map.entry(key).or_default()
}

// ---------------------------------------------------------------------------------------------
// Sets of terms and of numbers
// ---------------------------------------------------------------------------------------------

/// The texts in a set of borrowed terms.
pub uninterp spec fn terms_of(set: AHashSet<&str>) -> Set<Seq<char>>;

/// `AHashSet::new`: the set is empty.
#[verifier::external_body]
pub(crate) fn terms_new<'a>() -> (set: AHashSet<&'a str>)
    ensures
        terms_of(set) == Set::<Seq<char>>::empty(),
{
    AHashSet::new()
}

/// `AHashSet::insert`: the text of `term` is in the set, and what was there stays.
#[verifier::external_body]
pub(crate) fn terms_insert<'a>(set: &mut AHashSet<&'a str>, term: &'a str)
    ensures
        terms_of(*final(set)) == terms_of(*old(set)).insert(term@),
{
    set.insert(term);
}

/// `AHashSet::iter`: every text once, in an order that is not specified.
#[verifier::external_body]
pub(crate) fn terms_members<'a>(set: &AHashSet<&'a str>) -> (items: Vec<&'a str>)
    ensures
        lists_members(items@.map_values(|term: &str| term@), terms_of(*set)),
{
    set.iter().copied().collect()
}

/// The numbers in a set of symbols or document identifiers.
pub uninterp spec fn ids_of(set: AHashSet<usize>) -> Set<usize>;

/// `AHashSet::new`: the set is empty.
#[verifier::external_body]
pub(crate) fn ids_new() -> (set: AHashSet<usize>)
    ensures
        ids_of(set) == Set::<usize>::empty(),
{
    AHashSet::new()
}

/// `AHashSet::insert`: `id` is in the set, and what was there stays.
#[verifier::external_body]
pub(crate) fn ids_insert(set: &mut AHashSet<usize>, id: usize)
    ensures
        ids_of(*final(set)) == ids_of(*old(set)).insert(id),
{
    set.insert(id);
}

/// `AHashSet::contains`: whether `id` is in the set.
#[verifier::external_body]
pub(crate) fn ids_contains(set: &AHashSet<usize>, id: usize) -> (found: bool)
    ensures
        found == ids_of(*set).contains(id),
{
    set.contains(&id)
}

/// `AHashSet::iter`: every number once, in an order that is not specified.
#[verifier::external_body]
pub(crate) fn ids_members(set: &AHashSet<usize>) -> (items: Vec<usize>)
    ensures
        lists_members(items@, ids_of(*set)),
{
    set.iter().copied().collect()
}

// ---------------------------------------------------------------------------------------------
// Token lists
// ---------------------------------------------------------------------------------------------

/// The tokens of one document, in order. Up to sixteen of them are held without an allocation.
#[verifier::external_body]
pub struct Tokens {
    items: SmallVec<[String; 16]>,
}

/// The texts in a token list.
pub uninterp spec fn token_texts(tokens: Tokens) -> Seq<Seq<char>>;

impl View for Tokens {
    type V = Seq<Seq<char>>;

    open spec fn view(&self) -> Seq<Seq<char>> {
        token_texts(*self)
    }
}

/// The texts of a sequence of strings.
pub open spec fn texts(strings: Seq<String>) -> Seq<Seq<char>> {
    strings.map_values(|s: String| s@)
}

/// `SmallVec::from_vec`: the same strings in the same order.
#[verifier::external_body]
pub(crate) fn tokens_from_vec(items: Vec<String>) -> (tokens: Tokens)
    ensures
        token_texts(tokens) == texts(items@),
{
    Tokens { items: SmallVec::from_vec(items) }
}

/// `SmallVec::as_slice`: the strings in order.
#[verifier::external_body]
pub(crate) fn tokens_as_slice(tokens: &Tokens) -> (items: &[String])
    ensures
        texts(items@) == token_texts(*tokens),
{
    tokens.items.as_slice()
}

impl Tokens {
    /// A token list with these tokens.
    pub fn from_vec(items: Vec<String>) -> (tokens: Tokens)
        ensures
            tokens@ == texts(items@),
    {
        tokens_from_vec(items)
    }

    /// The tokens in order.
    pub fn as_slice(&self) -> (items: &[String])
        ensures
            texts(items@) == self@,
    {
        tokens_as_slice(self)
    }
}

// ---------------------------------------------------------------------------------------------
// Query terms
// ---------------------------------------------------------------------------------------------

/// Resolved query terms, in order. Up to eight of them are held without an allocation.
#[verifier::external_body]
pub struct Terms {
    items: SmallVec<[(usize, u64); 8]>,
}

/// The symbols and weights in a list of resolved terms.
pub uninterp spec fn term_weights(terms: Terms) -> Seq<(usize, u64)>;

impl View for Terms {
    type V = Seq<(usize, u64)>;

    open spec fn view(&self) -> Seq<(usize, u64)> {
        term_weights(*self)
    }
}

/// `SmallVec::new`: no terms.
#[verifier::external_body]
pub(crate) fn terms_list_new() -> (terms: Terms)
    ensures
        term_weights(terms) == Seq::<(usize, u64)>::empty(),
{
    Terms { items: SmallVec::new() }
}

/// `SmallVec::push`: one more term at the end.
#[verifier::external_body]
pub(crate) fn terms_list_push(terms: &mut Terms, term: (usize, u64))
    ensures
        term_weights(*final(terms)) == term_weights(*old(terms)).push(term),
{
    terms.items.push(term)
}

/// `SmallVec::as_slice`: the terms in order.
#[verifier::external_body]
pub(crate) fn terms_list_as_slice(terms: &Terms) -> (items: &[(usize, u64)])
    ensures
        items@ == term_weights(*terms),
{
    terms.items.as_slice()
}

/// A list of the same terms.
fn copy_terms(items: &[(usize, u64)]) -> (terms: Terms)
    ensures
        terms@ == items@,
{
    let mut terms = terms_list_new();
    let mut i: usize = 0;
    while i < items.len()
        invariant
            i <= items@.len(),
            terms@ == items@.take(i as int),
        decreases items@.len() - i,
    {
        terms_list_push(&mut terms, items[i]);
        i += 1;
        assert(terms@ =~= items@.take(i as int));
    }
    assert(items@.take(i as int) =~= items@);
    terms
}

impl Terms {
    /// A list of these terms.
    pub fn from_vec(items: Vec<(usize, u64)>) -> (terms: Terms)
        ensures
            terms@ == items@,
    {
        copy_terms(items.as_slice())
    }

    /// The terms in order.
    pub fn as_slice(&self) -> (items: &[(usize, u64)])
        ensures
            items@ == self@,
    {
        terms_list_as_slice(self)
    }
}

impl Clone for Terms {
    /// A list of the same terms.
    fn clone(&self) -> (copy: Terms)
        ensures
            copy@ == self@,
    {
        copy_terms(terms_list_as_slice(self))
    }
}

// ---------------------------------------------------------------------------------------------
// Interner
// ---------------------------------------------------------------------------------------------

/// The number of distinct strings that an interner can hold.
pub const MAX_SYMBOLS: usize = 0xffff_ffff;

/// Gives every distinct string a number, its symbol.
#[verifier::external_body]
pub struct Interner {
    inner: StringInterner<DefaultBackend>,
}

/// The interned strings, in the order of their symbols: the string at position `i` has symbol `i`.
pub uninterp spec fn strings_of(interner: Interner) -> Seq<Seq<char>>;

impl View for Interner {
    type V = Seq<Seq<char>>;

    open spec fn view(&self) -> Seq<Seq<char>> {
        strings_of(*self)
    }
}

/// `StringInterner::default`: nothing is interned.
#[verifier::external_body]
pub(crate) fn interner_default() -> (interner: Interner)
    ensures
        strings_of(interner) == Seq::<Seq<char>>::empty(),
{
    Interner { inner: StringInterner::default() }
}

/// `StringInterner::len`: the number of strings.
#[verifier::external_body]
pub(crate) fn interner_len(interner: &Interner) -> (len: usize)
    ensures
        len == strings_of(*interner).len(),
{
    interner.inner.len()
}

/// `StringInterner::get`: the symbol of `term` if it is interned, which is the only position of
/// that string.
#[verifier::external_body]
pub(crate) fn interner_get(interner: &Interner, term: &str) -> (symbol: Option<usize>)
    ensures
        symbol is Some <==> strings_of(*interner).contains(term@),
        symbol matches Some(s) ==> forall|i: int|
            0 <= i < strings_of(*interner).len() ==> (#[trigger] strings_of(*interner)[i] == term@
                <==> i == s),
{
    interner.inner.get(term).map(|symbol| symbol.to_usize())
}

/// `StringInterner::get_or_intern`: the symbol of an interned string, with nothing changed; a
/// string that was not interned is added and gets the number of strings so far as its symbol.
#[verifier::external_body]
pub(crate) fn interner_get_or_intern(interner: &mut Interner, term: &str) -> (symbol: usize)
    requires
        strings_of(*old(interner)).contains(term@) || strings_of(*old(interner)).len()
            < MAX_SYMBOLS,
    ensures
        strings_of(*final(interner)) == (if strings_of(*old(interner)).contains(term@) {
            strings_of(*old(interner))
        } else {
            strings_of(*old(interner)).push(term@)
        }),
        symbol < strings_of(*final(interner)).len() && strings_of(*final(interner))[symbol as int]
            == term@,
{
    interner.inner.get_or_intern(term).to_usize()
}

impl Interner {
    /// The symbol of a string, if it is interned.
    pub fn get(&self, term: &str) -> (symbol: Option<usize>)
        ensures
            symbol is Some <==> self@.contains(term@),
            symbol matches Some(s) ==> s < self@.len() && self@[s as int] == term@ && s
                == symbol_of(self@, term@),
    {
        let symbol = interner_get(self, term);
        proof {
            if self@.contains(term@) {
                assert(self@[self@.index_of(term@)] == term@);
            }
        }
        symbol
    }

    /// The number of interned strings.
    pub fn len(&self) -> (len: usize)
        ensures
            len == self@.len(),
    {
        interner_len(self)
    }

    /// The symbol of a string, which is interned if it was not.
    pub fn get_or_intern(&mut self, term: &str) -> (symbol: usize)
        requires
            old(self)@.contains(term@) || old(self)@.len() < MAX_SYMBOLS,
        ensures
            final(self)@ == (if old(self)@.contains(term@) {
                old(self)@
            } else {
                old(self)@.push(term@)
            }),
            symbol < final(self)@.len() && final(self)@[symbol as int] == term@,
    {
        interner_get_or_intern(self, term)
    }
}

impl Default for Interner {
    /// An interner that holds nothing.
    fn default() -> (interner: Interner)
        ensures
            interner@ == Seq::<Seq<char>>::empty(),
    {
        interner_default()
    }
}

} // verus!
