//! Giving the terms of a corpus their symbols.
use crate::collections::{
    interner_get, interner_get_or_intern, interner_len, terms_insert, terms_members, terms_new,
    terms_of, texts, tokens_as_slice, Interner, Tokens, MAX_SYMBOLS,
};
use ahash::AHashSet;
use vstd::prelude::*;

verus! {

/// The token texts of the documents of a corpus.
pub open spec fn token_lists(corpus: Seq<Tokens>) -> Seq<Seq<Seq<char>>> {
    corpus.map_values(|doc: Tokens| doc@)
}

/// The term occurs in some document.
pub open spec fn mentions(corpus: Seq<Seq<Seq<char>>>, term: Seq<char>) -> bool {
    exists|d: int| 0 <= d < corpus.len() && (#[trigger] corpus[d]).contains(term)
}

/// The terms of a corpus that are not interned yet.
pub open spec fn new_terms(strings: Seq<Seq<char>>, corpus: Seq<Seq<Seq<char>>>) -> Set<Seq<char>> {
    Set::new(|term: Seq<char>| mentions(corpus, term) && !strings.contains(term))
}

/// The interner has symbols left for the terms that are new to it.
pub open spec fn has_room(strings: Seq<Seq<char>>, corpus: Seq<Seq<Seq<char>>>) -> bool {
    let count = new_terms(strings, corpus).len();
    count == 0 || strings.len() + count <= MAX_SYMBOLS
}

/// After interning the terms of `corpus`, the strings that were there have kept their symbols, and
/// the terms that are new follow them, each once.
pub open spec fn interned(
    before: Seq<Seq<char>>,
    corpus: Seq<Seq<Seq<char>>>,
    after: Seq<Seq<char>>,
) -> bool {
    &&& before.len() <= after.len()
    &&& after.take(before.len() as int) == before
    &&& after.skip(before.len() as int).no_duplicates()
    &&& forall|term: Seq<char>| #[trigger]
        after.skip(before.len() as int).contains(term) <==> mentions(corpus, term)
            && !before.contains(term)
}

/// After interning some of the terms of `corpus`, the strings that were there have kept their
/// symbols, and what follows them are terms that are new, each once.
pub open spec fn partly_interned(
    before: Seq<Seq<char>>,
    corpus: Seq<Seq<Seq<char>>>,
    after: Seq<Seq<char>>,
) -> bool {
    &&& before.len() <= after.len()
    &&& after.take(before.len() as int) == before
    &&& after.skip(before.len() as int).no_duplicates()
    &&& forall|term: Seq<char>| #[trigger]
        after.skip(before.len() as int).contains(term) ==> mentions(corpus, term)
            && !before.contains(term)
}

/// Collects the distinct terms of a corpus.
fn collect_terms<'a>(corpus: &'a Vec<Tokens>) -> (terms: AHashSet<&'a str>)
    ensures
        forall|term: Seq<char>| #[trigger]
            terms_of(terms).contains(term) <==> mentions(token_lists(corpus@), term),
{
    let ghost lists = token_lists(corpus@);
    let mut terms = terms_new();
    let mut d: usize = 0;
    while d < corpus.len()
        invariant
            lists == token_lists(corpus@),
            d <= corpus@.len(),
            forall|term: Seq<char>| #[trigger]
                terms_of(terms).contains(term) <==> mentions(lists.take(d as int), term),
        decreases corpus@.len() - d,
    {
        let doc = tokens_as_slice(&corpus[d]);
        let ghost list = lists[d as int];
        let ghost before = terms_of(terms);
        assert(texts(doc@) == list);
        let mut j: usize = 0;
        while j < doc.len()
            invariant
                texts(doc@) == list,
                j <= doc@.len(),
                forall|term: Seq<char>| #[trigger]
                    terms_of(terms).contains(term) <==> before.contains(term) || list.take(
                        j as int,
                    ).contains(term),
            decreases doc@.len() - j,
        {
            terms_insert(&mut terms, doc[j].as_str());
            proof {
                assert(list[j as int] == doc@[j as int]@);
                lemma_contains_take(list, j as int);
            }
            j += 1;
        }
        proof {
            assert(list.take(j as int) =~= list);
            lemma_mentions_take(lists, d as int);
        }
        d += 1;
    }
    assert(lists.take(d as int) =~= lists);
    terms
}

proof fn lemma_contains_take(list: Seq<Seq<char>>, at: int)
    requires
        0 <= at < list.len(),
    ensures
        forall|term: Seq<char>| #[trigger]
            list.take(at + 1).contains(term) <==> list.take(at).contains(term) || term == list[at],
{
    let next = list.take(at + 1);
    assert(next =~= list.take(at).push(list[at]));
    assert forall|term: Seq<char>| list.take(at).contains(term) || term == list[at] implies
        #[trigger] next.contains(term) by {
        if term == list[at] {
            assert(next[at] == term);
        } else {
            let i = choose|i: int| 0 <= i < at && list.take(at)[i] == term;
            assert(next[i] == term);
        }
    }
}

proof fn lemma_mentions_take(lists: Seq<Seq<Seq<char>>>, at: int)
    requires
        0 <= at < lists.len(),
    ensures
        forall|term: Seq<char>| #[trigger]
            mentions(lists.take(at + 1), term) <==> mentions(lists.take(at), term)
                || lists[at].contains(term),
{
    let next = lists.take(at + 1);
    let prev = lists.take(at);
    assert forall|term: Seq<char>| #[trigger]
        mentions(next, term) <==> mentions(prev, term) || lists[at].contains(term) by {
        if mentions(next, term) && !lists[at].contains(term) {
            let d = choose|d: int| 0 <= d < next.len() && (#[trigger] next[d]).contains(term);
            assert(prev[d].contains(term));
        }
        if mentions(prev, term) {
            let d = choose|d: int| 0 <= d < prev.len() && (#[trigger] prev[d]).contains(term);
            assert(next[d].contains(term));
        }
        if lists[at].contains(term) {
            assert(next[at].contains(term));
        }
    }
}

/// Interns the terms of a corpus, as far as there are symbols left. Returns whether all are
/// interned.
pub(crate) fn intern_terms(corpus: &Vec<Tokens>, interner: &mut Interner) -> (complete: bool)
    ensures
        complete == has_room(old(interner)@, token_lists(corpus@)),
        complete ==> interned(old(interner)@, token_lists(corpus@), final(interner)@),
        !complete ==> partly_interned(old(interner)@, token_lists(corpus@), final(interner)@),
{
    let all_terms = collect_terms(corpus);
    let members = terms_members(&all_terms);
    let ghost before = interner@;
    let ghost names = members@.map_values(|term: &str| term@);
    let ghost lists = token_lists(corpus@);
    let ghost mut added: Seq<Seq<char>> = Seq::empty();
    assert(forall|term: Seq<char>| names.contains(term) <==> mentions(lists, term)) by {
        assert forall|term: Seq<char>| names.contains(term) <==> mentions(lists, term) by {
            assert(terms_of(all_terms).contains(term) <==> names.contains(term));
        }
    }
    assert(interner@ =~= before + added);
    assert(names.take(0) =~= Seq::empty());
    let mut i: usize = 0;
    while i < members.len()
        invariant
            before == old(interner)@,
            names == members@.map_values(|term: &str| term@),
            names.no_duplicates(),
            forall|term: Seq<char>| names.contains(term) <==> mentions(lists, term),
            lists == token_lists(corpus@),
            i <= members@.len(),
            interner@ == before + added,
            added.no_duplicates(),
            forall|term: Seq<char>| #[trigger]
                added.contains(term) <==> names.take(i as int).contains(term) && !before.contains(
                    term,
                ),
            added.len() > 0 ==> interner@.len() <= MAX_SYMBOLS,
        decreases members@.len() - i,
    {
        let ghost term = names[i as int];
        assert(members@[i as int]@ == term);
        if interner_len(interner) >= MAX_SYMBOLS && interner_get(interner, members[i]).is_none() {
            proof {
                assert(mentions(lists, term)) by {
                    assert(names.contains(term));
                }
                assert(!before.contains(term)) by {
                    if before.contains(term) {
                        let k = before.index_of(term);
                        assert((before + added)[k] == term);
                    }
                }
                lemma_no_room(before, lists, names, added, i as int);
                assert(interner@.take(before.len() as int) =~= before);
                assert(interner@.skip(before.len() as int) =~= added);
                assert forall|name: Seq<char>| #[trigger] added.contains(name) implies mentions(
                    lists,
                    name,
                ) by {
                    let k = names.take(i as int).index_of(name);
                    assert(names[k] == name);
                    assert(names.contains(name));
                }
            }
            return false;
        }
        let _ = interner_get_or_intern(interner, members[i]);
        proof {
            lemma_contains_take(names, i as int);
            lemma_contains_append(before, added);
            assert(!names.take(i as int).contains(term)) by {
                if names.take(i as int).contains(term) {
                    let k = names.take(i as int).index_of(term);
                    assert(names[k] == names[i as int]);
                }
            }
            if !before.contains(term) {
                assert(before + added.push(term) =~= (before + added).push(term));
                lemma_contains_push(added, term);
                added = added.push(term);
            }
        }
        i += 1;
    }
    proof {
        assert(names.take(i as int) =~= names);
        lemma_room(before, lists, added);
        assert(interner@.take(before.len() as int) =~= before);
        assert(interner@.skip(before.len() as int) =~= added);
    }
    true
}

proof fn lemma_contains_append(first: Seq<Seq<char>>, second: Seq<Seq<char>>)
    ensures
        forall|term: Seq<char>| #[trigger]
            (first + second).contains(term) <==> first.contains(term) || second.contains(term),
{
    assert forall|term: Seq<char>| #[trigger]
        (first + second).contains(term) <==> first.contains(term) || second.contains(term) by {
        let both = first + second;
        if both.contains(term) {
            let k = both.index_of(term);
            if k < first.len() {
                assert(first[k] == term);
            } else {
                assert(second[k - first.len()] == term);
            }
        }
        if first.contains(term) {
            assert(both[first.index_of(term)] == term);
        }
        if second.contains(term) {
            assert(both[first.len() + second.index_of(term)] == term);
        }
    }
}

proof fn lemma_contains_push(list: Seq<Seq<char>>, next: Seq<char>)
    ensures
        forall|term: Seq<char>| #[trigger]
            list.push(next).contains(term) <==> list.contains(term) || term == next,
        list.no_duplicates() && !list.contains(next) ==> list.push(next).no_duplicates(),
{
    assert(list.push(next).take(list.len() as int) =~= list);
    assert(list.push(next).take((list.len() + 1) as int) =~= list.push(next));
    lemma_contains_take(list.push(next), list.len() as int);
}

/// The distinct terms that were added are all that was missing.
proof fn lemma_room(before: Seq<Seq<char>>, lists: Seq<Seq<Seq<char>>>, added: Seq<Seq<char>>)
    requires
        added.no_duplicates(),
        forall|term: Seq<char>| #[trigger]
            added.contains(term) <==> mentions(lists, term) && !before.contains(term),
        added.len() > 0 ==> before.len() + added.len() <= MAX_SYMBOLS,
    ensures
        has_room(before, lists),
{
    assert(added.to_set() =~= new_terms(before, lists));
    added.unique_seq_to_set();
}

/// A term is left over when the symbols are used up.
proof fn lemma_no_room(
    before: Seq<Seq<char>>,
    lists: Seq<Seq<Seq<char>>>,
    names: Seq<Seq<char>>,
    added: Seq<Seq<char>>,
    at: int,
)
    requires
        0 <= at < names.len(),
        names.no_duplicates(),
        forall|term: Seq<char>| names.contains(term) <==> mentions(lists, term),
        added.no_duplicates(),
        forall|term: Seq<char>| #[trigger]
            added.contains(term) <==> names.take(at).contains(term) && !before.contains(term),
        before.len() + added.len() >= MAX_SYMBOLS,
        !before.contains(names[at]),
    ensures
        !has_room(before, lists),
{
    let wanted = new_terms(before, lists);
    let next = names[at];
    assert(names.contains(next));
    assert(wanted.subset_of(names.to_set()));
    vstd::seq_lib::seq_to_set_is_finite(names);
    vstd::set_lib::lemma_set_subset_finite(names.to_set(), wanted);
    assert(!added.contains(next)) by {
        if names.take(at).contains(next) {
            let k = names.take(at).index_of(next);
            assert(names[k] == names[at]);
        }
    }
    lemma_contains_push(added, next);
    let more = added.push(next);
    assert forall|term: Seq<char>| more.to_set().contains(term) implies wanted.contains(term) by {
        assert(more.contains(term));
        if term != next {
            let k = names.take(at).index_of(term);
            assert(names[k] == term);
        }
    }
    more.unique_seq_to_set();
    vstd::set_lib::lemma_len_subset(more.to_set(), wanted);
}

/// Every term of a corpus is interned.
pub proof fn lemma_interned_contains(
    before: Seq<Seq<char>>,
    lists: Seq<Seq<Seq<char>>>,
    after: Seq<Seq<char>>,
    d: int,
    j: int,
)
    requires
        interned(before, lists, after),
        0 <= d < lists.len(),
        0 <= j < lists[d].len(),
    ensures
        after.contains(lists[d][j]),
{
    let term = lists[d][j];
    assert(lists[d].contains(term));
    assert(mentions(lists, term));
    if before.contains(term) {
        let k = before.index_of(term);
        assert(after.take(before.len() as int)[k] == after[k]);
    } else {
        let added = after.skip(before.len() as int);
        assert(added.contains(term));
        let k = added.index_of(term);
        assert(after[before.len() + k] == term);
    }
}

} // verus!
