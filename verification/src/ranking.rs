//! The order in which documents are returned.
use crate::collections::lists_entries;
use crate::score::{is_nan, not_a_number, order_key, rank};
use rayon::slice::ParallelSliceMut;
use std::cmp::Ordering;
use vstd::prelude::*;

verus! {

/// A document with a higher score stands before one with a lower score. Among equal scores, and
/// where a score is not a number, the document with the smaller identifier stands first.
pub open spec fn ranked_before(a: (usize, u64), b: (usize, u64)) -> bool {
    if is_nan(a.1) || is_nan(b.1) || rank(a.1) == rank(b.1) {
        a.0 < b.0
    } else {
        rank(a.1) > rank(b.1)
    }
}

/// Compares two documents by score and identifier.
pub fn ranking(a: &(usize, u64), b: &(usize, u64)) -> (order: Ordering)
    ensures
        order is Less <==> ranked_before(*a, *b),
        order is Greater <==> ranked_before(*b, *a),
{
    let key_a: i64 = order_key(a.1);
    let key_b: i64 = order_key(b.1);
    if not_a_number(a.1) || not_a_number(b.1) || key_a == key_b {
        if a.0 < b.0 {
            Ordering::Less
        } else if b.0 < a.0 {
            Ordering::Greater
        } else {
            Ordering::Equal
        }
    } else if key_a > key_b {
        Ordering::Less
    } else {
        Ordering::Greater
    }
}

/// No document is listed twice.
pub open spec fn distinct_documents(items: Seq<(usize, u64)>) -> bool {
    forall|i: int, j: int|
        0 <= i < j < items.len() ==> (#[trigger] items[i]).0 != (#[trigger] items[j]).0
}

/// Every document stands before those that come after it in the list.
pub open spec fn is_ranked(items: Seq<(usize, u64)>) -> bool {
    forall|i: int, j: int|
        0 <= i < j < items.len() ==> ranked_before(#[trigger] items[i], #[trigger] items[j])
}

/// [`ranked_before`] puts the documents in one order. This can only fail where some of the scores
/// are numbers and others are not.
pub open spec fn orderable(items: Seq<(usize, u64)>) -> bool {
    forall|a: (usize, u64), b: (usize, u64), c: (usize, u64)|
        #![trigger items.contains(a), items.contains(b), items.contains(c)]
        items.contains(a) && items.contains(b) && items.contains(c) && ranked_before(a, b)
            && ranked_before(b, c) ==> ranked_before(a, c)
}

/// Documents whose scores are numbers can be put in order.
pub proof fn lemma_numbers_orderable(items: Seq<(usize, u64)>)
    requires
        forall|e: (usize, u64)| #[trigger] items.contains(e) ==> !is_nan(e.1),
    ensures
        orderable(items),
{
}

/// Whether documents can be put in order does not depend on how they are listed.
pub proof fn lemma_orderable_same(x: Seq<(usize, u64)>, y: Seq<(usize, u64)>)
    requires
        forall|e: (usize, u64)| #[trigger] x.contains(e) <==> y.contains(e),
    ensures
        orderable(x) <==> orderable(y),
{
    if orderable(x) {
        assert forall|a: (usize, u64), b: (usize, u64), c: (usize, u64)|
            #![trigger y.contains(a), y.contains(b), y.contains(c)]
            y.contains(a) && y.contains(b) && y.contains(c) && ranked_before(a, b)
                && ranked_before(b, c) implies ranked_before(a, c) by {
            assert(x.contains(a) && x.contains(b) && x.contains(c));
        }
    }
    if orderable(y) {
        assert forall|a: (usize, u64), b: (usize, u64), c: (usize, u64)|
            #![trigger x.contains(a), x.contains(b), x.contains(c)]
            x.contains(a) && x.contains(b) && x.contains(c) && ranked_before(a, b)
                && ranked_before(b, c) implies ranked_before(a, c) by {
            assert(y.contains(a) && y.contains(b) && y.contains(c));
        }
    }
}

/// `slice::sort_by` with [`ranking`]: the same documents, in order. The order has to be a total one
/// on the documents.
#[verifier::external_body]
pub(crate) fn sort_ranked(results: &mut Vec<(usize, u64)>)
    requires
        distinct_documents(old(results)@),
        orderable(old(results)@),
    ensures
        final(results)@.to_multiset() == old(results)@.to_multiset(),
        is_ranked(final(results)@),
{
    results.sort_by(|a, b| ranking(a, b))
}

/// A list of distinct documents with one more document.
proof fn lemma_push_document(list: Seq<(usize, u64)>, item: (usize, u64))
    requires
        distinct_documents(list),
        forall|e: (usize, u64)| #[trigger] list.contains(e) ==> e.0 != item.0,
    ensures
        distinct_documents(list.push(item)),
        forall|e: (usize, u64)| #[trigger]
            list.push(item).contains(e) <==> list.contains(e) || e == item,
{
    let next = list.push(item);
    assert forall|e: (usize, u64)| #[trigger] next.contains(e) <==> list.contains(e) || e
        == item by {
        if list.contains(e) {
            assert(next[list.index_of(e)] == e);
        }
        if e == item {
            assert(next[list.len() as int] == e);
        }
    }
    assert forall|i: int, j: int| 0 <= i < j < next.len() implies (#[trigger] next[i]).0 != (
    #[trigger] next[j]).0 by {
        assert(list.contains(list[i]));
    }
}

/// In a list of distinct documents, a document has one score.
proof fn lemma_one_score(list: Seq<(usize, u64)>, x: (usize, u64), y: (usize, u64))
    requires
        distinct_documents(list),
        list.contains(x),
        list.contains(y),
        x.0 == y.0,
    ensures
        x == y,
{
    let i = list.index_of(x);
    let j = list.index_of(y);
    assert(list[i] == x && list[j] == y);
}

/// A rearranged list of distinct documents lists distinct documents.
proof fn lemma_rearranged_documents(before: Seq<(usize, u64)>, after: Seq<(usize, u64)>)
    requires
        distinct_documents(before),
        after.to_multiset() == before.to_multiset(),
    ensures
        distinct_documents(after),
        forall|e: (usize, u64)| #[trigger] after.contains(e) <==> before.contains(e),
{
    assert(before.no_duplicates()) by {
        assert forall|i: int, j: int|
            0 <= i < before.len() && 0 <= j < before.len() && i != j implies before[i]
            != before[j] by {
            if i < j {
                assert(before[i].0 != before[j].0);
            } else {
                assert(before[j].0 != before[i].0);
            }
        }
    }
    lemma_rearranged(before, after);
    assert forall|i: int, j: int| 0 <= i < j < after.len() implies (#[trigger] after[i]).0 != (
    #[trigger] after[j]).0 by {
        assert(after.contains(after[i]) && after.contains(after[j]));
        if after[i].0 == after[j].0 {
            lemma_one_score(before, after[i], after[j]);
        }
    }
}

/// Documents apart from each other: those whose scores are numbers, and the others.
fn split_numbers(items: &Vec<(usize, u64)>) -> (split: (Vec<(usize, u64)>, Vec<(usize, u64)>))
    requires
        distinct_documents(items@),
    ensures
        distinct_documents(split.0@),
        distinct_documents(split.1@),
        forall|e: (usize, u64)| #[trigger]
            split.0@.contains(e) <==> items@.contains(e) && !is_nan(e.1),
        forall|e: (usize, u64)| #[trigger]
            split.1@.contains(e) <==> items@.contains(e) && is_nan(e.1),
{
    let mut numbers: Vec<(usize, u64)> = Vec::new();
    let mut others: Vec<(usize, u64)> = Vec::new();
    let mut i: usize = 0;
    while i < items.len()
        invariant
            distinct_documents(items@),
            i <= items@.len(),
            distinct_documents(numbers@),
            distinct_documents(others@),
            forall|e: (usize, u64)| #[trigger]
                numbers@.contains(e) <==> items@.take(i as int).contains(e) && !is_nan(e.1),
            forall|e: (usize, u64)| #[trigger]
                others@.contains(e) <==> items@.take(i as int).contains(e) && is_nan(e.1),
        decreases items@.len() - i,
    {
        let item = items[i];
        proof {
            let before = items@.take(i as int);
            assert(items@.take(i + 1) =~= before.push(item));
            assert forall|e: (usize, u64)| #[trigger] before.contains(e) implies e.0 != item.0 by {
                let m = before.index_of(e);
                assert(items@[m] == e);
            }
            assert(distinct_documents(before));
            lemma_push_document(before, item);
            assert forall|e: (usize, u64)| #[trigger] numbers@.contains(e) implies e.0
                != item.0 by {
                assert(before.contains(e));
            }
            assert forall|e: (usize, u64)| #[trigger] others@.contains(e) implies e.0
                != item.0 by {
                assert(before.contains(e));
            }
            lemma_push_document(numbers@, item);
            lemma_push_document(others@, item);
        }
        if not_a_number(item.1) {
            others.push(item);
        } else {
            numbers.push(item);
        }
        i += 1;
    }
    assert(items@.take(i as int) =~= items@);
    (numbers, others)
}

/// Puts documents in order, if they can be: the same documents, and in order if there is one.
pub fn rank_documents(items: Vec<(usize, u64)>) -> (ranked: Vec<(usize, u64)>)
    requires
        distinct_documents(items@),
    ensures
        distinct_documents(ranked@),
        forall|e: (usize, u64)| #[trigger] ranked@.contains(e) <==> items@.contains(e),
        orderable(items@) ==> is_ranked(ranked@),
{
    let ghost all = items@;
    let (mut numbers, mut others) = split_numbers(&items);
    let ghost numbers_before = numbers@;
    let ghost others_before = others@;
    sort_ranked(&mut numbers);
    sort_ranked(&mut others);
    proof {
        lemma_rearranged_documents(numbers_before, numbers@);
        lemma_rearranged_documents(others_before, others@);
    }
    if others.is_empty() {
        assert forall|e: (usize, u64)| all.contains(e) implies #[trigger] numbers@.contains(e) by {
            assert(!others@.contains(e));
        }
        return numbers;
    }
    let mut ranked: Vec<(usize, u64)> = Vec::new();
    let mut n: usize = 0;
    let mut m: usize = 0;
    while n < numbers.len() || m < others.len()
        invariant
            distinct_documents(all),
            forall|e: (usize, u64)| #[trigger]
                numbers@.contains(e) <==> all.contains(e) && !is_nan(e.1),
            forall|e: (usize, u64)| #[trigger]
                others@.contains(e) <==> all.contains(e) && is_nan(e.1),
            distinct_documents(numbers@),
            distinct_documents(others@),
            is_ranked(numbers@),
            is_ranked(others@),
            n <= numbers@.len(),
            m <= others@.len(),
            distinct_documents(ranked@),
            forall|e: (usize, u64)| #[trigger]
                ranked@.contains(e) <==> numbers@.take(n as int).contains(e) || others@.take(
                    m as int,
                ).contains(e),
            orderable(all) ==> is_ranked(ranked@) && stands_before(
                ranked@,
                numbers@.skip(n as int),
            ) && stands_before(ranked@, others@.skip(m as int)),
        decreases (numbers@.len() - n) + (others@.len() - m),
    {
        let ghost before = ranked@;
        let ghost done_numbers = numbers@.take(n as int);
        let ghost done_others = others@.take(m as int);
        if m >= others.len() || (n < numbers.len() && numbers[n].0 < others[m].0) {
            let next = numbers[n];
            ranked.push(next);
            n += 1;
            proof {
                assert(numbers@.take(n as int) =~= done_numbers.push(next));
                assert(numbers@.skip(n - 1) =~= seq![next] + numbers@.skip(n as int));
                if m < others@.len() {
                    assert(others@.contains(others@[m as int]));
                }
                lemma_next(all, numbers@, others@, n - 1, m as int, before);
            }
        } else {
            let next = others[m];
            ranked.push(next);
            m += 1;
            proof {
                assert(others@.take(m as int) =~= done_others.push(next));
                assert(others@.skip(m - 1) =~= seq![next] + others@.skip(m as int));
                assert(others@.contains(next));
                if n < numbers@.len() {
                    assert(numbers@.contains(numbers@[n as int]));
                    if numbers@[n as int].0 == next.0 {
                        lemma_one_score(all, numbers@[n as int], next);
                    }
                }
                lemma_next(all, others@, numbers@, m - 1, n as int, before);
            }
        }
    }
    assert(numbers@.take(n as int) =~= numbers@);
    assert(others@.take(m as int) =~= others@);
    ranked
}

/// Every document of the first list stands before every one of the second.
spec fn stands_before(x: Seq<(usize, u64)>, y: Seq<(usize, u64)>) -> bool {
    forall|i: int, j: int|
        0 <= i < x.len() && 0 <= j < y.len() ==> ranked_before(#[trigger] x[i], #[trigger] y[j])
}

/// Taking the next document from one of two ordered lists.
proof fn lemma_next(
    all: Seq<(usize, u64)>,
    from: Seq<(usize, u64)>,
    other: Seq<(usize, u64)>,
    at: int,
    other_at: int,
    before: Seq<(usize, u64)>,
)
    requires
        distinct_documents(all),
        distinct_documents(from),
        is_ranked(from),
        is_ranked(other),
        forall|e: (usize, u64)| #[trigger] from.contains(e) ==> all.contains(e),
        forall|e: (usize, u64)| #[trigger] other.contains(e) ==> all.contains(e),
        forall|e: (usize, u64)| #[trigger] from.contains(e) ==> !other.contains(e),
        0 <= at < from.len(),
        0 <= other_at <= other.len(),
        other_at < other.len() ==> ranked_before(from[at], other[other_at]),
        distinct_documents(before),
        forall|e: (usize, u64)| #[trigger]
            before.contains(e) <==> from.take(at).contains(e) || other.take(other_at).contains(e),
        orderable(all) ==> is_ranked(before) && stands_before(before, from.skip(at))
            && stands_before(before, other.skip(other_at)),
    ensures
        distinct_documents(before.push(from[at])),
        forall|e: (usize, u64)| #[trigger]
            before.push(from[at]).contains(e) <==> from.take(at + 1).contains(e) || other.take(
                other_at,
            ).contains(e),
        orderable(all) ==> is_ranked(before.push(from[at])) && stands_before(
            before.push(from[at]),
            from.skip(at + 1),
        ) && stands_before(before.push(from[at]), other.skip(other_at)),
{
    let next = from[at];
    let after = before.push(next);
    assert(from.contains(next));
    assert forall|e: (usize, u64)| #[trigger] before.contains(e) implies e.0 != next.0 by {
        if from.take(at).contains(e) {
            let i = from.take(at).index_of(e);
            assert(from[i] == e);
        } else {
            let i = other.take(other_at).index_of(e);
            assert(other[i] == e);
            assert(other.contains(e));
            if e.0 == next.0 {
                lemma_one_score(all, e, next);
            }
        }
    }
    lemma_push_document(before, next);
    assert forall|e: (usize, u64)| #[trigger] from.take(at + 1).contains(e) <==> from.take(
        at,
    ).contains(e) || e == next by {
        if from.take(at).contains(e) {
            let i = from.take(at).index_of(e);
            assert(from.take(at + 1)[i] == e);
        }
        if e == next {
            assert(from.take(at + 1)[at] == e);
        }
        if from.take(at + 1).contains(e) && e != next {
            let i = from.take(at + 1).index_of(e);
            assert(from.take(at)[i] == e);
        }
    }
    if orderable(all) {
        assert(from.skip(at)[0] == next);
        assert forall|i: int, j: int|
            0 <= i < after.len() && 0 <= j < from.skip(at + 1).len() implies ranked_before(
            #[trigger] after[i],
            #[trigger] from.skip(at + 1)[j],
        ) by {
            assert(from.skip(at)[j + 1] == from.skip(at + 1)[j]);
            if i == before.len() {
                assert(ranked_before(from[at], from[at + 1 + j]));
            } else {
                assert(ranked_before(before[i], from.skip(at)[j + 1]));
            }
        }
        assert forall|i: int, j: int|
            0 <= i < after.len() && 0 <= j < other.skip(other_at).len() implies ranked_before(
            #[trigger] after[i],
            #[trigger] other.skip(other_at)[j],
        ) by {
            if i == before.len() {
                let first = other[other_at];
                let later = other[other_at + j];
                assert(other.contains(first) && other.contains(later));
                if j > 0 {
                    assert(ranked_before(first, later));
                    assert(all.contains(next) && all.contains(first) && all.contains(later));
                }
            } else {
                assert(after[i] == before[i]);
            }
        }
        assert forall|i: int, j: int| 0 <= i < j < after.len() implies ranked_before(
            #[trigger] after[i],
            #[trigger] after[j],
        ) by {
            if j == before.len() {
                assert(ranked_before(before[i], from.skip(at)[0]));
            } else {
                assert(after[i] == before[i] && after[j] == before[j]);
            }
        }
    }
}

/// A list of the same distinct documents lists the entries of the same map.
pub proof fn lemma_same_documents(
    before: Seq<(usize, u64)>,
    after: Seq<(usize, u64)>,
    map: Map<usize, u64>,
)
    requires
        lists_entries(before, map),
        distinct_documents(after),
        forall|e: (usize, u64)| #[trigger] after.contains(e) <==> before.contains(e),
    ensures
        lists_entries(after, map),
{
    assert forall|i: int| 0 <= i < after.len() implies map.contains_key((#[trigger] after[i]).0)
        && map[after[i].0] == after[i].1 by {
        assert(after.contains(after[i]));
        let k = before.index_of(after[i]);
        assert(before[k] == after[i]);
    }
    assert forall|d: usize| #[trigger] map.contains_key(d) implies exists|i: int|
        0 <= i < after.len() && (#[trigger] after[i]).0 == d by {
        let k = choose|k: int| 0 <= k < before.len() && (#[trigger] before[k]).0 == d;
        assert(before.contains(before[k]));
        assert(after.contains(before[k]));
        let i = after.index_of(before[k]);
        assert(after[i].0 == d);
    }
}

/// Compares two documents by score alone.
pub(crate) fn score_order(a: &(usize, u64), b: &(usize, u64)) -> (order: Ordering)
    ensures
        order is Less <==> rank(a.1) > rank(b.1),
        order is Greater <==> rank(a.1) < rank(b.1),
{
    let key_a: i64 = order_key(a.1);
    let key_b: i64 = order_key(b.1);
    if key_a > key_b {
        Ordering::Less
    } else if key_a < key_b {
        Ordering::Greater
    } else {
        Ordering::Equal
    }
}

/// The rank of the score at a place.
pub open spec fn rank_at(scores: Seq<u64>, place: usize) -> int {
    rank(scores[place as int])
}

/// Compares two places of a list of scores by the scores at them.
pub(crate) fn index_order(scores: &[u64], a: usize, b: usize) -> (order: Ordering)
    requires
        a < scores@.len(),
        b < scores@.len(),
    ensures
        order is Less <==> rank_at(scores@, a) > rank_at(scores@, b),
        order is Greater <==> rank_at(scores@, a) < rank_at(scores@, b),
{
    score_order(&(a, scores[a]), &(b, scores[b]))
}

/// `par_sort_unstable_by` of `rayon` with [`index_order`]: the same places, those of higher scores
/// first.
#[verifier::external_body]
pub(crate) fn parallel_sort_places(places: &mut Vec<usize>, scores: &[u64])
    requires
        forall|i: int| 0 <= i < old(places)@.len() ==> #[trigger] old(places)@[i] < scores@.len(),
    ensures
        final(places)@.to_multiset() == old(places)@.to_multiset(),
        forall|i: int, j: int|
            0 <= i < j < final(places)@.len() ==> rank_at(
                scores@,
                #[trigger] final(places)@[i],
            ) >= rank_at(scores@, #[trigger] final(places)@[j]),
{
    places.par_sort_unstable_by(|&a, &b| index_order(scores, a, b))
}

/// `slice::select_nth_unstable_by` with [`score_order`]: the same items, and none before place `k`
/// has a lower score than one from place `k` on.
#[verifier::external_body]
pub(crate) fn select_best(items: &mut Vec<(usize, u64)>, k: usize)
    requires
        k < old(items)@.len(),
    ensures
        final(items)@.to_multiset() == old(items)@.to_multiset(),
        forall|i: int, j: int|
            0 <= i < k <= j < final(items)@.len() ==> rank((#[trigger] final(items)@[i]).1) >= rank(
                (#[trigger] final(items)@[j]).1,
            ),
{
    items.select_nth_unstable_by(k, |a, b| score_order(a, b));
}

/// `slice::sort_unstable_by` with [`score_order`]: the same items, those of higher scores first.
#[verifier::external_body]
pub(crate) fn sort_by_score(items: &mut Vec<(usize, u64)>)
    ensures
        final(items)@.to_multiset() == old(items)@.to_multiset(),
        forall|i: int, j: int|
            0 <= i < j < final(items)@.len() ==> rank((#[trigger] final(items)@[i]).1) >= rank(
                (#[trigger] final(items)@[j]).1,
            ),
{
    items.sort_unstable_by(|a, b| score_order(a, b))
}

/// A rearranged sequence holds the same items, and has as few duplicates.
pub proof fn lemma_rearranged<V>(before: Seq<V>, after: Seq<V>)
    requires
        after.to_multiset() == before.to_multiset(),
    ensures
        after.len() == before.len(),
        forall|x: V| #[trigger] after.contains(x) <==> before.contains(x),
        before.no_duplicates() ==> after.no_duplicates(),
{
    before.to_multiset_ensures();
    after.to_multiset_ensures();
    assert forall|x: V| #[trigger] after.contains(x) <==> before.contains(x) by {
        assert(before.contains(x) <==> before.to_multiset().count(x) > 0);
        assert(after.contains(x) <==> after.to_multiset().count(x) > 0);
    }
    if before.no_duplicates() {
        before.lemma_multiset_has_no_duplicates();
        after.lemma_multiset_has_no_duplicates_conv();
    }
}

} // verus!
