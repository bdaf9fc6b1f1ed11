//! Work that `rayon` hands out to its thread pool.
use rayon::iter::{IntoParallelIterator, IntoParallelRefIterator, ParallelIterator};
use vstd::prelude::*;

verus! {

/// `par_iter`, `map` and `collect` of `rayon`: `f` is applied to every item, and the results stand
/// in the order of the items.
#[verifier::external_body]
pub(crate) fn parallel_map<T: Sync, R: Send, F: Fn(&T) -> R + Sync + Send>(
    items: &[T],
    f: F,
) -> (results: Vec<R>)
    requires
        forall|i: int| 0 <= i < items@.len() ==> call_requires(f, (&#[trigger] items@[i],)),
    ensures
        results@.len() == items@.len(),
        forall|i: int|
            0 <= i < items@.len() ==> call_ensures(f, (&items@[i],), #[trigger] results@[i]),
{
    items.par_iter().map(f).collect()
}

/// `joined` is made of one list for every item, in order, each a list that `f` may return for it.
pub open spec fn joins_lists<T, R, F: Fn(&T) -> Vec<R>>(
    items: Seq<T>,
    f: F,
    joined: Seq<R>,
) -> bool {
    exists|lists: Seq<Vec<R>>|
        {
            &&& #[trigger] lists.len() == items.len()
            &&& forall|i: int|
                0 <= i < items.len() ==> call_ensures(f, (&items[i],), #[trigger] lists[i])
            &&& joined == lists.map_values(|list: Vec<R>| list@).flatten()
        }
}

/// `par_iter`, `flat_map` and `collect` of `rayon`: `f` is applied to every item, and the lists it
/// returns are joined in the order of the items.
#[verifier::external_body]
pub(crate) fn parallel_flat_map<T: Sync, R: Send, F: Fn(&T) -> Vec<R> + Sync + Send>(
    items: &[T],
    f: F,
) -> (joined: Vec<R>)
    requires
        forall|i: int| 0 <= i < items@.len() ==> call_requires(f, (&#[trigger] items@[i],)),
    ensures
        joins_lists(items@, f, joined@),
{
    items.par_iter().flat_map(f).collect()
}

/// `holds(value, from, to)` is true of an identity value over any empty range, of every item over
/// its own place, and `op` keeps it when it joins the values of two neighbouring ranges.
pub open spec fn keeps_ranges<T, I: Fn() -> T, O: Fn(T, T) -> T>(
    holds: spec_fn(T, int, int) -> bool,
    items: Seq<T>,
    identity: I,
    op: O,
) -> bool {
    &&& call_requires(identity, ())
    &&& forall|value: T, at: int|
        #![trigger holds(value, at, at)]
        0 <= at <= items.len() && call_ensures(identity, (), value) ==> holds(value, at, at)
    &&& forall|i: int| 0 <= i < items.len() ==> holds(#[trigger] items[i], i, i + 1)
    &&& forall|left: T, right: T, from: int, mid: int, to: int|
        0 <= from <= mid <= to <= items.len() && #[trigger] holds(left, from, mid)
            && #[trigger] holds(right, mid, to) ==> call_requires(op, (left, right)) && forall|
            joined: T,
        | #[trigger]
            call_ensures(op, (left, right), joined) ==> holds(joined, from, to)
}

/// `into_par_iter` and `reduce` of `rayon`: the items are joined by `op` in their order, grouped in
/// some way, with identity values put in between in some places. Of the result this says that it
/// has every property that `op` carries from neighbouring ranges of items to the range they make.
#[verifier::external_body]
pub(crate) fn parallel_reduce<
    T: Send,
    I: Fn() -> T + Sync + Send,
    O: Fn(T, T) -> T + Sync + Send,
>(items: Vec<T>, identity: I, op: O) -> (result: T)
    requires
        exists|holds: spec_fn(T, int, int) -> bool| keeps_ranges(holds, items@, identity, op),
    ensures
        forall|holds: spec_fn(T, int, int) -> bool|
            keeps_ranges(holds, items@, identity, op) ==> holds(result, 0, items@.len() as int),
{
    items.into_par_iter().reduce(identity, op)
}

} // verus!
