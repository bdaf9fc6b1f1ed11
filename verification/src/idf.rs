//! The weights of terms.
use crate::collections::{
    counts_entries, counts_of, lists_entries, weights_from_entries, weights_of,
};
use crate::parallel::parallel_map;
use crate::score::{below_zero, is_negative};
use ahash::AHashMap;
use vstd::prelude::*;

verus! {

/// Every symbol of `nd` has a weight that `idf` may return for its document frequency.
pub open spec fn weighs<I: Fn(u32, usize) -> u64>(
    nd: Map<usize, u32>,
    corpus_size: usize,
    idf: I,
    weights: Map<usize, u64>,
) -> bool {
    &&& weights.dom() == nd.dom()
    &&& forall|symbol: usize| #[trigger]
        nd.contains_key(symbol) ==> call_ensures(idf, (nd[symbol], corpus_size), weights[symbol])
}

/// `idf` is defined for every document frequency in `nd`.
pub open spec fn can_weigh<I: Fn(u32, usize) -> u64>(
    nd: Map<usize, u32>,
    corpus_size: usize,
    idf: I,
) -> bool {
    forall|symbol: usize| #[trigger]
        nd.contains_key(symbol) ==> call_requires(idf, (nd[symbol], corpus_size))
}

/// Every symbol has the weight that `raw` gives it, unless that is negative; then it has the weight
/// `floor`, which `floor_of` may return for the raw weights in some order.
pub open spec fn floors<L: Fn(&Vec<u64>) -> u64>(
    raw: Map<usize, u64>,
    floor_of: L,
    floor: u64,
    weights: Map<usize, u64>,
) -> bool {
    &&& exists|values: Vec<u64>, order: Seq<usize>|
        {
            &&& #[trigger] call_ensures(floor_of, (&values,), floor)
            &&& #[trigger] order.no_duplicates()
            &&& order.to_set() == raw.dom()
            &&& values@ == order.map_values(|symbol: usize| raw[symbol])
        }
    &&& weights == floored(raw, floor)
}

/// The weights with the negative ones replaced by `floor`.
pub open spec fn floored(raw: Map<usize, u64>, floor: u64) -> Map<usize, u64> {
    raw.map_values(
        |weight: u64|
            if is_negative(weight) {
                floor
            } else {
                weight
            },
    )
}

/// `idf` is defined for a document frequency.
spec fn weighs_frequency<I: Fn(u32, usize) -> u64>(idf: &I, freq: u32, size: usize) -> bool {
    call_requires(*idf, (freq, size))
}

/// Computes a weight for every symbol.
fn weigh_entries<I: Fn(u32, usize) -> u64 + Sync>(
    entries: &Vec<(usize, u32)>,
    corpus_size: usize,
    idf: &I,
) -> (weights: Vec<u64>)
    requires
        forall|i: int|
            0 <= i < entries@.len() ==> call_requires(
                *idf,
                ((#[trigger] entries@[i]).1, corpus_size),
            ),
    ensures
        weights@.len() == entries@.len(),
        forall|i: int|
            0 <= i < entries@.len() ==> call_ensures(
                *idf,
                (entries@[i].1, corpus_size),
                #[trigger] weights@[i],
            ),
{
    let weigh_one = |entry: &(usize, u32)| -> (weight: u64)
        requires
            weighs_frequency(idf, entry.1, corpus_size),
        ensures
            call_ensures(*idf, (entry.1, corpus_size), weight),
        { idf(entry.1, corpus_size) };
    parallel_map(entries.as_slice(), weigh_one)
}

/// The map in which the symbol of every entry has the value at the same place.
spec fn paired(entries: Seq<(usize, u32)>, values: Seq<u64>) -> Map<usize, u64> {
    let order = entries.map_values(|entry: (usize, u32)| entry.0);
    Map::new(|symbol: usize| order.contains(symbol), |symbol: usize| values[order.index_of(symbol)])
}

/// Entries with distinct symbols, paired with values.
proof fn lemma_paired(
    entries: Seq<(usize, u32)>,
    nd: Map<usize, u32>,
    values: Seq<u64>,
    weights: Map<usize, u64>,
)
    requires
        lists_entries(entries, nd),
        values.len() == entries.len(),
    ensures
        paired(entries, values).dom() == nd.dom(),
        forall|i: int|
            0 <= i < entries.len() ==> paired(entries, values)[(#[trigger] entries[i]).0]
                == values[i],
        entries.map_values(|entry: (usize, u32)| entry.0).no_duplicates(),
        entries.map_values(|entry: (usize, u32)| entry.0).to_set() == nd.dom(),
        lists_entries(
            Seq::new(entries.len(), |i: int| (entries[i].0, values[i])),
            weights,
        ) ==> weights == paired(entries, values),
{
    let order = entries.map_values(|entry: (usize, u32)| entry.0);
    assert(order.no_duplicates()) by {
        assert forall|i: int, j: int|
            0 <= i < order.len() && 0 <= j < order.len() && i != j implies order[i] != order[j] by {
            if i < j {
                assert(entries[i].0 != entries[j].0);
            } else {
                assert(entries[j].0 != entries[i].0);
            }
        }
    }
    assert forall|s: usize| #[trigger] order.contains(s) <==> nd.contains_key(s) by {
        if order.contains(s) {
            let i = order.index_of(s);
            assert(entries[i].0 == s);
        }
        if nd.contains_key(s) {
            let i = choose|i: int| 0 <= i < entries.len() && (#[trigger] entries[i]).0 == s;
            assert(order[i] == s);
        }
    }
    assert(paired(entries, values).dom() =~= nd.dom());
    assert(order.to_set() =~= nd.dom());
    assert forall|i: int| 0 <= i < entries.len() implies paired(entries, values)[(
    #[trigger] entries[i]).0] == values[i] by {
        assert(order[i] == entries[i].0);
        assert(order.contains(order[i]));
        assert(order.index_of(order[i]) == i);
    }
    let pairs = Seq::new(entries.len(), |i: int| (entries[i].0, values[i]));
    if lists_entries(pairs, weights) {
        assert forall|s: usize| #[trigger]
            weights.contains_key(s) <==> paired(entries, values).contains_key(s) by {
            if weights.contains_key(s) {
                let i = choose|i: int| 0 <= i < pairs.len() && (#[trigger] pairs[i]).0 == s;
                assert(order[i] == s);
            }
            if order.contains(s) {
                let i = order.index_of(s);
                assert(pairs[i].0 == s);
            }
        }
        assert forall|s: usize| weights.contains_key(s) implies #[trigger] weights[s] == paired(
            entries,
            values,
        )[s] by {
            let i = choose|i: int| 0 <= i < pairs.len() && (#[trigger] pairs[i]).0 == s;
            assert(entries[i].0 == s);
        }
        assert(weights =~= paired(entries, values));
    }
}

/// Puts symbols and weights together in a map.
fn weight_map(
    entries: &Vec<(usize, u32)>,
    weights: &Vec<u64>,
    Ghost(nd): Ghost<Map<usize, u32>>,
) -> (map: AHashMap<usize, u64>)
    requires
        lists_entries(entries@, nd),
        weights@.len() == entries@.len(),
    ensures
        weights_of(map) == paired(entries@, weights@),
{
    let mut pairs: Vec<(usize, u64)> = Vec::new();
    let mut i: usize = 0;
    while i < entries.len()
        invariant
            weights@.len() == entries@.len(),
            i <= entries@.len(),
            pairs@.len() == i,
            forall|k: int| 0 <= k < i ==> #[trigger] pairs@[k] == (entries@[k].0, weights@[k]),
        decreases entries@.len() - i,
    {
        pairs.push((entries[i].0, weights[i]));
        i += 1;
    }
    assert(pairs@ =~= Seq::new(entries@.len(), |k: int| (entries@[k].0, weights@[k])));
    assert forall|k: int, j: int| 0 <= k < j < pairs@.len() implies pairs@[k].0 != pairs@[j].0 by {
        assert(entries@[k].0 != entries@[j].0);
    }
    let map = weights_from_entries(pairs);
    proof {
        lemma_paired(entries@, nd, weights@, weights_of(map));
    }
    map
}

/// The Robertson-Walker weights of the Okapi variant. A negative weight is replaced by a floor,
/// which is computed from all weights.
pub fn calc_idf_okapi<I: Fn(u32, usize) -> u64 + Sync, L: Fn(&Vec<u64>) -> u64>(
    nd: AHashMap<usize, u32>,
    corpus_size: usize,
    idf: &I,
    floor_of: &L,
) -> (weights: AHashMap<usize, u64>)
    requires
        can_weigh(counts_of(nd), corpus_size, *idf),
        forall|values: &Vec<u64>| call_requires(*floor_of, (values,)),
    ensures
        exists|raw: Map<usize, u64>, floor: u64|
            weighs(counts_of(nd), corpus_size, *idf, raw) && #[trigger] floors(
                raw,
                *floor_of,
                floor,
                weights_of(weights),
            ),
{
    let entries = counts_entries(&nd);
    let values = weigh_entries(&entries, corpus_size, idf);
    let floor = floor_of(&values);
    let mut adjusted: Vec<u64> = Vec::new();
    let mut i: usize = 0;
    while i < values.len()
        invariant
            i <= values@.len(),
            adjusted@.len() == i,
            forall|k: int|
                0 <= k < i ==> #[trigger] adjusted@[k] == if is_negative(values@[k]) {
                    floor
                } else {
                    values@[k]
                },
        decreases values@.len() - i,
    {
        let value = values[i];
        if below_zero(value) {
            adjusted.push(floor);
        } else {
            adjusted.push(value);
        }
        i += 1;
    }
    let ghost counts = counts_of(nd);
    let weights = weight_map(&entries, &adjusted, Ghost(counts));
    proof {
        let raw = paired(entries@, values@);
        let order = entries@.map_values(|entry: (usize, u32)| entry.0);
        lemma_paired(entries@, counts, values@, raw);
        lemma_paired(entries@, counts, adjusted@, raw);
        assert forall|s: usize| #[trigger] counts.contains_key(s) implies {
            &&& call_ensures(*idf, (counts[s], corpus_size), raw[s])
            &&& weights_of(weights)[s] == if is_negative(raw[s]) {
                floor
            } else {
                raw[s]
            }
        } by {
            let k = choose|k: int| 0 <= k < entries@.len() && (#[trigger] entries@[k]).0 == s;
            assert(call_ensures(*idf, (entries@[k].1, corpus_size), values@[k]));
            assert(raw[entries@[k].0] == values@[k]);
        }
        assert(weighs(counts, corpus_size, *idf, raw));
        assert(values@ =~= order.map_values(|symbol: usize| raw[symbol])) by {
            assert forall|k: int| 0 <= k < values@.len() implies values@[k] == raw[order[k]] by {
                assert(order[k] == entries@[k].0);
            }
        }
        assert(call_ensures(*floor_of, (&values,), floor));
        assert(order.no_duplicates());
        assert(order.to_set() == raw.dom());
        assert(weights_of(weights) =~= floored(raw, floor));
        assert(floors(raw, *floor_of, floor, weights_of(weights)));
    }
    weights
}

/// A weight for every symbol, from its document frequency.
fn calc_idf<I: Fn(u32, usize) -> u64 + Sync>(
    nd: AHashMap<usize, u32>,
    corpus_size: usize,
    idf: &I,
) -> (weights: AHashMap<usize, u64>)
    requires
        can_weigh(counts_of(nd), corpus_size, *idf),
    ensures
        weighs(counts_of(nd), corpus_size, *idf, weights_of(weights)),
{
    let entries = counts_entries(&nd);
    let values = weigh_entries(&entries, corpus_size, idf);
    let ghost counts = counts_of(nd);
    let weights = weight_map(&entries, &values, Ghost(counts));
    proof {
        lemma_paired(entries@, counts, values@, weights_of(weights));
        assert forall|s: usize| #[trigger] counts.contains_key(s) implies call_ensures(
            *idf,
            (counts[s], corpus_size),
            weights_of(weights)[s],
        ) by {
            let k = choose|k: int| 0 <= k < entries@.len() && (#[trigger] entries@[k]).0 == s;
            assert(call_ensures(*idf, (entries@[k].1, corpus_size), values@[k]));
            assert(paired(entries@, values@)[entries@[k].0] == values@[k]);
        }
    }
    weights
}

/// The weights of the BM25+ variant.
pub fn calc_idf_plus<I: Fn(u32, usize) -> u64 + Sync>(
    nd: AHashMap<usize, u32>,
    corpus_size: usize,
    idf: &I,
) -> (weights: AHashMap<usize, u64>)
    requires
        can_weigh(counts_of(nd), corpus_size, *idf),
    ensures
        weighs(counts_of(nd), corpus_size, *idf, weights_of(weights)),
{
    calc_idf(nd, corpus_size, idf)
}

/// The weights of the BM25L variant.
pub fn calc_idf_l<I: Fn(u32, usize) -> u64 + Sync>(
    nd: AHashMap<usize, u32>,
    corpus_size: usize,
    idf: &I,
) -> (weights: AHashMap<usize, u64>)
    requires
        can_weigh(counts_of(nd), corpus_size, *idf),
    ensures
        weighs(counts_of(nd), corpus_size, *idf, weights_of(weights)),
{
    calc_idf(nd, corpus_size, idf)
}

} // verus!
