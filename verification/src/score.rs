//! Scores and how they are ordered and added up.
//!
//! A score is carried as the bit pattern of an IEEE 754 double. Its arithmetic belongs to the
//! caller, who hands it over as a [`Scorer`]; its order can be read off the bits.
use vstd::prelude::*;

verus! {

/// The bit pattern of zero.
pub const ZERO: u64 = 0;

/// The lowest bit pattern with the sign bit set, which is negative zero.
pub const SIGN: u64 = 0x8000_0000_0000_0000;

/// The bit pattern of infinity. A larger magnitude is not a number.
pub const INFINITY: u64 = 0x7ff0_0000_0000_0000;

/// The place of a score in the order of doubles: one number is smaller than another if and only if
/// its rank is, and both zeros have rank zero.
pub open spec fn rank(score: u64) -> int {
    if score < SIGN {
        score as int
    } else {
        SIGN - score
    }
}

/// The bit pattern is not that of a number.
pub open spec fn is_nan(score: u64) -> bool {
    rank(score) > INFINITY || rank(score) < -INFINITY
}

/// The rank of a score as a machine integer.
pub fn order_key(score: u64) -> (key: i64)
    ensures
        key == rank(score),
        score < 0x8000_0000_0000_0000 ==> key == score,
        score >= 0x8000_0000_0000_0000 ==> key == 0x8000_0000_0000_0000 - score,
{
    if score < SIGN {
        score as i64
    } else {
        -((score - SIGN) as i64)
    }
}

/// Tells whether a bit pattern is not that of a number.
pub fn not_a_number(score: u64) -> (found: bool)
    ensures
        found == is_nan(score),
        found <==> (0x7ff0_0000_0000_0000 < score < 0x8000_0000_0000_0000 || score
            > 0xfff0_0000_0000_0000),
{
    let key: i64 = order_key(score);
    key > INFINITY as i64 || key < -(INFINITY as i64)
}

/// The score is a number below zero.
pub open spec fn is_negative(score: u64) -> bool {
    -INFINITY <= rank(score) < 0
}

/// Tells whether a score is a number below zero.
pub fn below_zero(score: u64) -> (below: bool)
    ensures
        below == is_negative(score),
        below <==> 0x8000_0000_0000_0000 < score <= 0xfff0_0000_0000_0000,
{
    let key: i64 = order_key(score);
    -(INFINITY as i64) <= key && key < 0
}

/// The arithmetic of scores.
///
/// `term` gives what one query term adds to the score of a document, from the number of times the
/// term occurs in the document, the length of the document, and the weight of the term. `add` is
/// addition.
pub struct Scorer<T, A> {
    pub term: T,
    pub add: A,
}

/// What goes into the score of a document for one query term: the number of times the term occurs
/// in it, the length of the document, and the weight of the term.
pub type Part = (u32, u32, u64);

impl<T: Fn(u32, u32, u64) -> u64, A: Fn(u64, u64) -> u64> Scorer<T, A> {
    /// Both operations are defined on all values.
    pub open spec fn total(&self) -> bool {
        &&& forall|freq: u32, dl: u32, weight: u64| #[trigger]
            call_requires(self.term, (freq, dl, weight))
        &&& forall|a: u64, b: u64| #[trigger] call_requires(self.add, (a, b))
    }

    /// Both operations give the same result whenever they are given the same values.
    pub open spec fn deterministic(&self) -> bool {
        &&& forall|part: Part, x: u64, y: u64| #[trigger]
            call_ensures(self.term, part, x) && #[trigger] call_ensures(self.term, part, y) ==> x
                == y
        &&& forall|values: (u64, u64), x: u64, y: u64| #[trigger]
            call_ensures(self.add, values, x) && #[trigger] call_ensures(self.add, values, y) ==> x
                == y
    }

    /// Adding what `part` contributes to `before` may give `after`.
    pub open spec fn adds(&self, before: u64, part: Part, after: u64) -> bool {
        exists|contribution: u64| #[trigger]
            call_ensures(self.term, part, contribution) && call_ensures(
                self.add,
                (before, contribution),
                after,
            )
    }

    /// `sums` are the running totals when `parts` are added to `before` one after the other.
    pub open spec fn running(
        &self,
        before: u64,
        parts: Seq<Part>,
        after: u64,
        sums: Seq<u64>,
    ) -> bool {
        &&& sums.len() == parts.len() + 1
        &&& sums.first() == before
        &&& sums.last() == after
        &&& forall|i: int|
            0 <= i < parts.len() ==> self.adds(sums[i], #[trigger] parts[i], sums[i + 1])
    }

    /// Adding what `parts` contribute to `before`, one after the other, may give `after`.
    pub open spec fn accumulates(&self, before: u64, parts: Seq<Part>, after: u64) -> bool {
        exists|sums: Seq<u64>| self.running(before, parts, after, sums)
    }

    /// `score` is a sum of what `parts` contribute, from zero and in order.
    pub open spec fn sums(&self, parts: Seq<Part>, score: u64) -> bool {
        self.accumulates(ZERO, parts, score)
    }

    /// Nothing is added.
    pub proof fn lemma_accumulates_none(&self, score: u64)
        ensures
            self.accumulates(score, Seq::<Part>::empty(), score),
    {
        assert(self.running(score, Seq::<Part>::empty(), score, seq![score]));
    }

    /// One more part after `parts`.
    pub proof fn lemma_accumulates_push(
        &self,
        before: u64,
        parts: Seq<Part>,
        mid: u64,
        part: Part,
        after: u64,
    )
        requires
            self.accumulates(before, parts, mid),
            self.adds(mid, part, after),
        ensures
            self.accumulates(before, parts.push(part), after),
    {
        let sums = choose|sums: Seq<u64>| self.running(before, parts, mid, sums);
        assert(self.running(before, parts.push(part), after, sums.push(after)));
    }

    /// The parts of one sum continued by those of another.
    pub proof fn lemma_accumulates_append(
        &self,
        before: u64,
        first: Seq<Part>,
        mid: u64,
        second: Seq<Part>,
        after: u64,
    )
        requires
            self.accumulates(before, first, mid),
            self.accumulates(mid, second, after),
        ensures
            self.accumulates(before, first + second, after),
    {
        let head = choose|sums: Seq<u64>| self.running(before, first, mid, sums);
        let tail = choose|sums: Seq<u64>| self.running(mid, second, after, sums);
        let sums = head + tail.drop_first();
        let parts = first + second;
        assert forall|i: int| 0 <= i < parts.len() implies self.adds(
            sums[i],
            #[trigger] parts[i],
            sums[i + 1],
        ) by {
            if i < first.len() {
                assert(parts[i] == first[i]);
            } else {
                assert(parts[i] == second[i - first.len()]);
            }
        }
        assert(self.running(before, parts, after, sums));
    }

    /// A sum of parts goes through a sum of the first of them.
    pub proof fn lemma_accumulates_split(
        &self,
        before: u64,
        first: Seq<Part>,
        second: Seq<Part>,
        after: u64,
    ) -> (mid: u64)
        requires
            self.accumulates(before, first + second, after),
        ensures
            self.accumulates(before, first, mid),
            self.accumulates(mid, second, after),
    {
        let parts = first + second;
        let sums = choose|sums: Seq<u64>| self.running(before, parts, after, sums);
        let at = first.len() as int;
        let head = sums.take(at + 1);
        let tail = sums.skip(at);
        assert forall|i: int| 0 <= i < first.len() implies self.adds(
            head[i],
            #[trigger] first[i],
            head[i + 1],
        ) by {
            assert(parts[i] == first[i]);
        }
        assert forall|i: int| 0 <= i < second.len() implies self.adds(
            tail[i],
            #[trigger] second[i],
            tail[i + 1],
        ) by {
            assert(parts[at + i] == second[i]);
        }
        assert(self.running(before, first, sums[at], head));
        assert(self.running(sums[at], second, after, tail));
        sums[at]
    }

    /// A sum of one part.
    pub proof fn lemma_accumulates_one(&self, before: u64, part: Part, after: u64)
        requires
            self.accumulates(before, seq![part], after),
        ensures
            self.adds(before, part, after),
    {
        let sums = choose|sums: Seq<u64>| self.running(before, seq![part], after, sums);
        assert(seq![part][0] == part);
        assert(self.adds(sums[0], part, sums[1]));
    }

    /// With deterministic arithmetic a sum has one value.
    pub proof fn lemma_accumulates_unique(&self, before: u64, parts: Seq<Part>, x: u64, y: u64)
        requires
            self.deterministic(),
            self.accumulates(before, parts, x),
            self.accumulates(before, parts, y),
        ensures
            x == y,
    {
        let sums_x = choose|sums: Seq<u64>| self.running(before, parts, x, sums);
        let sums_y = choose|sums: Seq<u64>| self.running(before, parts, y, sums);
        self.lemma_running_unique(before, parts, x, sums_x, y, sums_y, parts.len() as int);
    }

    proof fn lemma_running_unique(
        &self,
        before: u64,
        parts: Seq<Part>,
        x: u64,
        sums_x: Seq<u64>,
        y: u64,
        sums_y: Seq<u64>,
        at: int,
    )
        requires
            self.deterministic(),
            self.running(before, parts, x, sums_x),
            self.running(before, parts, y, sums_y),
            0 <= at <= parts.len(),
        ensures
            sums_x[at] == sums_y[at],
        decreases at,
    {
        if at > 0 {
            self.lemma_running_unique(before, parts, x, sums_x, y, sums_y, at - 1);
            let part = parts[at - 1];
            assert(self.adds(sums_x[at - 1], part, sums_x[at]));
            assert(self.adds(sums_y[at - 1], part, sums_y[at]));
        }
    }

    /// Adds what one part contributes to a score.
    pub(crate) fn add_part(&self, before: u64, part: Part) -> (after: u64)
        requires
            self.total(),
        ensures
            self.adds(before, part, after),
    {
        let contribution = (self.term)(part.0, part.1, part.2);
        let after = (self.add)(before, contribution);
        assert(call_ensures(self.term, part, contribution));
        after
    }
}

} // verus!
