//! Sorting by insertion, proved against the mathematical sort of a sequence.

use vstd::prelude::*;
use vstd::relations::{sorted_by, total_ordering};
use vstd::seq_lib::{lemma_sorted_unique, to_multiset_build, to_multiset_insert};
use crate::store::{lemma_key_injective, ArchetypeId, EntityId};

verus! {

/// A value that is ordered, and told from the others of its type, by a number.
pub trait Numbered: Copy {
    /// The number of the value.
    spec fn number(self) -> u64;

    /// Computes [`Numbered::number`].
    fn get_number(&self) -> (n: u64)
        ensures
            n == self.number(),
    ;

    /// Two values with the same number are the same value.
    proof fn lemma_number_injective(a: Self, b: Self)
        requires
            a.number() == b.number(),
        ensures
            a == b,
    ;
}

impl Numbered for EntityId {
    open spec fn number(self) -> u64 {
        self.key()
    }

    fn get_number(&self) -> (n: u64) {
        self.to_key()
    }

    proof fn lemma_number_injective(a: Self, b: Self) {
        lemma_key_injective(a, b);
    }
}

impl Numbered for ArchetypeId {
    open spec fn number(self) -> u64 {
        self.0
    }

    fn get_number(&self) -> (n: u64) {
        self.0
    }

    proof fn lemma_number_injective(a: Self, b: Self) {
    }
}

/// A value of a type with a total order.
pub trait Ordered: Copy {
    /// Whether the value comes before `other`, or equals it.
    spec fn leq(self, other: Self) -> bool;

    /// Computes [`Ordered::leq`].
    fn le(&self, other: &Self) -> (le: bool)
        ensures
            le == self.leq(*other),
    ;

    /// The order is reflexive, antisymmetric, transitive and total.
    proof fn lemma_order(a: Self, b: Self, c: Self)
        ensures
            a.leq(a),
            a.leq(b) && b.leq(a) ==> a == b,
            a.leq(b) && b.leq(c) ==> a.leq(c),
            a.leq(b) || b.leq(a),
    ;
}

/// The order of a type is a total order.
pub proof fn lemma_ordered_total<T: Ordered>()
    ensures
        total_ordering(ordered::<T>()),
{
    let leq = ordered::<T>();
    assert forall|x: T| #[trigger] leq(x, x) by {
        T::lemma_order(x, x, x);
    }
    assert forall|x: T, y: T| #[trigger] leq(x, y) && #[trigger] leq(y, x) implies x == y by {
        T::lemma_order(x, y, x);
    }
    assert forall|x: T, y: T, z: T| #[trigger] leq(x, y) && #[trigger] leq(y, z) implies leq(
        x,
        z,
    ) by {
        T::lemma_order(x, y, z);
    }
    assert forall|x: T, y: T| #[trigger] leq(x, y) || #[trigger] leq(y, x) by {
        T::lemma_order(x, y, x);
    }
}

/// The order of the values of a type.
pub open spec fn ordered<T: Ordered>() -> spec_fn(T, T) -> bool {
    |a: T, b: T| a.leq(b)
}

impl Ordered for EntityId {
    /// Entities are ordered by index, then by generation.
    open spec fn leq(self, other: Self) -> bool {
        self.key() <= other.key()
    }

    fn le(&self, other: &Self) -> (le: bool) {
        self.to_key() <= other.to_key()
    }

    proof fn lemma_order(a: Self, b: Self, c: Self) {
        if a.key() == b.key() {
            lemma_key_injective(a, b);
        }
    }
}

impl Ordered for ArchetypeId {
    /// Archetypes are ordered by the numbers of their identifiers.
    open spec fn leq(self, other: Self) -> bool {
        self.0 <= other.0
    }

    fn le(&self, other: &Self) -> (le: bool) {
        self.0 <= other.0
    }

    proof fn lemma_order(a: Self, b: Self, c: Self) {
    }
}

/// Putting `x` into a sorted sequence, behind what is not greater and before
/// what is not smaller, leaves it sorted, with `x` added to its elements.
pub proof fn lemma_insertion_step<A>(done: Seq<A>, pos: int, x: A, leq: spec_fn(A, A) -> bool)
    requires
        total_ordering(leq),
        sorted_by(done, leq),
        0 <= pos <= done.len(),
        forall|k: int| 0 <= k < pos ==> #[trigger] leq(done[k], x),
        pos < done.len() ==> leq(x, done[pos]),
    ensures
        sorted_by(done.insert(pos, x), leq),
        done.insert(pos, x).to_multiset() == done.to_multiset().insert(x),
{
    let after = done.insert(pos, x);
    to_multiset_insert(done, pos, x);
    assert forall|i: int, j: int| 0 <= i < j < after.len() implies #[trigger] leq(
        after[i],
        after[j],
    ) by {
        if j < pos {
            assert(leq(done[i], done[j]));
        } else if j == pos {
            assert(leq(done[i], x));
        } else if i < pos {
            assert(leq(done[i], done[j - 1]));
        } else if i == pos {
            assert(leq(x, done[pos]));
            if j - 1 > pos {
                assert(leq(done[pos], done[j - 1]));
            }
        } else {
            assert(leq(done[i - 1], done[j - 1]));
        }
    }
}

/// A sorted sequence with the elements of `input` is the sort of `input`.
pub proof fn lemma_sorted_is_sort<A>(out: Seq<A>, input: Seq<A>, leq: spec_fn(A, A) -> bool)
    requires
        total_ordering(leq),
        sorted_by(out, leq),
        out.to_multiset() == input.to_multiset(),
    ensures
        out == input.sort_by(leq),
{
    input.lemma_sort_by_ensures(leq);
    lemma_sorted_unique(out, input.sort_by(leq), leq);
}

/// Sorts values into the order of their type, smallest first.
pub fn sort<T: Ordered>(values: &Vec<T>) -> (sorted: Vec<T>)
    ensures
        sorted@ == values@.sort_by(ordered::<T>()),
{
    let ghost leq = ordered::<T>();
    proof {
        lemma_ordered_total::<T>();
    }
    let mut sorted: Vec<T> = Vec::new();
    let mut i: usize = 0;
    assert(sorted@ =~= values@.take(0));
    while i < values.len()
        invariant
            i <= values.len(),
            leq == ordered::<T>(),
            total_ordering(leq),
            sorted_by(sorted@, leq),
            sorted@.to_multiset() == values@.take(i as int).to_multiset(),
        decreases values.len() - i,
    {
        let x = values[i];
        let mut pos: usize = 0;
        while pos < sorted.len() && sorted[pos].le(&x)
            invariant
                pos <= sorted.len(),
                leq == ordered::<T>(),
                forall|k: int| 0 <= k < pos ==> #[trigger] leq(sorted@[k], x),
            decreases sorted.len() - pos,
        {
            pos += 1;
        }
        proof {
            if pos < sorted.len() {
                assert(!leq(sorted@[pos as int], x));
                assert(leq(x, sorted@[pos as int]) || leq(sorted@[pos as int], x));
            }
            lemma_insertion_step(sorted@, pos as int, x, leq);
            assert(values@.take(i as int + 1) == values@.take(i as int).push(x));
            to_multiset_build(values@.take(i as int), x);
        }
        sorted.insert(pos, x);
        i += 1;
    }
    proof {
        assert(values@.take(values.len() as int) == values@);
        lemma_sorted_is_sort(sorted@, values@, leq);
    }
    sorted
}

} // verus!
