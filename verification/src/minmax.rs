//! A collection that is kept in ascending order, with its least and
//! greatest element at hand.
use std::cmp::Ordering;
use vstd::prelude::*;
use vstd::std_specs::cmp::PartialOrdSpec;

verus! {

/// Whether `a` is at most `b`.
pub open spec fn at_most<T: PartialOrd>(a: T, b: T) -> bool {
    a.partial_cmp_spec(&b) matches Some(Ordering::Less | Ordering::Equal)
}

/// Whether `a` is below `b`.
pub open spec fn below<T: PartialOrd>(a: T, b: T) -> bool {
    a.partial_cmp_spec(&b) == Some(Ordering::Less)
}

/// Whether the comparison of `T` is a total order that the operators
/// `<` and `<=` follow.
pub open spec fn totally_ordered<T: PartialOrd>() -> bool {
    &&& T::obeys_partial_cmp_spec()
    &&& forall|a: T, b: T| #[trigger] below(a, b) <==> !#[trigger] at_most(b, a)
    &&& forall|a: T, b: T| #[trigger] below(a, b) ==> at_most(a, b)
    &&& forall|a: T, b: T, c: T| #[trigger] at_most(a, b) && #[trigger] at_most(b, c) ==> at_most(a, c)
}

/// Whether the elements stand in ascending order.
pub open spec fn ascending<T: PartialOrd>(items: Seq<T>) -> bool {
    forall|i: int, j: int| 0 <= i <= j < items.len() ==> at_most(#[trigger] items[i], #[trigger] items[j])
}

/// A collection kept in ascending order.
#[derive(Debug)]
pub struct MinMax<T: Ord>(Vec<T>);

impl<T: Ord> View for MinMax<T> {
    type V = Seq<T>;

    closed spec fn view(&self) -> Seq<T> {
        self.0@
    }
}

impl<T: Ord> Default for MinMax<T> {
    /// The empty collection.
    fn default() -> (empty: Self)
        ensures
            empty@ == Seq::<T>::empty(),
    {
        MinMax(Vec::new())
    }
}

impl<T: Ord> MinMax<T> {
    /// Whether the elements stand in ascending order, as they always do
    /// where the comparison of `T` is a total order.
    pub open spec fn well_formed(self) -> bool {
        ascending(self@)
    }

    /// The collection of the given elements.
    pub fn from_vec(items: Vec<T>) -> (sorted: Self)
        requires
            totally_ordered::<T>(),
        ensures
            sorted.well_formed(),
            sorted@.to_multiset() == items@.to_multiset(),
    {
        let mut sorted: MinMax<T> = MinMax(Vec::new());
        let mut rest = items;
        proof {
            broadcast use vstd::multiset::group_multiset_axioms;

            assert(sorted@ =~= Seq::<T>::empty());
            vstd::seq_lib::to_multiset_len(sorted@);
            vstd::multiset::lemma_multiset_empty_len(sorted@.to_multiset());
            assert(sorted@.to_multiset().add(rest@.to_multiset()) =~= items@.to_multiset());
        }
        while rest.len() > 0
            invariant
                totally_ordered::<T>(),
                sorted.well_formed(),
                sorted@.to_multiset().add(rest@.to_multiset()) == items@.to_multiset(),
            decreases rest@.len(),
        {
            let ghost before = rest@;
            let ghost held = sorted@;
            match rest.pop() {
                Some(item) => {
                    let place = sorted.insort(item);
                    proof {
                        broadcast use vstd::multiset::group_multiset_axioms;

                        assert(before =~= rest@.push(item));
                        vstd::seq_lib::to_multiset_build(rest@, item);
                        vstd::seq_lib::to_multiset_insert(held, place as int, item);
                        assert(sorted@.to_multiset().add(rest@.to_multiset()) =~= held.to_multiset().add(
                            before.to_multiset(),
                        ));
                    }
                },
                None => {},
            }
        }
        proof {
            broadcast use vstd::multiset::group_multiset_axioms;

            assert(rest@ =~= Seq::<T>::empty());
            vstd::seq_lib::to_multiset_len(rest@);
            vstd::multiset::lemma_multiset_empty_len(rest@.to_multiset());
            assert(sorted@.to_multiset() =~= items@.to_multiset());
        }
        sorted
    }

    /// The elements, in ascending order.
    pub fn vec(&self) -> (items: &Vec<T>)
        ensures
            items@ == self@,
    {
        &self.0
    }

    /// The elements, in ascending order.
    pub fn into_inner(self) -> (items: Vec<T>)
        ensures
            items@ == self@,
    {
        self.0
    }

    /// The greatest element, if there is any.
    pub fn max(&self) -> (greatest: Option<&T>)
        ensures
            self@.len() == 0 ==> greatest is None,
            self@.len() > 0 ==> greatest == Some(&self@[self@.len() - 1]),
            self.well_formed() ==> (greatest matches Some(g) ==> forall|i: int|
                0 <= i < self@.len() ==> at_most(#[trigger] self@[i], *g)),
    {
        if self.0.len() == 0 {
            None
        } else {
            Some(&self.0[self.0.len() - 1])
        }
    }

    /// The least element, if there is any.
    pub fn min(&self) -> (least: Option<&T>)
        ensures
            self@.len() == 0 ==> least is None,
            self@.len() > 0 ==> least == Some(&self@[0]),
            self.well_formed() ==> (least matches Some(l) ==> forall|i: int|
                0 <= i < self@.len() ==> at_most(*l, #[trigger] self@[i])),
    {
        if self.0.len() == 0 {
            None
        } else {
            Some(&self.0[0])
        }
    }

    /// Puts the value where it keeps the order and returns its place. Among
    /// equal elements the value comes first.
    pub fn insort(&mut self, value: T) -> (place: usize)
        requires
            totally_ordered::<T>(),
            old(self).well_formed(),
        ensures
            place <= old(self)@.len(),
            final(self)@ == old(self)@.insert(place as int, value),
            final(self).well_formed(),
            forall|i: int| 0 <= i < place ==> below(#[trigger] old(self)@[i], value),
            forall|i: int| place <= i < old(self)@.len() ==> at_most(value, #[trigger] old(self)@[i]),
    {
        let mut low: usize = 0;
        let mut high: usize = self.0.len();
        while low < high
            invariant
                low <= high <= self.0@.len(),
                self.0@ == old(self)@,
                totally_ordered::<T>(),
                old(self).well_formed(),
                forall|i: int| 0 <= i < low ==> below(#[trigger] old(self)@[i], value),
                forall|i: int| high <= i < old(self)@.len() ==> at_most(value, #[trigger] old(self)@[i]),
            decreases high - low,
        {
            let middle = low + (high - low) / 2;
            if self.0[middle] < value {
                proof {
                    let pivot = old(self)@[middle as int];
                    assert forall|i: int| 0 <= i < middle + 1 implies below(
                        #[trigger] old(self)@[i],
                        value,
                    ) by {
                        lemma_below_extends(old(self)@[i], pivot, value);
                    }
                }
                low = middle + 1;
            } else {
                proof {
                    let pivot = old(self)@[middle as int];
                    assert(below(pivot, value) <==> !at_most(value, pivot));
                    assert forall|i: int| middle <= i < old(self)@.len() implies at_most(
                        value,
                        #[trigger] old(self)@[i],
                    ) by {
                        assert(at_most(pivot, old(self)@[i]));
                    }
                }
                high = middle;
            }
        }
        self.0.insert(low, value);
        proof {
            let after = self.0@;
            let before = old(self)@;
            assert forall|i: int, j: int| 0 <= i <= j < after.len() implies at_most(
                #[trigger] after[i],
                #[trigger] after[j],
            ) by {
                assert(below(value, value) <==> !at_most(value, value));
                assert(below(value, value) ==> at_most(value, value));
                if i < low && j < low {
                    assert(at_most(before[i], before[j]));
                } else if i < low && j == low {
                    assert(below(before[i], value));
                } else if i < low && j > low {
                    assert(at_most(before[i], before[j - 1]));
                } else if i == low && j == low {
                } else if i == low && j > low {
                    assert(at_most(value, before[j - 1]));
                } else {
                    assert(at_most(before[i - 1], before[j - 1]));
                }
            }
        }
        low
    }
}

/// What is at most something below a value is below the value.
pub proof fn lemma_below_extends<T: PartialOrd>(a: T, b: T, c: T)
    requires
        totally_ordered::<T>(),
        at_most(a, b),
        below(b, c),
    ensures
        below(a, c),
{
    if at_most(c, a) {
        assert(at_most(c, a) && at_most(a, b) ==> at_most(c, b));
        assert(below(b, c) <==> !at_most(c, b));
    } else {
        assert(below(a, c) <==> !at_most(c, a));
    }
}

/// The machine integers of 32 bits are totally ordered.
pub proof fn lemma_i32_totally_ordered()
    ensures
        totally_ordered::<i32>(),
{
}

/// The machine integers of 64 bits are totally ordered.
pub proof fn lemma_i64_totally_ordered()
    ensures
        totally_ordered::<i64>(),
{
}

} // verus!
