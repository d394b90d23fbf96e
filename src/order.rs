//! The ordering predicate of a heap, fixed at construction, and the laws of
//! order the heap relies on.
use vstd::prelude::*;
use vstd::laws_cmp::{obeys_cmp, obeys_cmp_ord, obeys_cmp_partial_ord, obeys_partial_cmp_spec_properties};
use vstd::laws_eq::obeys_eq_spec_properties;
use vstd::std_specs::cmp::{OrdSpec, PartialEqSpec, PartialOrdSpec};
use core::cmp::Ordering;

verus! {

/// A predicate deciding whether one element should sit above another in a
/// heap. Any closure `Fn(&T, &T) -> bool` is one; `Comparator` gives the two
/// natural orders of an `Ord` type.
pub trait HeapOrder<T> {
    /// `a` should sit above `b`.
    spec fn before(&self, a: T, b: T) -> bool;

    /// `prefers` may be called on every pair of elements and answers
    /// `before`.
    spec fn callable(&self) -> bool;

    /// Decides whether `a` should sit above `b`.
    fn prefers(&self, a: &T, b: &T) -> (r: bool)
        requires
            self.callable(),
        ensures
            r == self.before(*a, *b),
    ;
}

/// A closure is a heap order: `a` sits above `b` when the closure returns
/// `true` on them. It is callable when it accepts every pair and gives one
/// answer for each.
impl<T, F: Fn(&T, &T) -> bool> HeapOrder<T> for F {
    open spec fn before(&self, a: T, b: T) -> bool {
        call_ensures(*self, (&a, &b), true)
    }

    open spec fn callable(&self) -> bool {
        &&& forall|a: &T, b: &T| call_requires(*self, (a, b))
        &&& forall|a: &T, b: &T, r1: bool, r2: bool|
            call_ensures(*self, (a, b), r1) && call_ensures(*self, (a, b), r2) ==> r1 == r2
    }

    fn prefers(&self, a: &T, b: &T) -> (r: bool) {
        (self)(a, b)
    }
}

/// A predicate together with the relation it decides, for callers that
/// prove things of their heaps: `rel` states in specifications what `pred`
/// computes.
#[verifier::reject_recursive_types(T)]
pub struct Decided<T, F> {
    pub pred: F,
    pub rel: Ghost<spec_fn(T, T) -> bool>,
}

impl<T, F: Fn(&T, &T) -> bool> HeapOrder<T> for Decided<T, F> {
    open spec fn before(&self, a: T, b: T) -> bool {
        (self.rel@)(a, b)
    }

    open spec fn callable(&self) -> bool {
        &&& forall|a: &T, b: &T| call_requires(self.pred, (a, b))
        &&& forall|a: &T, b: &T, r: bool|
            call_ensures(self.pred, (a, b), r) ==> r == (self.rel@)(*a, *b)
    }

    fn prefers(&self, a: &T, b: &T) -> (r: bool) {
        (self.pred)(a, b)
    }
}

/// Which end of an `Ord` type's order sits at the root of a heap.
#[derive(Clone, Copy, PartialEq, Eq, Structural, Debug)]
pub enum Comparator {
    /// `a` sits above `b` when `a < b`: the smallest element is at the root.
    Less,
    /// `a` sits above `b` when `a > b`: the largest element is at the root.
    Greater,
}

impl<T: Ord> HeapOrder<T> for Comparator {
    open spec fn before(&self, a: T, b: T) -> bool {
        match self {
            Comparator::Less => a.partial_cmp_spec(&b) == Some(Ordering::Less),
            Comparator::Greater => a.partial_cmp_spec(&b) == Some(Ordering::Greater),
        }
    }

    open spec fn callable(&self) -> bool {
        obeys_cmp::<T>()
    }

    fn prefers(&self, a: &T, b: &T) -> (r: bool) {
        proof {
            reveal(obeys_cmp_partial_ord);
        }
        match self {
            Comparator::Less => a.lt(b),
            Comparator::Greater => a.gt(b),
        }
    }
}

/// `a` should sit above `b` in a heap ordered by `c`.
pub open spec fn ranks_before<T, C: HeapOrder<T>>(c: C, a: T, b: T) -> bool {
    c.before(a, b)
}

/// `c` can be called and is a strict weak order: asymmetric, transitive,
/// and with "does not sit above" transitive as well.
pub open spec fn lawful<T, C: HeapOrder<T>>(c: C) -> bool {
    &&& c.callable()
    &&& forall|a: T, b: T| #[trigger] c.before(a, b) ==> !c.before(b, a)
    &&& forall|a: T, b: T, d: T|
        #[trigger] c.before(a, b) && #[trigger] c.before(b, d) ==> c.before(a, d)
    &&& forall|a: T, b: T, d: T|
        #![trigger c.before(a, b), c.before(b, d)]
        !c.before(a, b) && !c.before(b, d) ==> !c.before(a, d)
}

/// Under a lawful total order every pair compares as less, equal or greater,
/// and less and greater are mirror images.
proof fn lemma_cmp_facts<T: Ord>(a: T, b: T)
    requires
        obeys_cmp::<T>(),
    ensures
        a.partial_cmp_spec(&b) == Some(a.cmp_spec(&b)),
        b.partial_cmp_spec(&a) == Some(b.cmp_spec(&a)),
        a.partial_cmp_spec(&b) == Some(Ordering::Less) <==> b.partial_cmp_spec(&a) == Some(
            Ordering::Greater,
        ),
        b.partial_cmp_spec(&a) == Some(Ordering::Less) <==> a.partial_cmp_spec(&b) == Some(
            Ordering::Greater,
        ),
        a.partial_cmp_spec(&b) == Some(Ordering::Equal) <==> a.eq_spec(&b),
        a.eq_spec(&b) <==> b.eq_spec(&a),
{
    reveal(obeys_cmp_ord);
    reveal(obeys_partial_cmp_spec_properties);
    reveal(obeys_eq_spec_properties);
}

proof fn lemma_cmp_transitive<T: Ord>(c: Comparator, a: T, b: T, d: T)
    requires
        obeys_cmp::<T>(),
        c.before(a, b),
        c.before(b, d),
    ensures
        c.before(a, d),
{
    reveal(obeys_partial_cmp_spec_properties);
}

proof fn lemma_cmp_not_transitive<T: Ord>(c: Comparator, a: T, b: T, d: T)
    requires
        obeys_cmp::<T>(),
        !c.before(a, b),
        !c.before(b, d),
    ensures
        !c.before(a, d),
{
    lemma_cmp_facts(a, b);
    lemma_cmp_facts(b, d);
    lemma_cmp_facts(a, d);
    if c.before(a, d) {
        if c.before(d, b) {
            lemma_cmp_transitive(c, a, d, b);
        } else if c.before(b, a) {
            lemma_cmp_transitive(c, b, a, d);
        } else {
            reveal(obeys_eq_spec_properties);
            assert(a.eq_spec(&b) && b.eq_spec(&d));
            assert(a.eq_spec(&d));
        }
    }
}

/// Both natural orders of a lawful `Ord` type are lawful heap orders.
pub proof fn lemma_comparator_lawful<T: Ord>(c: Comparator)
    requires
        obeys_cmp::<T>(),
    ensures
        lawful::<T, Comparator>(c),
{
    assert forall|a: T, b: T| #[trigger] c.before(a, b) implies !c.before(b, a) by {
        lemma_cmp_facts(a, b);
    }
    assert forall|a: T, b: T, d: T| #[trigger] c.before(a, b) && #[trigger] c.before(b, d) implies c.before(
        a,
        d,
    ) by {
        lemma_cmp_transitive(c, a, b, d);
    }
    assert forall|a: T, b: T, d: T|
        #![trigger c.before(a, b), c.before(b, d)]
        !c.before(a, b) && !c.before(b, d) implies !c.before(a, d) by {
        lemma_cmp_not_transitive(c, a, b, d);
    }
}

/// Two elements never both sit above each other.
pub proof fn lemma_asymmetric<T, C: HeapOrder<T>>(c: C, a: T, b: T)
    requires
        lawful(c),
        ranks_before(c, a, b),
    ensures
        !ranks_before(c, b, a),
{
}

/// No element sits above itself.
pub proof fn lemma_irreflexive<T, C: HeapOrder<T>>(c: C, a: T)
    requires
        lawful(c),
    ensures
        !ranks_before(c, a, a),
{
    if c.before(a, a) {
        lemma_asymmetric(c, a, a);
    }
}

/// Not sitting above is transitive.
pub proof fn lemma_not_transitive<T, C: HeapOrder<T>>(c: C, a: T, b: T, d: T)
    requires
        lawful(c),
        !ranks_before(c, a, b),
        !ranks_before(c, b, d),
    ensures
        !ranks_before(c, a, d),
{
}

/// An element that does not sit above `b`, where `d` does, does not sit above `d`.
pub proof fn lemma_not_before_mixed<T, C: HeapOrder<T>>(c: C, a: T, b: T, d: T)
    requires
        lawful(c),
        !ranks_before(c, a, b),
        ranks_before(c, d, b),
    ensures
        !ranks_before(c, a, d),
{
    if c.before(a, d) {
        assert(c.before(a, b));
    }
}

} // verus!
