//! A complete binary tree stored level by level in a vector, kept in heap
//! order by sift-up on insertion and sift-down on extraction of the root.
use vstd::prelude::*;
use vstd::laws_cmp::obeys_cmp;
use vstd::multiset::{Multiset, group_multiset_axioms};
use vstd::seq_lib::group_to_multiset_ensures;
use crate::order::{
    Comparator, HeapOrder, lawful, ranks_before, lemma_comparator_lawful, lemma_asymmetric, lemma_irreflexive, lemma_not_transitive, lemma_not_before_mixed,
};

verus! {

/// The element at one-based position `i` of a level-order sequence.
pub open spec fn node<T>(s: Seq<T>, i: int) -> T {
    s[i - 1]
}

/// No element of the level-order sequence `s` sits above its parent under `c`:
/// for every position `i` from 2 on, the node at `i` does not rank before the
/// node at `i / 2`.
pub open spec fn heap_ordered<T, C: HeapOrder<T>>(c: C, s: Seq<T>) -> bool {
    forall|i: int| 2 <= i <= s.len() ==> !ranks_before(c, #[trigger] node(s, i), node(s, i / 2))
}

/// `v` is one of the elements of `m` and no element of `m` ranks before it.
pub open spec fn is_top<T, C: HeapOrder<T>>(c: C, m: Multiset<T>, v: T) -> bool {
    &&& m.contains(v)
    &&& forall|x: T| m.contains(x) ==> !ranks_before(c, x, v)
}

/// A binary heap ordered by the predicate `comparator`, fixed at
/// construction: `items[1..=count]` hold the elements in level order,
/// `items[0]` is a placeholder.
pub struct Heap<T, C = Comparator> where T: Default, C: HeapOrder<T> {
    count: usize,
    items: Vec<T>,
    comparator: C,
}

impl<T: Default, C: HeapOrder<T>> View for Heap<T, C> {
    type V = Seq<T>;

    /// The elements in level order: the root first.
    closed spec fn view(&self) -> Seq<T> {
        self.items@.drop_first()
    }
}

/// Swapping two entries of a sequence past its first leaves the multiset of
/// those entries unchanged.
proof fn lemma_swap_keeps_multiset<T>(s: Seq<T>, i: int, j: int)
    requires
        1 <= i < s.len(),
        1 <= j < s.len(),
    ensures
        s.update(i, s[j]).update(j, s[i]).drop_first().to_multiset() =~= s.drop_first().to_multiset(),
{
    broadcast use group_to_multiset_ensures;

    let t = s.drop_first();
    let t1 = t.update(i - 1, t[j - 1]);
    assert(s.update(i, s[j]).update(j, s[i]).drop_first() =~= t1.update(j - 1, t[i - 1]));
    assert(t.contains(t[i - 1]));
    assert(t.contains(t[j - 1]));
    assert(t1.to_multiset() == t.to_multiset().insert(t[j - 1]).remove(t[i - 1]));
}

/// Position `j` lies in the subtree rooted at position `r` (one-based):
/// following parents from `j` reaches `r`.
pub open spec fn in_subtree(r: int, j: int) -> bool
    decreases j,
{
    if r < 1 || j < r {
        false
    } else if j == r {
        true
    } else {
        in_subtree(r, j / 2)
    }
}

/// A subtree that holds `x` and is not rooted at the top lies inside the
/// subtree of its root's parent.
proof fn lemma_subtree_parent(k: int, x: int)
    requires
        2 <= k,
        in_subtree(k, x),
    ensures
        in_subtree(k / 2, x),
    decreases x,
{
    if x == k {
        assert(in_subtree(k / 2, k / 2));
    } else {
        lemma_subtree_parent(k, x / 2);
    }
}

/// In a sequence where every node from 2 to `n` does not rank before its
/// parent, no node from 1 to `n` ranks before node 1.
proof fn lemma_root_first<T, C: HeapOrder<T>>(c: C, s: Seq<T>, n: int, i: int)
    requires
        lawful(c),
        n < s.len(),
        1 <= i <= n,
        forall|j: int| 2 <= j <= n ==> !ranks_before(c, #[trigger] s[j], s[j / 2]),
    ensures
        !ranks_before(c, s[i], s[1]),
    decreases i,
{
    if i > 1 {
        lemma_root_first(c, s, n, i / 2);
        lemma_not_transitive(c, s[i], s[i / 2], s[1]);
    } else if ranks_before(c, s[1], s[1]) {
        lemma_asymmetric(c, s[1], s[1]);
    }
}

impl<T, C> Heap<T, C> where T: Default, C: HeapOrder<T> {
    /// The heap's structure holds: placeholder plus `count` elements, a
    /// lawful ordering predicate, and no node ranking before its parent.
    pub closed spec fn well_formed(&self) -> bool {
        &&& lawful(self.comparator)
        &&& self.items@.len() == self.count + 1
        &&& forall|i: int|
            2 <= i <= self.count ==> !ranks_before(
                self.comparator,
                #[trigger] self.items@[i],
                self.items@[i / 2],
            )
    }

    /// The ordering the heap was built with.
    pub closed spec fn order(&self) -> C {
        self.comparator
    }

    /// A well-formed heap is heap ordered over its view.
    pub proof fn lemma_heap_ordered(&self)
        requires
            self.well_formed(),
        ensures
            heap_ordered(self.order(), self@),
    {
        assert forall|i: int| 2 <= i <= self@.len() implies !ranks_before(
            self.order(),
            #[trigger] node(self@, i),
            node(self@, i / 2),
        ) by {
            assert(node(self@, i) == self.items@[i]);
            assert(node(self@, i / 2) == self.items@[i / 2]);
        }
    }

    /// A well-formed heap's ordering is lawful.
    pub proof fn lemma_well_formed_lawful(&self)
        requires
            self.well_formed(),
        ensures
            lawful(self.order()),
    {
    }

    /// Creates an empty heap ordered by `comparator`.
    pub fn new(comparator: C) -> (r: Self)
        requires
            lawful(comparator),
        ensures
            r.well_formed(),
            r@ == Seq::<T>::empty(),
            r.order() == comparator,
            heap_ordered(r.order(), r@),
    {
        let mut items: Vec<T> = Vec::new();
        items.push(T::default());
        let r = Self { count: 0, items, comparator };
        assert(r@ =~= Seq::<T>::empty());
        r
    }

    /// The number of elements in the heap.
    pub fn len(&self) -> (r: usize)
        requires
            self.well_formed(),
        ensures
            r == self@.len(),
    {
        self.count
    }

    /// Whether the heap holds no element.
    pub fn is_empty(&self) -> (r: bool)
        requires
            self.well_formed(),
        ensures
            r == (self@.len() == 0),
    {
        self.len() == 0
    }

    fn parent_idx(&self, idx: usize) -> (r: usize)
        ensures
            r == idx / 2,
    {
        idx / 2
    }

    fn children_present(&self, idx: usize) -> (r: bool)
        ensures
            r == (2 * idx <= self.count),
    {
        idx <= self.count / 2
    }

    fn left_child_idx(&self, idx: usize) -> (r: usize)
        requires
            2 * idx <= usize::MAX,
        ensures
            r == 2 * idx,
    {
        idx * 2
    }

    fn right_child_idx(&self, idx: usize) -> (r: usize)
        requires
            2 * idx + 1 <= usize::MAX,
        ensures
            r == 2 * idx + 1,
    {
        self.left_child_idx(idx) + 1
    }

    /// The child of `idx` that should sit highest: the left one when it is
    /// the only one or ranks before the right one, else the right one;
    /// `idx` itself when it has no child.
    fn smallest_child_idx(&self, idx: usize) -> (r: usize)
        requires
            self.items@.len() == self.count + 1,
            lawful(self.comparator),
            1 <= idx,
        ensures
            2 * idx > self.count ==> r == idx,
            2 * idx <= self.count ==> {
                &&& r / 2 == idx
                &&& 2 <= r <= self.count
                &&& forall|i: int|
                    2 <= i <= self.count && i / 2 == idx ==> !ranks_before(
                        self.comparator,
                        #[trigger] self.items@[i],
                        self.items@[r as int],
                    )
            },
            r == if 2 * idx > self.count {
                idx as int
            } else if 2 * idx + 1 > self.count || ranks_before(
                self.comparator,
                self.items@[2 * idx],
                self.items@[2 * idx + 1],
            ) {
                2 * idx
            } else {
                2 * idx + 1
            },
    {
        if !self.children_present(idx) {
            return idx;
        }
        let left = self.left_child_idx(idx);
        let right = self.right_child_idx(idx);
        proof {
            lemma_irreflexive(self.comparator, self.items@[left as int]);
        }
        if right > self.count {
            return left;
        }
        proof {
            lemma_irreflexive(self.comparator, self.items@[right as int]);
        }
        if self.comparator.prefers(&self.items[left], &self.items[right]) {
            proof {
                lemma_asymmetric(self.comparator, self.items@[left as int], self.items@[right as int]);
            }
            left
        } else {
            right
        }
    }

    /// Whether node `idx` may be sifted up: every node but `idx` respects its
    /// parent, and the children of `idx` respect the parent of `idx`.
    spec fn ready_for_sift_up(&self, idx: int) -> bool {
        &&& forall|i: int|
            2 <= i <= self.count && i != idx ==> !ranks_before(
                self.comparator,
                #[trigger] self.items@[i],
                self.items@[i / 2],
            )
        &&& idx > 1 ==> forall|i: int|
            2 <= i <= self.count && i / 2 == idx ==> !ranks_before(
                self.comparator,
                #[trigger] self.items@[i],
                self.items@[idx / 2],
            )
    }

    /// Whether node `idx` may be sifted down: every node whose parent is not
    /// `idx` respects its parent, and the children of `idx` respect the
    /// parent of `idx`.
    spec fn ready_for_sift_down(&self, idx: int) -> bool {
        &&& forall|i: int|
            2 <= i <= self.count && i / 2 != idx ==> !ranks_before(
                self.comparator,
                #[trigger] self.items@[i],
                self.items@[i / 2],
            )
        &&& idx > 1 ==> forall|i: int|
            2 <= i <= self.count && i / 2 == idx ==> !ranks_before(
                self.comparator,
                #[trigger] self.items@[i],
                self.items@[idx / 2],
            )
    }

    /// Moves the element at `idx` up while it ranks before its parent. Only
    /// the entries on the path from `idx` to the root can change; the heap
    /// ends well formed when it was ready for a sift-up at `idx`.
    fn heapify_up(&mut self, idx: usize)
        requires
            old(self).items@.len() == old(self).count + 1,
            lawful(old(self).comparator),
            1 <= idx <= old(self).count,
        ensures
            final(self).count == old(self).count,
            final(self).comparator == old(self).comparator,
            final(self).items@.len() == old(self).items@.len(),
            final(self)@.to_multiset() == old(self)@.to_multiset(),
            forall|j: int|
                0 <= j < old(self).items@.len() && !in_subtree(j, idx as int)
                    ==> #[trigger] final(self).items@[j] == old(self).items@[j],
            old(self).ready_for_sift_up(idx as int) ==> final(self).well_formed(),
    {
        let ghost c = self.comparator;
        let ghost n = self.count as int;
        let ghost start = idx as int;
        let ghost ready = self.ready_for_sift_up(idx as int);
        let mut idx: usize = idx;
        while idx > 1
            invariant
                self.items@.len() == n + 1,
                self.count == n,
                self.comparator == c,
                lawful(c),
                1 <= idx <= n,
                in_subtree(idx as int, start),
                forall|j: int|
                    0 <= j <= n && !in_subtree(j, start) ==> #[trigger] self.items@[j] == old(
                        self,
                    ).items@[j],
                ready ==> self.ready_for_sift_up(idx as int),
                self@.to_multiset() == old(self)@.to_multiset(),
            ensures
                self.items@.len() == n + 1,
                self.count == n,
                self.comparator == c,
                forall|j: int|
                    0 <= j <= n && !in_subtree(j, start) ==> #[trigger] self.items@[j] == old(
                        self,
                    ).items@[j],
                ready ==> forall|i: int|
                    2 <= i <= n ==> !ranks_before(c, #[trigger] self.items@[i], self.items@[i / 2]),
                self@.to_multiset() == old(self)@.to_multiset(),
            decreases idx,
        {
            let parent = self.parent_idx(idx);
            if !self.comparator.prefers(&self.items[idx], &self.items[parent]) {
                break;
            }
            let ghost s = self.items@;
            self.swap_items(idx, parent);
            proof {
                let t = self.items@;
                let k = idx as int;
                let p = parent as int;
                lemma_swap_keeps_multiset(s, k, p);
                lemma_subtree_parent(k, start);
                if ready {
                    lemma_asymmetric(c, s[k], s[p]);
                    assert forall|i: int| 2 <= i <= n && i != p implies !ranks_before(
                        c,
                        #[trigger] t[i],
                        t[i / 2],
                    ) by {
                        if i != k && i / 2 == p {
                            lemma_not_before_mixed(c, s[i], s[p], s[k]);
                        }
                    }
                    if p > 1 {
                        assert forall|i: int| 2 <= i <= n && i / 2 == p implies !ranks_before(
                            c,
                            #[trigger] t[i],
                            t[p / 2],
                        ) by {
                            if i != k {
                                lemma_not_transitive(c, s[i], s[p], s[p / 2]);
                            }
                        }
                    }
                }
            }
            idx = parent;
        }
    }

    /// Moves the element at `idx` down while its preferred child ranks
    /// before it; does nothing when `idx` has no child. Only the entries in
    /// the subtree of `idx` can change; the heap ends well formed when it was
    /// ready for a sift-down at `idx`.
    fn heapify_down(&mut self, idx: usize)
        requires
            old(self).items@.len() == old(self).count + 1,
            lawful(old(self).comparator),
            1 <= idx,
        ensures
            final(self).count == old(self).count,
            final(self).comparator == old(self).comparator,
            final(self).items@.len() == old(self).items@.len(),
            final(self)@.to_multiset() == old(self)@.to_multiset(),
            forall|j: int|
                0 <= j < old(self).items@.len() && !in_subtree(idx as int, j)
                    ==> #[trigger] final(self).items@[j] == old(self).items@[j],
            old(self).ready_for_sift_down(idx as int) ==> final(self).well_formed(),
    {
        let ghost c = self.comparator;
        let ghost n = self.count as int;
        let ghost start = idx as int;
        let ghost ready = self.ready_for_sift_down(idx as int);
        let mut idx: usize = idx;
        proof {
            assert(in_subtree(start, start));
        }
        while self.children_present(idx)
            invariant
                self.items@.len() == n + 1,
                self.count == n,
                self.comparator == c,
                lawful(c),
                1 <= start <= idx,
                in_subtree(start, idx as int),
                forall|j: int|
                    0 <= j <= n && !in_subtree(start, j) ==> #[trigger] self.items@[j] == old(
                        self,
                    ).items@[j],
                ready ==> self.ready_for_sift_down(idx as int),
                self@.to_multiset() == old(self)@.to_multiset(),
            ensures
                self.items@.len() == n + 1,
                self.count == n,
                self.comparator == c,
                forall|j: int|
                    0 <= j <= n && !in_subtree(start, j) ==> #[trigger] self.items@[j] == old(
                        self,
                    ).items@[j],
                ready ==> forall|i: int|
                    2 <= i <= n ==> !ranks_before(c, #[trigger] self.items@[i], self.items@[i / 2]),
                self@.to_multiset() == old(self)@.to_multiset(),
            decreases n - idx,
        {
            let target_child = self.smallest_child_idx(idx);
            let ghost s = self.items@;
            let ghost k = idx as int;
            let ghost b = target_child as int;
            if !self.comparator.prefers(&self.items[target_child], &self.items[idx]) {
                proof {
                    if ready {
                        assert forall|i: int| 2 <= i <= n && i / 2 == k implies !ranks_before(
                            c,
                            #[trigger] s[i],
                            s[k],
                        ) by {
                            lemma_not_transitive(c, s[i], s[b], s[k]);
                        }
                    }
                }
                break;
            }
            self.swap_items(idx, target_child);
            proof {
                let t = self.items@;
                lemma_swap_keeps_multiset(s, k, b);
                assert(in_subtree(start, b));
                if ready {
                    lemma_asymmetric(c, s[b], s[k]);
                    assert forall|i: int| 2 <= i <= n && i / 2 != b implies !ranks_before(
                        c,
                        #[trigger] t[i],
                        t[i / 2],
                    ) by {
                        if i == k {
                            assert(!ranks_before(c, s[b], s[k / 2]));
                        }
                    }
                }
            }
            idx = target_child;
        }
    }

    /// Adds `value` to the heap, keeping it heap ordered.
    pub fn add(&mut self, value: T)
        requires
            old(self).well_formed(),
            old(self)@.len() + 2 <= usize::MAX,
        ensures
            final(self).well_formed(),
            final(self).order() == old(self).order(),
            final(self)@.len() == old(self)@.len() + 1,
            final(self)@.to_multiset() == old(self)@.to_multiset().insert(value),
            heap_ordered(final(self).order(), final(self)@),
    {
        proof {
            broadcast use group_to_multiset_ensures;

            assert(self.items@.push(value).drop_first() =~= self@.push(value));
        }
        self.items.push(value);
        self.count += 1;
        proof {
            lemma_irreflexive(self.comparator, value);
        }
        self.heapify_up(self.count);
        proof {
            self.lemma_heap_ordered();
        }
    }

    /// Removes and returns the root, the element that ranks first; `None`
    /// when the heap is empty, which then stays as it is.
    pub fn next(&mut self) -> (r: Option<T>)
        requires
            old(self).well_formed(),
        ensures
            final(self).well_formed(),
            final(self).order() == old(self).order(),
            heap_ordered(final(self).order(), final(self)@),
            old(self)@.len() == 0 ==> r is None && final(self)@ == old(self)@,
            old(self)@.len() > 0 ==> {
                &&& r == Some(old(self)@[0])
                &&& is_top(old(self).order(), old(self)@.to_multiset(), old(self)@[0])
                &&& final(self)@.len() == old(self)@.len() - 1
                &&& final(self)@.to_multiset() == old(self)@.to_multiset().remove(old(self)@[0])
            },
    {
        if self.is_empty() {
            proof {
                self.lemma_heap_ordered();
            }
            return None;
        }
        proof {
            self.lemma_top_at_root();
        }
        let ghost s = self.items@;
        let ghost v = self@;
        let mut root = T::default();
        self.items.set_and_swap(1, &mut root);
        if self.count == 1 {
            self.count = 0;
            self.items.pop();
            proof {
                broadcast use group_to_multiset_ensures;

                assert(self@ =~= v.remove(0));
                self.lemma_heap_ordered();
            }
            return Some(root);
        }
        let last = self.items.pop().unwrap();
        self.items.set(1, last);
        self.count -= 1;
        proof {
            broadcast use group_to_multiset_ensures;

            let w = v.update(0, v[v.len() - 1]);
            assert(self@ =~= w.remove(v.len() - 1));
            assert(w.to_multiset() == v.to_multiset().insert(v[v.len() - 1]).remove(v[0]));
            assert(v.contains(v[v.len() - 1]));
            assert(v.contains(v[0]));
            assert(self@.to_multiset() =~= v.to_multiset().remove(v[0]));
        }
        self.heapify_down(1);
        proof {
            self.lemma_heap_ordered();
        }
        Some(root)
    }

    /// Extracts the root until the heap is empty and returns the elements in
    /// the order they came out.
    pub fn drain(&mut self) -> (r: Vec<T>)
        requires
            old(self).well_formed(),
        ensures
            final(self).well_formed(),
            final(self).order() == old(self).order(),
            final(self)@.len() == 0,
            is_drain_of(old(self).order(), old(self)@.to_multiset(), r@),
            r@.to_multiset() == old(self)@.to_multiset(),
            forall|i: int, j: int|
                0 <= i < j < r@.len() ==> !ranks_before(
                    old(self).order(),
                    #[trigger] r@[j],
                    #[trigger] r@[i],
                ),
    {
        broadcast use group_to_multiset_ensures;

        let ghost c = self.comparator;
        let ghost m = self@.to_multiset();
        let mut out: Vec<T> = Vec::new();
        while !self.is_empty()
            invariant
                self.well_formed(),
                self.comparator == c,
                drains_to(c, m, out@, self@.to_multiset()),
            ensures
                self.well_formed(),
                self.comparator == c,
                self@.len() == 0,
                drains_to(c, m, out@, self@.to_multiset()),
            decreases self@.len(),
        {
            let ghost before = self@.to_multiset();
            match self.next() {
                Some(v) => {
                    proof {
                        lemma_drains_to_push(c, m, out@, before, v);
                    }
                    out.push(v);
                },
                None => {},
            }
        }
        proof {
            lemma_drains_to_complete(c, m, out@, self@.to_multiset());
            lemma_sorted_drain(c, m, out@);
        }
        out
    }

    /// In a well-formed non-empty heap the root ranks first among its elements.
    proof fn lemma_top_at_root(&self)
        requires
            self.well_formed(),
            self@.len() > 0,
        ensures
            is_top(self.order(), self@.to_multiset(), self@[0]),
    {
        broadcast use group_to_multiset_ensures;

        let v = self@;
        assert(v.contains(v[0]));
        assert forall|x: T| v.to_multiset().contains(x) implies !ranks_before(
            self.comparator,
            x,
            v[0],
        ) by {
            assert(v.contains(x));
            let j = choose|j: int| 0 <= j < v.len() && v[j] == x;
            lemma_root_first(self.comparator, self.items@, self.count as int, j + 1);
        }
    }

    /// Exchanges the entries at `i` and `j`.
    fn swap_items(&mut self, i: usize, j: usize)
        requires
            1 <= i < old(self).items@.len(),
            1 <= j < old(self).items@.len(),
            i != j,
        ensures
            final(self).items@ == old(self).items@.update(i as int, old(self).items@[j as int]).update(
                j as int,
                old(self).items@[i as int],
            ),
            final(self).count == old(self).count,
            final(self).comparator == old(self).comparator,
    {
        let ghost s = self.items@;
        let mut tmp = T::default();
        self.items.set_and_swap(i, &mut tmp);
        assert(tmp == s[i as int]);
        self.items.set_and_swap(j, &mut tmp);
        assert(tmp == s[j as int]);
        self.items.set_and_swap(i, &mut tmp);
        assert(self.items@ =~= s.update(i as int, s[j as int]).update(j as int, s[i as int]));
    }
}

impl<T> Heap<T, Comparator> where T: Default + Ord {
    /// Creates an empty heap that yields its smallest element first.
    pub fn new_min() -> (r: Self)
        requires
            obeys_cmp::<T>(),
        ensures
            r.well_formed(),
            r@ == Seq::<T>::empty(),
            r.order() == Comparator::Less,
    {
        proof {
            lemma_comparator_lawful::<T>(Comparator::Less);
        }
        Self::new(Comparator::Less)
    }

    /// Creates an empty heap that yields its largest element first.
    pub fn new_max() -> (r: Self)
        requires
            obeys_cmp::<T>(),
        ensures
            r.well_formed(),
            r@ == Seq::<T>::empty(),
            r.order() == Comparator::Greater,
    {
        proof {
            lemma_comparator_lawful::<T>(Comparator::Greater);
        }
        Self::new(Comparator::Greater)
    }
}

/// Builds min-heaps: heaps that yield their smallest element first.
pub struct MinHeap;

impl MinHeap {
    /// Creates an empty heap ordered by `<`.
    pub fn new<T: Default + Ord>() -> (r: Heap<T>)
        requires
            obeys_cmp::<T>(),
        ensures
            r.well_formed(),
            r@ == Seq::<T>::empty(),
            r.order() == Comparator::Less,
    {
        Heap::new_min()
    }
}

/// Builds max-heaps: heaps that yield their largest element first.
pub struct MaxHeap;

impl MaxHeap {
    /// Creates an empty heap ordered by `>`.
    pub fn new<T: Default + Ord>() -> (r: Heap<T>)
        requires
            obeys_cmp::<T>(),
        ensures
            r.well_formed(),
            r@ == Seq::<T>::empty(),
            r.order() == Comparator::Greater,
    {
        Heap::new_max()
    }
}

/// `out` is what repeated extraction of the root yields from a heap holding
/// `m` until it is empty: each element ranks first among those left, and is
/// then removed.
pub open spec fn is_drain_of<T, C: HeapOrder<T>>(c: C, m: Multiset<T>, out: Seq<T>) -> bool
    decreases out.len(),
{
    if out.len() == 0 {
        m.len() == 0
    } else {
        &&& is_top(c, m, out[0])
        &&& is_drain_of(c, m.remove(out[0]), out.drop_first())
    }
}

/// `out` is what repeated extraction of the root yields from a heap holding
/// `m` while `rest` is left in it.
spec fn drains_to<T, C: HeapOrder<T>>(c: C, m: Multiset<T>, out: Seq<T>, rest: Multiset<T>) -> bool
    decreases out.len(),
{
    if out.len() == 0 {
        m == rest
    } else {
        &&& is_top(c, m, out[0])
        &&& drains_to(c, m.remove(out[0]), out.drop_first(), rest)
    }
}

/// One more extraction of the top of what is left extends a partial drain.
proof fn lemma_drains_to_push<T, C: HeapOrder<T>>(
    c: C,
    m: Multiset<T>,
    out: Seq<T>,
    rest: Multiset<T>,
    v: T,
)
    requires
        drains_to(c, m, out, rest),
        is_top(c, rest, v),
    ensures
        drains_to(c, m, out.push(v), rest.remove(v)),
    decreases out.len(),
{
    if out.len() == 0 {
        assert(out.push(v).drop_first() =~= Seq::<T>::empty());
        assert(drains_to(c, m.remove(v), Seq::<T>::empty(), rest.remove(v)));
    } else {
        lemma_drains_to_push(c, m.remove(out[0]), out.drop_first(), rest, v);
        assert(out.push(v).drop_first() =~= out.drop_first().push(v));
        assert(out.push(v)[0] == out[0]);
    }
}

/// A partial drain that leaves nothing behind is a full drain.
proof fn lemma_drains_to_complete<T, C: HeapOrder<T>>(
    c: C,
    m: Multiset<T>,
    out: Seq<T>,
    rest: Multiset<T>,
)
    requires
        drains_to(c, m, out, rest),
        rest.len() == 0,
    ensures
        is_drain_of(c, m, out),
    decreases out.len(),
{
    if out.len() > 0 {
        lemma_drains_to_complete(c, m.remove(out[0]), out.drop_first(), rest);
    }
}

/// Draining a heap yields every element it held, exactly as often as it was
/// held, in sorted order: no element that comes out later ranks before one
/// that came out earlier (non-decreasing for a min-heap, non-increasing for a
/// max-heap).
pub proof fn lemma_sorted_drain<T, C: HeapOrder<T>>(c: C, m: Multiset<T>, out: Seq<T>)
    requires
        lawful(c),
        is_drain_of(c, m, out),
    ensures
        out.to_multiset() == m,
        forall|i: int, j: int|
            0 <= i < j < out.len() ==> !ranks_before(c, #[trigger] out[j], #[trigger] out[i]),
    decreases out.len(),
{
    broadcast use group_to_multiset_ensures, group_multiset_axioms;

    if out.len() == 0 {
        assert(out.to_multiset() =~= m);
    } else {
        let rest = out.drop_first();
        lemma_sorted_drain(c, m.remove(out[0]), rest);
        assert(out.remove(0) =~= rest);
        assert(out.contains(out[0]));
        assert(m.remove(out[0]).insert(out[0]) =~= m);
        assert(out.to_multiset().remove(out[0]).insert(out[0]) =~= out.to_multiset());
        assert forall|i: int, j: int| 0 <= i < j < out.len() implies !ranks_before(
            c,
            #[trigger] out[j],
            #[trigger] out[i],
        ) by {
            if i == 0 {
                assert(rest[j - 1] == out[j]);
                assert(rest.contains(out[j]));
                assert(rest.to_multiset().count(out[j]) > 0);
                assert(m.contains(out[j]));
            } else {
                assert(rest[j - 1] == out[j] && rest[i - 1] == out[i]);
            }
        }
    }
}

} // verus!
