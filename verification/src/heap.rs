use vstd::prelude::*;

use crate::order::KeyOrd;
use crate::perm::{lemma_multiset_elem_in_seq, lemma_swap_multiset, lemma_update_multiset};

verus! {

/// Position of the parent of the (non-root) node at `i` in the array
/// encoding of a complete binary tree.
pub open spec fn parent_idx(i: int) -> int {
    (i - 1) / 2
}

/// Min-heap order: every non-root node sits at or above its parent's key.
pub open spec fn min_heap_le<T: KeyOrd>(s: Seq<T>) -> bool {
    forall|i: int| 1 <= i < s.len() ==> (#[trigger] s[i]).key() >= s[parent_idx(i)].key()
}

/// Max-heap order: every non-root node sits at or below its parent's key.
pub open spec fn max_heap_le<T: KeyOrd>(s: Seq<T>) -> bool {
    forall|i: int| 1 <= i < s.len() ==> (#[trigger] s[i]).key() <= s[parent_idx(i)].key()
}

/// In a min-heap the root key is the least key.
pub proof fn lemma_min_root<T: KeyOrd>(s: Seq<T>, i: int)
    requires
        min_heap_le(s),
        0 <= i < s.len(),
    ensures
        s[0].key() <= s[i].key(),
    decreases i,
{
    if i > 0 {
        lemma_min_root(s, parent_idx(i));
    }
}

/// In a max-heap the root key is the greatest key.
pub proof fn lemma_max_root<T: KeyOrd>(s: Seq<T>, i: int)
    requires
        max_heap_le(s),
        0 <= i < s.len(),
    ensures
        s[0].key() >= s[i].key(),
    decreases i,
{
    if i > 0 {
        lemma_max_root(s, parent_idx(i));
    }
}

/// Min-heap order everywhere, except that the node at `j` may be smaller
/// than its parent; the parent of `j` still sits below `j`'s children.
/// This is what a sift-up starting at `j` needs and restores.
spec fn min_up_ok<T: KeyOrd>(s: Seq<T>, j: int) -> bool {
    &&& forall|i: int|
        1 <= i < s.len() && i != j ==> (#[trigger] s[i]).key() >= s[parent_idx(i)].key()
    &&& j > 0 ==> forall|i: int|
        1 <= i < s.len() && parent_idx(i) == j ==> (#[trigger] s[i]).key() >= s[parent_idx(
            j,
        )].key()
}

/// Min-heap order everywhere, except that the node at `j` may be greater
/// than its children; the parent of `j` still sits below `j`'s children.
/// This is what a sift-down starting at `j` needs and restores.
spec fn min_down_ok<T: KeyOrd>(s: Seq<T>, j: int) -> bool {
    &&& forall|i: int|
        1 <= i < s.len() && parent_idx(i) != j ==> (#[trigger] s[i]).key() >= s[parent_idx(
            i,
        )].key()
    &&& j > 0 ==> forall|i: int|
        1 <= i < s.len() && parent_idx(i) == j ==> (#[trigger] s[i]).key() >= s[parent_idx(
            j,
        )].key()
}

/// An array-backed binary min-heap: the least key is at the root and comes
/// out first.
pub struct MinHeap<T> {
    arr: Vec<T>,
}

impl<T> View for MinHeap<T> {
    type V = Seq<T>;

    closed spec fn view(&self) -> Seq<T> {
        self.arr@
    }
}

impl<T: KeyOrd + Copy> MinHeap<T> {
    /// The heap invariant.
    pub open spec fn wf(self) -> bool {
        min_heap_le(self@)
    }

    pub fn new() -> (r: MinHeap<T>)
        ensures
            r.wf(),
            r@ == Seq::<T>::empty(),
    {
        MinHeap { arr: Vec::<T>::new() }
    }

    pub fn len(&self) -> (r: usize)
        ensures
            r == self@.len(),
    {
        self.arr.len()
    }

    /// The elements in their array order (root first), for inspection.
    pub fn to_vec(&self) -> (r: Vec<T>)
        ensures
            r@ == self@,
    {
        let mut r: Vec<T> = Vec::<T>::new();
        let mut i: usize = 0;
        while i < self.arr.len()
            invariant
                i <= self.arr.len(),
                r@ =~= self@.take(i as int),
            decreases self.arr.len() - i,
        {
            r.push(self.arr[i]);
            i += 1;
        }
        assert(r@ =~= self@);
        r
    }

    /// Appends `value` and restores heap order by sifting it up.
    pub fn insert(&mut self, value: T)
        requires
            old(self).wf(),
        ensures
            final(self).wf(),
            final(self)@.len() == old(self)@.len() + 1,
            final(self)@.to_multiset() == old(self)@.to_multiset().insert(value),
    {
        proof {
            broadcast use vstd::seq_lib::group_to_multiset_ensures;

        }
        self.arr.push(value);
        proof {
            let s = self@;
            let j = s.len() - 1;
            assert forall|i: int| 1 <= i < s.len() && i != j implies (#[trigger] s[i]).key()
                >= s[parent_idx(i)].key() by {
                assert(s[i] == old(self)@[i] && s[parent_idx(i)] == old(self)@[parent_idx(i)]);
            }
            assert(min_up_ok(s, j));
        }
        let idx = self.arr.len() - 1;
        self.heapify_up(idx);
    }

    /// Removes and returns the least element; reports absence on an empty
    /// heap and leaves it unchanged.
    pub fn pop(&mut self) -> (r: Option<T>)
        requires
            old(self).wf(),
        ensures
            final(self).wf(),
            old(self)@.len() == 0 ==> r is None && final(self)@ == old(self)@,
            old(self)@.len() > 0 ==> {
                &&& r == Some(old(self)@[0])
                &&& final(self)@.len() == old(self)@.len() - 1
                &&& final(self)@.to_multiset() == old(self)@.to_multiset().remove(old(self)@[0])
                &&& forall|i: int|
                    0 <= i < final(self)@.len() ==> old(self)@[0].key() <= (
                    #[trigger] final(self)@[i]).key()
            },
    {
        proof {
            broadcast use vstd::seq_lib::group_to_multiset_ensures;

        }
        if self.arr.len() == 0 {
            return None;
        }
        let ghost s = self@;
        let r = self.arr[0];
        let last = self.arr.pop().unwrap();
        if self.arr.len() == 0 {
            proof {
                assert(s =~= Seq::<T>::empty().push(s[0]));
                assert(s.to_multiset().remove(s[0]) =~= self@.to_multiset());
            }
            return Some(last);
        }
        self.arr.set(0, last);
        proof {
            let t = s.drop_last();
            let u = self@;
            assert(u == t.update(0, s.last()));
            lemma_update_multiset(t, 0, s.last());
            assert(s =~= t.push(s.last()));
            assert(u.to_multiset() =~= s.to_multiset().remove(s[0])) by {
                assert(s.to_multiset() == t.to_multiset().insert(s.last()));
                assert(t.to_multiset().count(t[0]) > 0) by {
                    crate::perm::lemma_seq_elem_in_multiset(t, 0);
                }
            }
            assert forall|i: int|
                1 <= i < u.len() && parent_idx(i) != 0 implies (#[trigger] u[i]).key()
                >= u[parent_idx(i)].key() by {
                assert(u[i] == s[i] && u[parent_idx(i)] == s[parent_idx(i)]);
            }
            assert(min_down_ok(u, 0));
        }
        self.heapify_down(0);
        proof {
            assert forall|i: int|
                0 <= i < self@.len() implies s[0].key() <= (#[trigger] self@[i]).key() by {
                lemma_seq_elem_in_multiset_key::<T>(self@, s, i);
            }
        }
        Some(r)
    }

    /// Replaces the first element accepted by `f` with `new`, then restores
    /// heap order by sifting the slot up or down. Does nothing when `f`
    /// accepts no element.
    #[verifier::rlimit(60)]
    pub fn edit<F: Fn(&T) -> bool>(&mut self, f: F, new: T)
        requires
            old(self).wf(),
            forall|x: T| call_requires(f, (&x,)),
        ensures
            final(self).wf(),
            final(self)@.len() == old(self)@.len(),
            (final(self)@ == old(self)@ && forall|j: int|
                0 <= j < old(self)@.len() ==> call_ensures(f, (&old(self)@[j],), false)) || (
            exists|i: int|
                {
                    &&& 0 <= i < old(self)@.len()
                    &&& call_ensures(f, (&old(self)@[i],), true)
                    &&& (forall|j: int| 0 <= j < i ==> call_ensures(f, (&old(self)@[j],), false))
                    &&& final(self)@.to_multiset() == old(self)@.to_multiset().remove(
                        old(self)@[i],
                    ).insert(new)
                }),
    {
        let mut idx: usize = 0;
        let mut found = false;
        while idx < self.arr.len() && !found
            invariant
                self@ == old(self)@,
                idx <= self@.len(),
                forall|x: T| call_requires(f, (&x,)),
                !found ==> forall|j: int|
                    0 <= j < idx ==> call_ensures(f, (&old(self)@[j],), false),
                found ==> idx < self@.len() && call_ensures(f, (&old(self)@[idx as int],), true)
                    && (forall|j: int|
                    0 <= j < idx ==> call_ensures(f, (&old(self)@[j],), false)),
            decreases self@.len() - idx + (if found {
                0int
            } else {
                1int
            }),
        {
            if f(&self.arr[idx]) {
                found = true;
            } else {
                idx += 1;
            }
        }
        if !found {
            return ;
        }
        let old_val = self.arr[idx];
        let go_up = new.lt(&old_val);
        self.arr.set(idx, new);
        proof {
            lemma_update_multiset(old(self)@, idx as int, new);
            let s = old(self)@;
            let u = self@;
            let j = idx as int;
            if new.key() < old_val.key() {
                assert forall|i: int|
                    1 <= i < u.len() && i != j implies (#[trigger] u[i]).key() >= u[parent_idx(
                    i,
                )].key() by {
                    if parent_idx(i) == j {
                        assert(s[i].key() >= s[j].key());
                    }
                }
                assert(j > 0 ==> forall|i: int|
                    1 <= i < u.len() && parent_idx(i) == j ==> (#[trigger] u[i]).key()
                        >= u[parent_idx(j)].key()) by {
                    if j > 0 {
                        assert forall|i: int|
                            1 <= i < u.len() && parent_idx(i) == j implies (
                            #[trigger] u[i]).key() >= u[parent_idx(j)].key() by {
                            assert(s[i].key() >= s[j].key());
                            assert(s[j].key() >= s[parent_idx(j)].key());
                        }
                    }
                }
                assert(min_up_ok(u, j));
            } else {
                assert forall|i: int|
                    1 <= i < u.len() && parent_idx(i) != j implies (#[trigger] u[i]).key()
                    >= u[parent_idx(i)].key() by {
                    if i == j {
                        assert(s[j].key() >= s[parent_idx(j)].key());
                    }
                }
                assert(j > 0 ==> forall|i: int|
                    1 <= i < u.len() && parent_idx(i) == j ==> (#[trigger] u[i]).key()
                        >= u[parent_idx(j)].key()) by {
                    if j > 0 {
                        assert forall|i: int|
                            1 <= i < u.len() && parent_idx(i) == j implies (
                            #[trigger] u[i]).key() >= u[parent_idx(j)].key() by {
                            assert(s[i].key() >= s[j].key());
                            assert(s[j].key() >= s[parent_idx(j)].key());
                        }
                    }
                }
                assert(min_down_ok(u, j));
            }
        }
        if go_up {
            self.heapify_up(idx);
        } else {
            self.heapify_down(idx);
        }
    }

    /// Sift the node at `index` towards the root until its parent's key is
    /// no greater.
    fn heapify_up(&mut self, index: usize)
        requires
            index < old(self)@.len(),
            min_up_ok(old(self)@, index as int),
        ensures
            final(self).wf(),
            final(self)@.len() == old(self)@.len(),
            final(self)@.to_multiset() == old(self)@.to_multiset(),
        decreases index,
    {
        let ghost s = self@;
        let ghost j = index as int;
        if index == 0 {
            assert(min_heap_le(s));
            return ;
        }
        let parent = (index - 1) / 2;
        assert(parent == parent_idx(j));
        if self.arr[index].lt(&self.arr[parent]) {
            let a = self.arr[index];
            let b = self.arr[parent];
            self.arr.set(index, b);
            self.arr.set(parent, a);
            proof {
                lemma_swap_multiset(s, j, parent as int);
                let u = self@;
                let p = parent as int;
                assert forall|i: int|
                    1 <= i < u.len() && i != p implies (#[trigger] u[i]).key() >= u[parent_idx(
                    i,
                )].key() by {
                    if i == j {
                        assert(u[j] == s[p]);
                    } else if parent_idx(i) == j {
                        assert(s[i].key() >= s[p].key());
                    } else if parent_idx(i) == p {
                        assert(s[i].key() >= s[p].key());
                        assert(u[p].key() == s[j].key());
                    }
                }
                assert(p > 0 ==> forall|i: int|
                    1 <= i < u.len() && parent_idx(i) == p ==> (#[trigger] u[i]).key()
                        >= u[parent_idx(p)].key()) by {
                    if p > 0 {
                        assert forall|i: int|
                            1 <= i < u.len() && parent_idx(i) == p implies (
                            #[trigger] u[i]).key() >= u[parent_idx(p)].key() by {
                            assert(u[parent_idx(p)] == s[parent_idx(p)]);
                            if i == j {
                                assert(u[i] == s[p]);
                                assert(s[p].key() >= s[parent_idx(p)].key());
                            } else {
                                assert(u[i] == s[i]);
                                assert(s[i].key() >= s[p].key());
                                assert(s[p].key() >= s[parent_idx(p)].key());
                            }
                        }
                    }
                }
                assert(min_up_ok(u, p));
            }
            self.heapify_up(parent);
        } else {
            assert(min_heap_le(s)) by {
                assert(s[j].key() >= s[parent_idx(j)].key());
            }
        }
    }

    /// Sift the node at `index` towards the leaves until no child's key is
    /// smaller.
    #[verifier::rlimit(60)]
    fn heapify_down(&mut self, index: usize)
        requires
            index < old(self)@.len(),
            min_down_ok(old(self)@, index as int),
        ensures
            final(self).wf(),
            final(self)@.len() == old(self)@.len(),
            final(self)@.to_multiset() == old(self)@.to_multiset(),
        decreases old(self)@.len() - index,
    {
        let ghost s = self@;
        let ghost j = index as int;
        let len = self.arr.len();
        if index >= len / 2 {
            // no left child, hence a leaf
            assert(min_heap_le(s)) by {
                assert forall|i: int| 1 <= i < s.len() implies (#[trigger] s[i]).key()
                    >= s[parent_idx(i)].key() by {
                    assert(parent_idx(i) != j);
                }
            }
            return ;
        }
        let left = 2 * index + 1;
        assert(left < len);
        let mut child = left;
        if left + 1 < len && self.arr[left + 1].lt(&self.arr[left]) {
            child = left + 1;
        }
        let ghost c = child as int;
        assert(parent_idx(c) == j);
        if self.arr[child].lt(&self.arr[index]) {
            let a = self.arr[index];
            let b = self.arr[child];
            self.arr.set(index, b);
            self.arr.set(child, a);
            proof {
                lemma_swap_multiset(s, j, c);
                let u = self@;
                assert forall|i: int|
                    1 <= i < u.len() && parent_idx(i) != c implies (#[trigger] u[i]).key()
                    >= u[parent_idx(i)].key() by {
                    if i == j {
                        // the parent of `j` sits below the new occupant s[c]
                        assert(j > 0 ==> s[c].key() >= s[parent_idx(j)].key());
                    } else if i == c {
                        assert(u[c] == s[j]);
                    } else if parent_idx(i) == j {
                        // the sibling of `c`: the chosen child had the least key
                        assert(u[i] == s[i]);
                        assert(s[i].key() >= s[c].key());
                    }
                }
                assert(c > 0 ==> forall|i: int|
                    1 <= i < u.len() && parent_idx(i) == c ==> (#[trigger] u[i]).key()
                        >= u[parent_idx(c)].key()) by {
                    assert forall|i: int|
                        1 <= i < u.len() && parent_idx(i) == c implies (#[trigger] u[i]).key()
                        >= u[parent_idx(c)].key() by {
                        assert(u[i] == s[i]);
                        assert(s[i].key() >= s[c].key());
                        assert(u[parent_idx(c)].key() == s[c].key());
                    }
                }
                assert(min_down_ok(u, c));
            }
            self.heapify_down(child);
        } else {
            assert(min_heap_le(s)) by {
                assert forall|i: int| 1 <= i < s.len() implies (#[trigger] s[i]).key()
                    >= s[parent_idx(i)].key() by {
                    if parent_idx(i) == j {
                        assert(s[c].key() >= s[j].key());
                        if i != c {
                            assert(s[i].key() >= s[c].key());
                        }
                    }
                }
            }
        }
    }
}

/// Max-heap order everywhere, except that the node at `j` may be greater
/// than its parent; the parent of `j` still sits above `j`'s children.
spec fn max_up_ok<T: KeyOrd>(s: Seq<T>, j: int) -> bool {
    &&& forall|i: int|
        1 <= i < s.len() && i != j ==> (#[trigger] s[i]).key() <= s[parent_idx(i)].key()
    &&& j > 0 ==> forall|i: int|
        1 <= i < s.len() && parent_idx(i) == j ==> (#[trigger] s[i]).key() <= s[parent_idx(
            j,
        )].key()
}

/// Max-heap order everywhere, except that the node at `j` may be smaller
/// than its children; the parent of `j` still sits above `j`'s children.
spec fn max_down_ok<T: KeyOrd>(s: Seq<T>, j: int) -> bool {
    &&& forall|i: int|
        1 <= i < s.len() && parent_idx(i) != j ==> (#[trigger] s[i]).key() <= s[parent_idx(
            i,
        )].key()
    &&& j > 0 ==> forall|i: int|
        1 <= i < s.len() && parent_idx(i) == j ==> (#[trigger] s[i]).key() <= s[parent_idx(
            j,
        )].key()
}

/// An array-backed binary max-heap: the greatest key is at the root and
/// comes out first.
pub struct MaxHeap<T> {
    arr: Vec<T>,
}

impl<T> View for MaxHeap<T> {
    type V = Seq<T>;

    closed spec fn view(&self) -> Seq<T> {
        self.arr@
    }
}

impl<T: KeyOrd + Copy> MaxHeap<T> {
    /// The heap invariant.
    pub open spec fn wf(self) -> bool {
        max_heap_le(self@)
    }

    pub fn new() -> (r: MaxHeap<T>)
        ensures
            r.wf(),
            r@ == Seq::<T>::empty(),
    {
        MaxHeap { arr: Vec::<T>::new() }
    }

    pub fn len(&self) -> (r: usize)
        ensures
            r == self@.len(),
    {
        self.arr.len()
    }

    /// The elements in their array order (root first), for inspection.
    pub fn to_vec(&self) -> (r: Vec<T>)
        ensures
            r@ == self@,
    {
        let mut r: Vec<T> = Vec::<T>::new();
        let mut i: usize = 0;
        while i < self.arr.len()
            invariant
                i <= self.arr.len(),
                r@ =~= self@.take(i as int),
            decreases self.arr.len() - i,
        {
            r.push(self.arr[i]);
            i += 1;
        }
        assert(r@ =~= self@);
        r
    }

    /// Appends `value` and restores heap order by sifting it up.
    pub fn insert(&mut self, value: T)
        requires
            old(self).wf(),
        ensures
            final(self).wf(),
            final(self)@.len() == old(self)@.len() + 1,
            final(self)@.to_multiset() == old(self)@.to_multiset().insert(value),
    {
        proof {
            broadcast use vstd::seq_lib::group_to_multiset_ensures;

        }
        self.arr.push(value);
        proof {
            let s = self@;
            let j = s.len() - 1;
            assert forall|i: int| 1 <= i < s.len() && i != j implies (#[trigger] s[i]).key()
                <= s[parent_idx(i)].key() by {
                assert(s[i] == old(self)@[i] && s[parent_idx(i)] == old(self)@[parent_idx(i)]);
            }
            assert(max_up_ok(s, j));
        }
        let idx = self.arr.len() - 1;
        self.heapify_up(idx);
    }

    /// Removes and returns the greatest element; reports absence on an
    /// empty heap and leaves it unchanged.
    pub fn pop(&mut self) -> (r: Option<T>)
        requires
            old(self).wf(),
        ensures
            final(self).wf(),
            old(self)@.len() == 0 ==> r is None && final(self)@ == old(self)@,
            old(self)@.len() > 0 ==> {
                &&& r == Some(old(self)@[0])
                &&& final(self)@.len() == old(self)@.len() - 1
                &&& final(self)@.to_multiset() == old(self)@.to_multiset().remove(old(self)@[0])
                &&& forall|i: int|
                    0 <= i < final(self)@.len() ==> old(self)@[0].key() >= (
                    #[trigger] final(self)@[i]).key()
            },
    {
        proof {
            broadcast use vstd::seq_lib::group_to_multiset_ensures;

        }
        if self.arr.len() == 0 {
            return None;
        }
        let ghost s = self@;
        let r = self.arr[0];
        let last = self.arr.pop().unwrap();
        if self.arr.len() == 0 {
            proof {
                assert(s =~= Seq::<T>::empty().push(s[0]));
                assert(s.to_multiset().remove(s[0]) =~= self@.to_multiset());
            }
            return Some(last);
        }
        self.arr.set(0, last);
        proof {
            let t = s.drop_last();
            let u = self@;
            assert(u == t.update(0, s.last()));
            lemma_update_multiset(t, 0, s.last());
            assert(s =~= t.push(s.last()));
            assert(u.to_multiset() =~= s.to_multiset().remove(s[0])) by {
                assert(s.to_multiset() == t.to_multiset().insert(s.last()));
                assert(t.to_multiset().count(t[0]) > 0) by {
                    crate::perm::lemma_seq_elem_in_multiset(t, 0);
                }
            }
            assert forall|i: int|
                1 <= i < u.len() && parent_idx(i) != 0 implies (#[trigger] u[i]).key()
                <= u[parent_idx(i)].key() by {
                assert(u[i] == s[i] && u[parent_idx(i)] == s[parent_idx(i)]);
            }
            assert(max_down_ok(u, 0));
        }
        self.heapify_down(0);
        proof {
            assert forall|i: int|
                0 <= i < self@.len() implies s[0].key() >= (#[trigger] self@[i]).key() by {
                lemma_max_elem_in_multiset_key::<T>(self@, s, i);
            }
        }
        Some(r)
    }

    /// Replaces the first element accepted by `f` with `new`, then restores
    /// heap order by sifting the slot up or down. Does nothing when `f`
    /// accepts no element.
    #[verifier::rlimit(60)]
    pub fn edit<F: Fn(&T) -> bool>(&mut self, f: F, new: T)
        requires
            old(self).wf(),
            forall|x: T| call_requires(f, (&x,)),
        ensures
            final(self).wf(),
            final(self)@.len() == old(self)@.len(),
            (final(self)@ == old(self)@ && forall|j: int|
                0 <= j < old(self)@.len() ==> call_ensures(f, (&old(self)@[j],), false)) || (
            exists|i: int|
                {
                    &&& 0 <= i < old(self)@.len()
                    &&& call_ensures(f, (&old(self)@[i],), true)
                    &&& (forall|j: int| 0 <= j < i ==> call_ensures(f, (&old(self)@[j],), false))
                    &&& final(self)@.to_multiset() == old(self)@.to_multiset().remove(
                        old(self)@[i],
                    ).insert(new)
                }),
    {
        let mut idx: usize = 0;
        let mut found = false;
        while idx < self.arr.len() && !found
            invariant
                self@ == old(self)@,
                idx <= self@.len(),
                forall|x: T| call_requires(f, (&x,)),
                !found ==> forall|j: int|
                    0 <= j < idx ==> call_ensures(f, (&old(self)@[j],), false),
                found ==> idx < self@.len() && call_ensures(f, (&old(self)@[idx as int],), true)
                    && (forall|j: int|
                    0 <= j < idx ==> call_ensures(f, (&old(self)@[j],), false)),
            decreases self@.len() - idx + (if found {
                0int
            } else {
                1int
            }),
        {
            if f(&self.arr[idx]) {
                found = true;
            } else {
                idx += 1;
            }
        }
        if !found {
            return ;
        }
        let old_val = self.arr[idx];
        let go_up = old_val.lt(&new);
        self.arr.set(idx, new);
        proof {
            lemma_update_multiset(old(self)@, idx as int, new);
            let s = old(self)@;
            let u = self@;
            let j = idx as int;
            if old_val.key() < new.key() {
                assert forall|i: int|
                    1 <= i < u.len() && i != j implies (#[trigger] u[i]).key() <= u[parent_idx(
                    i,
                )].key() by {
                    if parent_idx(i) == j {
                        assert(s[i].key() <= s[j].key());
                    }
                }
                assert(j > 0 ==> forall|i: int|
                    1 <= i < u.len() && parent_idx(i) == j ==> (#[trigger] u[i]).key()
                        <= u[parent_idx(j)].key()) by {
                    if j > 0 {
                        assert forall|i: int|
                            1 <= i < u.len() && parent_idx(i) == j implies (
                            #[trigger] u[i]).key() <= u[parent_idx(j)].key() by {
                            assert(s[i].key() <= s[j].key());
                            assert(s[j].key() <= s[parent_idx(j)].key());
                        }
                    }
                }
                assert(max_up_ok(u, j));
            } else {
                assert forall|i: int|
                    1 <= i < u.len() && parent_idx(i) != j implies (#[trigger] u[i]).key()
                    <= u[parent_idx(i)].key() by {
                    if i == j {
                        assert(s[j].key() <= s[parent_idx(j)].key());
                    }
                }
                assert(j > 0 ==> forall|i: int|
                    1 <= i < u.len() && parent_idx(i) == j ==> (#[trigger] u[i]).key()
                        <= u[parent_idx(j)].key()) by {
                    if j > 0 {
                        assert forall|i: int|
                            1 <= i < u.len() && parent_idx(i) == j implies (
                            #[trigger] u[i]).key() <= u[parent_idx(j)].key() by {
                            assert(s[i].key() <= s[j].key());
                            assert(s[j].key() <= s[parent_idx(j)].key());
                        }
                    }
                }
                assert(max_down_ok(u, j));
            }
        }
        if go_up {
            self.heapify_up(idx);
        } else {
            self.heapify_down(idx);
        }
    }

    /// Sift the node at `index` towards the root until its parent's key is
    /// no smaller.
    fn heapify_up(&mut self, index: usize)
        requires
            index < old(self)@.len(),
            max_up_ok(old(self)@, index as int),
        ensures
            final(self).wf(),
            final(self)@.len() == old(self)@.len(),
            final(self)@.to_multiset() == old(self)@.to_multiset(),
        decreases index,
    {
        let ghost s = self@;
        let ghost j = index as int;
        if index == 0 {
            assert(max_heap_le(s));
            return ;
        }
        let parent = (index - 1) / 2;
        assert(parent == parent_idx(j));
        if self.arr[parent].lt(&self.arr[index]) {
            let a = self.arr[index];
            let b = self.arr[parent];
            self.arr.set(index, b);
            self.arr.set(parent, a);
            proof {
                lemma_swap_multiset(s, j, parent as int);
                let u = self@;
                let p = parent as int;
                assert forall|i: int|
                    1 <= i < u.len() && i != p implies (#[trigger] u[i]).key() <= u[parent_idx(
                    i,
                )].key() by {
                    if i == j {
                        assert(u[j] == s[p]);
                    } else if parent_idx(i) == j {
                        assert(s[i].key() <= s[p].key());
                    } else if parent_idx(i) == p {
                        assert(s[i].key() <= s[p].key());
                        assert(u[p].key() == s[j].key());
                    }
                }
                assert(p > 0 ==> forall|i: int|
                    1 <= i < u.len() && parent_idx(i) == p ==> (#[trigger] u[i]).key()
                        <= u[parent_idx(p)].key()) by {
                    if p > 0 {
                        assert forall|i: int|
                            1 <= i < u.len() && parent_idx(i) == p implies (
                            #[trigger] u[i]).key() <= u[parent_idx(p)].key() by {
                            assert(u[parent_idx(p)] == s[parent_idx(p)]);
                            if i == j {
                                assert(u[i] == s[p]);
                                assert(s[p].key() <= s[parent_idx(p)].key());
                            } else {
                                assert(u[i] == s[i]);
                                assert(s[i].key() <= s[p].key());
                                assert(s[p].key() <= s[parent_idx(p)].key());
                            }
                        }
                    }
                }
                assert(max_up_ok(u, p));
            }
            self.heapify_up(parent);
        } else {
            assert(max_heap_le(s)) by {
                assert(s[j].key() <= s[parent_idx(j)].key());
            }
        }
    }

    /// Sift the node at `index` towards the leaves until no child's key is
    /// greater.
    #[verifier::rlimit(100)]
    fn heapify_down(&mut self, index: usize)
        requires
            index < old(self)@.len(),
            max_down_ok(old(self)@, index as int),
        ensures
            final(self).wf(),
            final(self)@.len() == old(self)@.len(),
            final(self)@.to_multiset() == old(self)@.to_multiset(),
        decreases old(self)@.len() - index,
    {
        let ghost s = self@;
        let ghost j = index as int;
        let len = self.arr.len();
        if index >= len / 2 {
            // no left child, hence a leaf
            assert(max_heap_le(s)) by {
                assert forall|i: int| 1 <= i < s.len() implies (#[trigger] s[i]).key()
                    <= s[parent_idx(i)].key() by {
                    assert(parent_idx(i) != j);
                }
            }
            return ;
        }
        let left = 2 * index + 1;
        assert(left < len);
        let mut child = left;
        if left + 1 < len && self.arr[left].lt(&self.arr[left + 1]) {
            child = left + 1;
        }
        let ghost c = child as int;
        assert(parent_idx(c) == j);
        if self.arr[index].lt(&self.arr[child]) {
            let a = self.arr[index];
            let b = self.arr[child];
            self.arr.set(index, b);
            self.arr.set(child, a);
            proof {
                lemma_swap_multiset(s, j, c);
                let u = self@;
                assert forall|i: int|
                    1 <= i < u.len() && parent_idx(i) != c implies (#[trigger] u[i]).key()
                    <= u[parent_idx(i)].key() by {
                    if i == j {
                        assert(j > 0 ==> s[c].key() <= s[parent_idx(j)].key());
                    } else if i == c {
                        assert(u[c] == s[j]);
                    } else if parent_idx(i) == j {
                        assert(u[i] == s[i]);
                        assert(s[i].key() <= s[c].key());
                    }
                }
                assert(c > 0 ==> forall|i: int|
                    1 <= i < u.len() && parent_idx(i) == c ==> (#[trigger] u[i]).key()
                        <= u[parent_idx(c)].key()) by {
                    assert forall|i: int|
                        1 <= i < u.len() && parent_idx(i) == c implies (#[trigger] u[i]).key()
                        <= u[parent_idx(c)].key() by {
                        assert(u[i] == s[i]);
                        assert(s[i].key() <= s[c].key());
                        assert(u[parent_idx(c)].key() == s[c].key());
                    }
                }
                assert(max_down_ok(u, c));
            }
            self.heapify_down(child);
        } else {
            assert(max_heap_le(s)) by {
                assert forall|i: int| 1 <= i < s.len() implies (#[trigger] s[i]).key()
                    <= s[parent_idx(i)].key() by {
                    if parent_idx(i) == j {
                        assert(s[c].key() <= s[j].key());
                        if i != c {
                            assert(s[i].key() <= s[c].key());
                        }
                    }
                }
            }
        }
    }
}

/// Law: two successive pops of a min-heap come out with non-decreasing
/// keys. The hypotheses are exactly what `MinHeap::pop` ensures about two
/// consecutive successful calls, so by induction over a pop sequence the
/// whole drain is sorted by key.
pub proof fn lemma_min_pops_nondecreasing<T: KeyOrd>(h0: Seq<T>, r1: T, h1: Seq<T>, r2: T)
    requires
        min_heap_le(h0),
        h0.len() > 0,
        r1 == h0[0],
        h1.to_multiset() == h0.to_multiset().remove(r1),
        h1.len() > 0,
        r2 == h1[0],
    ensures
        r1.key() <= r2.key(),
{
    broadcast use vstd::seq_lib::group_to_multiset_ensures;

    crate::perm::lemma_seq_elem_in_multiset(h1, 0);
    assert(h0.to_multiset().count(r2) > 0);
    lemma_multiset_elem_in_seq(h0, r2);
    let w = choose|w: int| 0 <= w < h0.len() && h0[w] == r2;
    lemma_min_root(h0, w);
}

/// Law: two successive pops of a max-heap come out with non-increasing
/// keys; dual of `lemma_min_pops_nondecreasing`.
pub proof fn lemma_max_pops_nonincreasing<T: KeyOrd>(h0: Seq<T>, r1: T, h1: Seq<T>, r2: T)
    requires
        max_heap_le(h0),
        h0.len() > 0,
        r1 == h0[0],
        h1.to_multiset() == h0.to_multiset().remove(r1),
        h1.len() > 0,
        r2 == h1[0],
    ensures
        r1.key() >= r2.key(),
{
    broadcast use vstd::seq_lib::group_to_multiset_ensures;

    crate::perm::lemma_seq_elem_in_multiset(h1, 0);
    assert(h0.to_multiset().count(r2) > 0);
    lemma_multiset_elem_in_seq(h0, r2);
    let w = choose|w: int| 0 <= w < h0.len() && h0[w] == r2;
    lemma_max_root(h0, w);
}

/// Keys carried into a multiset survive into any sequence with that
/// multiset: helper connecting `pop`'s multiset clause to its key bound.
proof fn lemma_max_elem_in_multiset_key<T: KeyOrd>(u: Seq<T>, s: Seq<T>, i: int)
    requires
        0 <= i < u.len(),
        s.len() > 0,
        max_heap_le(s),
        u.to_multiset() == s.to_multiset().remove(s[0]),
    ensures
        s[0].key() >= u[i].key(),
{
    broadcast use vstd::seq_lib::group_to_multiset_ensures;

    crate::perm::lemma_seq_elem_in_multiset(u, i);
    assert(s.to_multiset().remove(s[0]).count(u[i]) > 0);
    assert(s.to_multiset().count(u[i]) > 0);
    lemma_multiset_elem_in_seq(s, u[i]);
    let w = choose|w: int| 0 <= w < s.len() && s[w] == u[i];
    lemma_max_root(s, w);
}

/// Keys carried into a multiset survive into any sequence with that
/// multiset: helper connecting `pop`'s multiset clause to its key bound.
proof fn lemma_seq_elem_in_multiset_key<T: KeyOrd>(u: Seq<T>, s: Seq<T>, i: int)
    requires
        0 <= i < u.len(),
        s.len() > 0,
        min_heap_le(s),
        u.to_multiset() == s.to_multiset().remove(s[0]),
    ensures
        s[0].key() <= u[i].key(),
{
    broadcast use vstd::seq_lib::group_to_multiset_ensures;

    crate::perm::lemma_seq_elem_in_multiset(u, i);
    assert(s.to_multiset().remove(s[0]).count(u[i]) > 0);
    assert(s.to_multiset().count(u[i]) > 0);
    lemma_multiset_elem_in_seq(s, u[i]);
    let w = choose|w: int| 0 <= w < s.len() && s[w] == u[i];
    lemma_min_root(s, w);
}

} // verus!
