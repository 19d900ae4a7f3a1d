use vstd::prelude::*;

use crate::algorithms::{sorted_asc, sorted_desc};
use crate::errordsa::Error;
use crate::order::KeyOrd;

verus! {

/// One cell of a singly linked list.
pub struct Node<T> {
    pub value: T,
    pub next: Option<Box<Node<T>>>,
}

/// The values hanging off an optional chain, front first.
pub open spec fn node_seq<T>(o: Option<Box<Node<T>>>) -> Seq<T>
    decreases o,
{
    match o {
        None => Seq::<T>::empty(),
        Some(b) => seq![b.value] + node_seq(b.next),
    }
}

/// The values of the list headed by `n`.
pub open spec fn nview<T>(n: Node<T>) -> Seq<T> {
    seq![n.value] + node_seq(n.next)
}

impl<T> Node<T> {
    pub fn new(value: T) -> (r: Node<T>)
        ensures
            nview(r) == seq![value],
    {
        let r = Node { value, next: None };
        proof {
            assert(nview(r) =~= seq![value]);
        }
        r
    }
}

/// A singly linked list that tracks its length; the view is the sequence
/// of values from front to back.
pub struct LinkedList<T> {
    head: Option<Box<Node<T>>>,
    length: usize,
}

impl<T> View for LinkedList<T> {
    type V = Seq<T>;

    closed spec fn view(&self) -> Seq<T> {
        node_seq(self.head)
    }
}

impl<T: KeyOrd + Copy> LinkedList<T> {
    /// The stored length agrees with the chain.
    pub closed spec fn wf(self) -> bool {
        self.length == self@.len()
    }

    pub fn new() -> (r: LinkedList<T>)
        ensures
            r.wf(),
            r@ == Seq::<T>::empty(),
    {
        LinkedList { head: None, length: 0 }
    }

    pub fn len(&self) -> (r: usize)
        requires
            self.wf(),
        ensures
            r == self@.len(),
    {
        self.length
    }

    /// Appends `value` at the back.
    pub fn push_back(&mut self, value: T)
        requires
            old(self).wf(),
            old(self)@.len() < usize::MAX,
        ensures
            final(self).wf(),
            final(self)@ == old(self)@.push(value),
    {
        push_back_rec(&mut self.head, value);
        self.length += 1;
    }

    /// Prepends `value` at the front.
    pub fn push_front(&mut self, value: T)
        requires
            old(self).wf(),
            old(self)@.len() < usize::MAX,
        ensures
            final(self).wf(),
            final(self)@ == seq![value] + old(self)@,
    {
        let prev_head = self.head.take();
        self.head = Some(Box::new(Node { value, next: prev_head }));
        self.length += 1;
    }

    /// The value at `index`; rejects a position past the end. The list
    /// must not be empty.
    pub fn get(&self, index: usize) -> (r: Result<&T, Error>)
        requires
            self.wf(),
            self@.len() > 0,
        ensures
            index < self@.len() ==> r is Ok && *r.unwrap() == self@[index as int],
            index >= self@.len() ==> r == Err::<&T, Error>(Error::IndexOutOfBound),
    {
        if index >= self.length {
            return Err(Error::IndexOutOfBound);
        }
        Ok(get_rec(self.head.as_ref().unwrap(), index))
    }

    /// Removes the value at `index` and closes the gap; rejects a
    /// position past the end and leaves the list unchanged then.
    pub fn remove(&mut self, index: usize) -> (r: Result<(), Error>)
        requires
            old(self).wf(),
        ensures
            final(self).wf(),
            index < old(self)@.len() ==> r is Ok && final(self)@ == old(self)@.remove(
                index as int,
            ),
            index >= old(self)@.len() ==> r == Err::<(), Error>(Error::IndexOutOfBound)
                && final(self)@ == old(self)@,
    {
        if index >= self.length {
            return Err(Error::IndexOutOfBound);
        }
        if index == 0 {
            let h = self.head.take().unwrap();
            self.head = h.next;
            proof {
                assert(self@ =~= old(self)@.remove(0));
            }
        } else {
            remove_rec(self.head.as_mut().unwrap(), index);
        }
        self.length -= 1;
        Ok(())
    }

    /// Overwrites the value at `index`; rejects a position past the end.
    /// The list must not be empty.
    pub fn edit(&mut self, index: usize, value: T) -> (r: Result<(), Error>)
        requires
            old(self).wf(),
            old(self)@.len() > 0,
        ensures
            final(self).wf(),
            index < old(self)@.len() ==> r is Ok && final(self)@ == old(self)@.update(
                index as int,
                value,
            ),
            index >= old(self)@.len() ==> r == Err::<(), Error>(Error::IndexOutOfBound)
                && final(self)@ == old(self)@,
    {
        if index >= self.length {
            return Err(Error::IndexOutOfBound);
        }
        edit_rec(self.head.as_mut().unwrap(), index, value);
        Ok(())
    }

    /// Inserts `value` into a list sorted by ascending key, keeping it
    /// sorted.
    pub fn insert_ordered_asc(&mut self, value: T)
        requires
            old(self).wf(),
            sorted_asc(old(self)@),
            old(self)@.len() < usize::MAX,
        ensures
            final(self).wf(),
            sorted_asc(final(self)@),
            final(self)@.len() == old(self)@.len() + 1,
            final(self)@.to_multiset() == old(self)@.to_multiset().insert(value),
    {
        proof {
            broadcast use vstd::seq_lib::group_to_multiset_ensures;

        }
        if self.length == 0 {
            self.push_front(value);
            proof {
                assert(self@ =~= seq![value]);
            }
            return ;
        }
        let go_front = value.lt(&self.head.as_ref().unwrap().value);
        if go_front {
            self.push_front(value);
            proof {
                assert(self@ =~= old(self)@.insert(0, value));
                assert forall|i: int, j: int| 0 <= i < j < self@.len() implies self@[i].key()
                    <= self@[j].key() by {
                    if i == 0 {
                        assert(self@[j] == old(self)@[j - 1]);
                        assert(old(self)@[0].key() <= old(self)@[j - 1].key());
                    }
                }
            }
            return ;
        }
        insert_asc_rec(self.head.as_mut().unwrap(), value);
        self.length += 1;
    }

    /// Inserts `value` into a list sorted by descending key, keeping it
    /// sorted.
    pub fn insert_ordered_desc(&mut self, value: T)
        requires
            old(self).wf(),
            sorted_desc(old(self)@),
            old(self)@.len() < usize::MAX,
        ensures
            final(self).wf(),
            sorted_desc(final(self)@),
            final(self)@.len() == old(self)@.len() + 1,
            final(self)@.to_multiset() == old(self)@.to_multiset().insert(value),
    {
        proof {
            broadcast use vstd::seq_lib::group_to_multiset_ensures;

        }
        if self.length == 0 {
            self.push_front(value);
            proof {
                assert(self@ =~= seq![value]);
            }
            return ;
        }
        let go_front = self.head.as_ref().unwrap().value.lt(&value);
        if go_front {
            self.push_front(value);
            proof {
                assert(self@ =~= old(self)@.insert(0, value));
                assert forall|i: int, j: int| 0 <= i < j < self@.len() implies self@[i].key()
                    >= self@[j].key() by {
                    if i == 0 {
                        assert(self@[j] == old(self)@[j - 1]);
                        assert(old(self)@[0].key() >= old(self)@[j - 1].key());
                    }
                }
            }
            return ;
        }
        insert_desc_rec(self.head.as_mut().unwrap(), value);
        self.length += 1;
    }

    /// Copies the values into a vector, front first.
    pub fn to_vec(&self) -> (r: Vec<T>)
        ensures
            r@ == self@,
    {
        let mut r: Vec<T> = Vec::<T>::new();
        values_rec(&self.head, &mut r);
        r
    }
}

impl LinkedList<i32> {
    /// The list rendered as text, "[a, b, c]". The list must not be
    /// empty.
    pub fn to_string(&self) -> (r: String)
        requires
            self.wf(),
            self@.len() > 0,
    {
        let v = self.to_vec();
        fmt_values(&v)
    }
}

/// Relies on the standard formatter: `Debug` on a vector of numbers
/// prints "[a, b, c]".
#[verifier::external_body]
fn fmt_values(v: &Vec<i32>) -> String {
    format!("{:?}", v)
}

/// Appends at the end of the chain.
fn push_back_rec<T>(n: &mut Option<Box<Node<T>>>, value: T)
    ensures
        node_seq(*final(n)) == node_seq(*old(n)).push(value),
    decreases node_seq(*old(n)).len(),
{
    match n {
        None => {
            *n = Some(Box::new(Node { value, next: None }));
            proof {
                assert(node_seq(*n) =~= node_seq(*old(n)).push(value));
            }
        },
        Some(node) => {
            push_back_rec(&mut node.next, value);
        },
    }
    proof {
        assert(node_seq(*n) =~= node_seq(*old(n)).push(value));
    }
}

/// The value at position `i` of the chain headed by `node`.
fn get_rec<T>(node: &Node<T>, i: usize) -> (r: &T)
    requires
        i < nview(*node).len(),
    ensures
        *r == nview(*node)[i as int],
    decreases nview(*node).len(),
{
    if i == 0 {
        &node.value
    } else {
        get_rec(node.next.as_ref().unwrap(), i - 1)
    }
}

/// Splices out the value at position `i >= 1` of the chain headed by
/// `node`.
fn remove_rec<T>(node: &mut Node<T>, i: usize)
    requires
        1 <= i < nview(*old(node)).len(),
    ensures
        nview(*final(node)) == nview(*old(node)).remove(i as int),
    decreases i,
{
    if i == 1 {
        let nx = node.next.take().unwrap();
        node.next = nx.next;
        proof {
            assert(nview(*node) =~= nview(*old(node)).remove(1));
        }
    } else {
        remove_rec(node.next.as_mut().unwrap(), i - 1);
        proof {
            assert(nview(*node) =~= nview(*old(node)).remove(i as int));
        }
    }
}

/// Overwrites the value at position `i` of the chain headed by `node`.
fn edit_rec<T>(node: &mut Node<T>, i: usize, value: T)
    requires
        i < nview(*old(node)).len(),
    ensures
        nview(*final(node)) == nview(*old(node)).update(i as int, value),
    decreases i,
{
    if i == 0 {
        node.value = value;
        proof {
            assert(nview(*node) =~= nview(*old(node)).update(0, value));
        }
    } else {
        edit_rec(node.next.as_mut().unwrap(), i - 1, value);
        proof {
            assert(nview(*node) =~= nview(*old(node)).update(i as int, value));
        }
    }
}

/// Inserts `value` behind the last prefix element whose key is below it;
/// the head stays put and the chain stays sorted.
fn insert_asc_rec<T: KeyOrd + Copy>(node: &mut Node<T>, value: T)
    requires
        sorted_asc(nview(*old(node))),
        old(node).value.key() <= value.key(),
    ensures
        sorted_asc(nview(*final(node))),
        nview(*final(node)).len() == nview(*old(node)).len() + 1,
        nview(*final(node)).to_multiset() == nview(*old(node)).to_multiset().insert(value),
        final(node).value == old(node).value,
    decreases nview(*old(node)).len(),
{
    proof {
        broadcast use vstd::seq_lib::group_to_multiset_ensures;

    }
    let advance = match node.next.as_ref() {
        Some(nx) => nx.value.lt(&value),
        None => false,
    };
    if advance {
        proof {
            let s = nview(*node);
            assert(node_seq(node.next) =~= s.drop_first());
            assert(sorted_asc(nview(*node.next.unwrap())));
        }
        insert_asc_rec(node.next.as_mut().unwrap(), value);
        proof {
            let s0 = nview(*old(node));
            let s1 = nview(*node);
            assert(s1 =~= seq![s0[0]] + node_seq(node.next));
            assert(s1 =~= node_seq(node.next).insert(0, s0[0]));
            assert(s0 =~= node_seq(old(node).next).insert(0, s0[0]));
            assert(s1.to_multiset() == s0.to_multiset().insert(value));
            assert(sorted_asc(s1)) by {
                let c = node_seq(node.next);
                assert(forall|j: int| 0 <= j < c.len() ==> s1[j + 1] == c[j]);
                assert(c[0] == node.next.unwrap().value);
                assert(node.next.unwrap().value == old(node).next.unwrap().value);
                assert(s0[1] == old(node).next.unwrap().value);
                assert(s0[0].key() <= s0[1].key());
                assert(s1[0].key() <= c[0].key());
            }
        }
    } else {
        let nx = node.next.take();
        node.next = Some(Box::new(Node { value, next: nx }));
        proof {
            let s0 = nview(*old(node));
            let s1 = nview(*node);
            assert(s1 =~= s0.insert(1, value));
            assert(s1.to_multiset() == s0.to_multiset().insert(value));
            assert(sorted_asc(s1)) by {
                assert(forall|j: int| 2 <= j < s1.len() ==> s1[j] == s0[j - 1]);
                assert(s0.len() > 1 ==> value.key() <= s0[1].key());
            }
        }
    }
}

/// Inserts `value` behind the last prefix element whose key is above it;
/// the head stays put and the chain stays sorted.
fn insert_desc_rec<T: KeyOrd + Copy>(node: &mut Node<T>, value: T)
    requires
        sorted_desc(nview(*old(node))),
        old(node).value.key() >= value.key(),
    ensures
        sorted_desc(nview(*final(node))),
        nview(*final(node)).len() == nview(*old(node)).len() + 1,
        nview(*final(node)).to_multiset() == nview(*old(node)).to_multiset().insert(value),
        final(node).value == old(node).value,
    decreases nview(*old(node)).len(),
{
    proof {
        broadcast use vstd::seq_lib::group_to_multiset_ensures;

    }
    let advance = match node.next.as_ref() {
        Some(nx) => value.lt(&nx.value),
        None => false,
    };
    if advance {
        proof {
            let s = nview(*node);
            assert(node_seq(node.next) =~= s.drop_first());
            assert(sorted_desc(nview(*node.next.unwrap())));
        }
        insert_desc_rec(node.next.as_mut().unwrap(), value);
        proof {
            let s0 = nview(*old(node));
            let s1 = nview(*node);
            assert(s1 =~= seq![s0[0]] + node_seq(node.next));
            assert(s1 =~= node_seq(node.next).insert(0, s0[0]));
            assert(s0 =~= node_seq(old(node).next).insert(0, s0[0]));
            assert(s1.to_multiset() == s0.to_multiset().insert(value));
            assert(sorted_desc(s1)) by {
                let c = node_seq(node.next);
                assert(forall|j: int| 0 <= j < c.len() ==> s1[j + 1] == c[j]);
                assert(c[0] == node.next.unwrap().value);
                assert(node.next.unwrap().value == old(node).next.unwrap().value);
                assert(s0[1] == old(node).next.unwrap().value);
                assert(s0[0].key() >= s0[1].key());
                assert(s1[0].key() >= c[0].key());
            }
        }
    } else {
        let nx = node.next.take();
        node.next = Some(Box::new(Node { value, next: nx }));
        proof {
            let s0 = nview(*old(node));
            let s1 = nview(*node);
            assert(s1 =~= s0.insert(1, value));
            assert(s1.to_multiset() == s0.to_multiset().insert(value));
            assert(sorted_desc(s1)) by {
                assert(forall|j: int| 2 <= j < s1.len() ==> s1[j] == s0[j - 1]);
                assert(s0.len() > 1 ==> value.key() >= s0[1].key());
            }
        }
    }
}

/// Appends the chain's values to `acc`, front first.
fn values_rec<T: Copy>(n: &Option<Box<Node<T>>>, acc: &mut Vec<T>)
    ensures
        final(acc)@ == old(acc)@ + node_seq(*n),
    decreases node_seq(*n).len(),
{
    match n {
        None => {
            proof {
                assert(old(acc)@ + node_seq(*n) =~= old(acc)@);
            }
        },
        Some(b) => {
            acc.push(b.value);
            values_rec(&b.next, acc);
            proof {
                assert(old(acc)@ + node_seq(*n) =~= (old(acc)@.push(b.value)) + node_seq(b.next));
            }
        },
    }
}

} // verus!
