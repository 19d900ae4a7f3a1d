use vstd::prelude::*;

use crate::errordsa::Error;

verus! {

/// A singly linked list whose nodes carry their value in an `Option`:
/// the empty list is a single node with no value. The view is the
/// sequence of stored values, front first.
pub struct LinkedList<T> {
    pub value: Option<T>,
    pub next: Option<Box<LinkedList<T>>>,
}

/// The values of the chain headed by `n`.
pub open spec fn l2seq<T>(n: LinkedList<T>) -> Seq<T>
    decreases n,
{
    if n.value is None {
        Seq::<T>::empty()
    } else {
        seq![n.value.unwrap()] + opt_l2seq(n.next)
    }
}

/// The values of an optional chain.
pub open spec fn opt_l2seq<T>(o: Option<Box<LinkedList<T>>>) -> Seq<T>
    decreases o,
{
    match o {
        None => Seq::<T>::empty(),
        Some(b) => l2seq(*b),
    }
}

/// Only the head node may lack a value, and only when it is alone.
pub open spec fn l2wf<T>(n: LinkedList<T>) -> bool
    decreases n,
{
    &&& (n.value is None ==> n.next is None)
    &&& match n.next {
        None => true,
        Some(c) => c.value is Some && l2wf(*c),
    }
}

impl<T> View for LinkedList<T> {
    type V = Seq<T>;

    closed spec fn view(&self) -> Seq<T> {
        l2seq(*self)
    }
}

impl<T: Copy> LinkedList<T> {
    /// The structural invariant of the sentinel representation.
    pub open spec fn wf(self) -> bool {
        l2wf(self)
    }

    pub fn new() -> (r: LinkedList<T>)
        ensures
            r.wf(),
            r@ == Seq::<T>::empty(),
    {
        LinkedList { value: None, next: None }
    }

    /// Appends `value` at the back, filling the sentinel when the list
    /// is empty.
    pub fn push_back(&mut self, value: T)
        requires
            old(self).wf(),
        ensures
            final(self).wf(),
            final(self)@ == old(self)@.push(value),
        decreases old(self)@.len(),
    {
        let ghost s = self@;
        match self.next.as_mut() {
            Some(n) => {
                n.push_back(value);
                proof {
                    assert(self@ =~= s.push(value));
                    assert(l2seq(*self.next.unwrap()).len() > 0);
                    assert(self.next.unwrap().value is Some);
                    assert(self.wf());
                }
            },
            None => {
                if self.value.is_some() {
                    self.next = Some(
                        Box::new(LinkedList { value: Some(value), next: None }),
                    );
                    proof {
                        assert(opt_l2seq(old(self).next) =~= Seq::<T>::empty());
                        assert(l2seq(*self.next.unwrap()) =~= seq![value]);
                        assert(self@ =~= s.push(value));
                        assert(self.value is Some);
                        assert(self.next.unwrap().value is Some);
                        assert(l2wf(*self.next.unwrap()));
                        assert(self.wf());
                    }
                } else {
                    self.value = Some(value);
                    proof {
                        assert(self@ =~= s.push(value));
                        assert(self.wf());
                    }
                }
            },
        }
    }

    /// Prepends `value` at the front.
    pub fn push_front(&mut self, value: T)
        requires
            old(self).wf(),
        ensures
            final(self).wf(),
            final(self)@ == seq![value] + old(self)@,
    {
        if self.value.is_none() {
            self.value = Some(value);
            proof {
                assert(self@ =~= seq![value] + old(self)@);
            }
            return ;
        }
        let prev_head = LinkedList { value: self.value.take(), next: self.next.take() };
        self.value = Some(value);
        self.next = Some(Box::new(prev_head));
        proof {
            assert(self@ =~= seq![value] + old(self)@);
        }
    }

    /// The value at `index`; rejects a position past the end.
    pub fn get(&self, index: usize) -> (r: Result<&T, Error>)
        requires
            self.wf(),
        ensures
            index < self@.len() ==> r is Ok && *r.unwrap() == self@[index as int],
            index >= self@.len() ==> r == Err::<&T, Error>(Error::IndexOutOfBound),
        decreases self@.len(),
    {
        if index == 0 {
            match &self.value {
                Some(v) => Ok(v),
                None => Err(Error::IndexOutOfBound),
            }
        } else {
            match self.next.as_ref() {
                Some(c) => c.get(index - 1),
                None => Err(Error::IndexOutOfBound),
            }
        }
    }

    /// Removal with an off-by-one quirk: position `0` is
    /// removed itself, but a positive `index` removes the node after the
    /// one it names, so the element at `index + 1` goes, and naming the
    /// last element removes nothing while still reporting success.
    pub fn remove(&mut self, index: usize) -> (r: Result<(), Error>)
        requires
            old(self).wf(),
        ensures
            final(self).wf(),
            old(self)@.len() == 0 ==> r == Err::<(), Error>(Error::IndexOutOfBound) && final(self)@ == old(self)@,
            old(self)@.len() > 0 && index == 0 ==> r is Ok && final(self)@ == old(self)@.skip(1),
            1 <= index && index + 1 < old(self)@.len() ==> r is Ok && final(self)@ == old(
                self,
            )@.remove(index + 1),
            1 <= index && index + 1 == old(self)@.len() ==> r is Ok && final(self)@ == old(
                self,
            )@,
            1 <= index && index >= old(self)@.len() ==> r == Err::<(), Error>(
                Error::IndexOutOfBound,
            ) && final(self)@ == old(self)@,
    {
        if self.value.is_none() {
            return Err(Error::IndexOutOfBound);
        }
        if index == 0 {
            match self.next.take() {
                Some(n) => {
                    let inner = *n;
                    self.value = inner.value;
                    self.next = inner.next;
                    proof {
                        assert(self@ =~= old(self)@.skip(1));
                    }
                },
                None => {
                    self.value = None;
                    proof {
                        assert(self@ =~= old(self)@.skip(1));
                    }
                },
            }
            return Ok(());
        }
        self.remove_at(index)
    }

    /// Walks `steps` nodes forward and splices out the node after the
    /// stop, if there is one.
    fn remove_at(&mut self, steps: usize) -> (r: Result<(), Error>)
        requires
            old(self).wf(),
            old(self).value is Some,
        ensures
            final(self).wf(),
            steps + 1 < old(self)@.len() ==> r is Ok && final(self)@ == old(self)@.remove(
                steps + 1,
            ),
            steps < old(self)@.len() && steps + 1 >= old(self)@.len() ==> r is Ok
                && final(self)@ == old(self)@,
            steps >= old(self)@.len() ==> r == Err::<(), Error>(Error::IndexOutOfBound)
                && final(self)@ == old(self)@,
        decreases steps,
    {
        let ghost s = self@;
        if steps == 0 {
            match self.next.take() {
                Some(n) => {
                    proof {
                        assert(s =~= seq![s[0]] + l2seq(*n));
                        assert(l2wf(*n));
                    }
                    let inner = *n;
                    self.next = inner.next;
                    proof {
                        assert(self@ =~= s.remove(1));
                        assert(self.wf());
                    }
                },
                None => {
                    proof {
                        assert(self@ =~= s);
                    }
                },
            }
            Ok(())
        } else {
            match self.next.as_mut() {
                Some(c) => {
                    proof {
                        assert(s =~= seq![s[0]] + l2seq(**c));
                    }
                    let r = c.remove_at(steps - 1);
                    proof {
                        if steps + 1 < s.len() {
                            assert(self@ =~= s.remove(steps + 1));
                        } else {
                            assert(self@ =~= s);
                        }
                        assert(l2seq(*self.next.unwrap()).len() > 0);
                        assert(self.next.unwrap().value is Some);
                        assert(self.wf());
                    }
                    r
                },
                None => Err(Error::IndexOutOfBound),
            }
        }
    }

    /// Overwrites the value at `index`; rejects a position past the end.
    pub fn edit(&mut self, index: usize, value: T) -> (r: Result<(), Error>)
        requires
            old(self).wf(),
        ensures
            final(self).wf(),
            index < old(self)@.len() ==> r is Ok && final(self)@ == old(self)@.update(
                index as int,
                value,
            ),
            index >= old(self)@.len() ==> r == Err::<(), Error>(Error::IndexOutOfBound)
                && final(self)@ == old(self)@,
        decreases old(self)@.len(),
    {
        if self.value.is_none() {
            return Err(Error::IndexOutOfBound);
        }
        if index == 0 {
            self.value = Some(value);
            proof {
                assert(self@ =~= old(self)@.update(0, value));
            }
            return Ok(());
        }
        match self.next.as_mut() {
            Some(c) => {
                let r = c.edit(index - 1, value);
                proof {
                    if index < old(self)@.len() {
                        assert(self@ =~= old(self)@.update(index as int, value));
                    } else {
                        assert(self@ =~= old(self)@);
                    }
                }
                r
            },
            None => Err(Error::IndexOutOfBound),
        }
    }

    /// Copies the values into a vector, front first.
    pub fn to_vec(&self) -> (r: Vec<T>)
        requires
            self.wf(),
        ensures
            r@ == self@,
        decreases self@.len(),
    {
        let mut r: Vec<T> = Vec::<T>::new();
        l2_values(self, &mut r);
        r
    }
}

impl LinkedList<i32> {
    /// The list rendered as text, "[a, b, c]". The list must not be
    /// empty.
    pub fn to_string(&self) -> (r: String)
        requires
            self.wf(),
            self@.len() > 0,
    {
        let v = self.to_vec();
        l2_fmt_values(&v)
    }
}

/// Relies on the standard formatter: `Debug` on a vector of numbers
/// prints "[a, b, c]".
#[verifier::external_body]
fn l2_fmt_values(v: &Vec<i32>) -> String {
    format!("{:?}", v)
}

/// Appends the chain's values to `acc`, front first.
fn l2_values<T: Copy>(n: &LinkedList<T>, acc: &mut Vec<T>)
    ensures
        final(acc)@ == old(acc)@ + l2seq(*n),
    decreases n,
{
    match &n.value {
        None => {
            proof {
                assert(old(acc)@ + l2seq(*n) =~= old(acc)@);
            }
        },
        Some(v) => {
            acc.push(*v);
            match n.next.as_ref() {
                Some(c) => {
                    l2_values(c, acc);
                    proof {
                        assert(old(acc)@ + l2seq(*n) =~= (old(acc)@.push(*v)) + l2seq(
                            **c,
                        ));
                    }
                },
                None => {
                    proof {
                        assert(old(acc)@ + l2seq(*n) =~= old(acc)@.push(*v));
                    }
                },
            }
        },
    }
}

} // verus!
