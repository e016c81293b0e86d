//! A bounded double-ended queue backed by a vector.
//!
//! The "front" is the tail of the backing vector and the "rear" is index
//! zero, so the view reads rear to front.

use vstd::prelude::*;

verus! {

/// The deque; its view is the backing vector, rear first, front last.
pub struct Deque<T> {
    cap: usize,
    data: Vec<T>,
}

impl<T> View for Deque<T> {
    type V = Seq<T>;

    closed spec fn view(&self) -> Seq<T> {
        self.data@
    }
}

impl<T> Deque<T> {
    /// The fixed element capacity the deque was created with.
    pub closed spec fn capacity(&self) -> nat {
        self.cap as nat
    }

    /// The deque never holds more than its capacity.
    pub closed spec fn wf(&self) -> bool {
        self.data@.len() <= self.cap
    }

    /// A well-formed deque never holds more than its capacity.
    pub proof fn lemma_len_bounded_by_capacity(&self)
        requires
            self.wf(),
        ensures
            self@.len() <= self.capacity(),
    {
    }

    pub fn new(size: usize) -> (d: Self)
        ensures
            d.wf(),
            d@ == Seq::<T>::empty(),
            d.capacity() == size,
    {
        Deque { cap: size, data: Vec::with_capacity(size) }
    }

    pub fn is_empty(&self) -> (r: bool)
        ensures
            r == (self@.len() == 0),
    {
        0 == self.len()
    }

    pub fn is_full(&self) -> (r: bool)
        ensures
            r == (self@.len() == self.capacity()),
    {
        self.len() == self.cap
    }

    pub fn len(&self) -> (r: usize)
        ensures
            r == self@.len(),
    {
        self.data.len()
    }

    pub fn clear(&mut self)
        ensures
            final(self).wf(),
            final(self)@ == Seq::<T>::empty(),
            final(self).capacity() == old(self).capacity(),
    {
        self.data = Vec::with_capacity(self.cap);
    }

    /// Add at the front; refused when the deque is at capacity, and the
    /// deque is then unchanged.
    pub fn add_front(&mut self, val: T) -> (r: Result<(), &str>)
        requires
            old(self).wf(),
        ensures
            final(self).wf(),
            old(self)@.len() == old(self).capacity() ==> r is Err && final(self)@ == old(self)@
                && final(self).capacity() == old(self).capacity(),
            r matches Err(m) ==> m@ == "No space available"@,
            old(self)@.len() < old(self).capacity() ==> r is Ok && final(self)@ == old(self)@.push(
                val,
            ) && final(self).capacity() == old(self).capacity(),
    {
        if self.len() == self.cap {
            proof {
                reveal_strlit("No space available");
            }
            return Err("No space available");
        }
        self.data.push(val);
        Ok(())
    }

    /// Add at the rear; refused when the deque is at capacity, and the
    /// deque is then unchanged.
    pub fn add_rear(&mut self, val: T) -> (r: Result<(), &str>)
        requires
            old(self).wf(),
        ensures
            final(self).wf(),
            old(self)@.len() == old(self).capacity() ==> r is Err && final(self)@ == old(self)@
                && final(self).capacity() == old(self).capacity(),
            r matches Err(m) ==> m@ == "No space available"@,
            old(self)@.len() < old(self).capacity() ==> r is Ok && final(self)@ == old(
                self,
            )@.insert(0, val) && final(self).capacity() == old(self).capacity(),
    {
        if self.len() == self.cap {
            proof {
                reveal_strlit("No space available");
            }
            return Err("No space available");
        }
        self.data.insert(0, val);
        Ok(())
    }

    /// Remove and return the front element, or nothing when empty.
    pub fn remove_front(&mut self) -> (r: Option<T>)
        requires
            old(self).wf(),
        ensures
            final(self).wf(),
            final(self).capacity() == old(self).capacity(),
            old(self)@.len() == 0 ==> r is None && final(self)@ == old(self)@,
            old(self)@.len() > 0 ==> r == Some(old(self)@.last()) && final(self)@ == old(
                self,
            )@.drop_last(),
    {
        if self.len() > 0 {
            self.data.pop()
        } else {
            None
        }
    }

    /// Remove and return the rear element, or nothing when empty.
    pub fn remove_rear(&mut self) -> (r: Option<T>)
        requires
            old(self).wf(),
        ensures
            final(self).wf(),
            final(self).capacity() == old(self).capacity(),
            old(self)@.len() == 0 ==> r is None && final(self)@ == old(self)@,
            old(self)@.len() > 0 ==> (match r {
                Some(v) => v == old(self)@[0],
                None => false,
            }) && final(self)@ == old(self)@.drop_first(),
    {
        if self.len() > 0 {
            let ghost s0 = self.data@;
            let v = self.data.remove(0);
            proof {
                assert(self.data@ =~= s0.drop_first());
            }
            Some(v)
        } else {
            None
        }
    }

    /// A reference to the front element, or nothing when empty.
    pub fn peek_front(&self) -> (r: Option<&T>)
        ensures
            match r {
                Some(v) => self@.len() > 0 && *v == self@.last(),
                None => self@.len() == 0,
            },
    {
        if self.data.len() == 0 {
            None
        } else {
            Some(&self.data[self.data.len() - 1])
        }
    }

    /// A reference to the rear element, or nothing when empty.
    pub fn peek_rear(&self) -> (r: Option<&T>)
        ensures
            match r {
                Some(v) => self@.len() > 0 && *v == self@[0],
                None => self@.len() == 0,
            },
    {
        if self.data.len() == 0 {
            None
        } else {
            Some(&self.data[0])
        }
    }

    /// Turn the deque into a consuming iterator, rear first.
    pub fn into_iter(self) -> (it: IntoIter<T>)
        requires
            self.wf(),
        ensures
            it.wf(),
            it@ == self@,
    {
        IntoIter(self)
    }


    /// An iterator of exclusive references, rear first; writes through the
    /// references it hands out land in the deque's elements.
    pub fn iter_mut<'a>(&'a mut self) -> (it: IterMut<'a, T>)
        requires
            old(self).wf(),
        ensures
            it.wf(),
            old(self)@.len() == 0 ==> it.rest is None && *final(self) == *old(self),
            old(self)@.len() > 0 ==> it.rest is Some && (it.rest->0)@ == old(self)@
                && final(self)@ == final(it.rest->0)@ && final(self).capacity() == old(self).capacity()
                && (final(it.rest->0)@.len() == old(self)@.len() ==> final(self).wf()),
    {
        if self.data.len() == 0 {
            IterMut { rest: None }
        } else {
            let s: &'a mut [T] = self.data.as_mut_slice();
            IterMut { rest: Some(s) }
        }
    }

    /// An iterator of references, rear first.
    pub fn iter<'a>(&'a self) -> (it: Iter<'a, T>)
        ensures
            it@ == self@,
    {
        let mut holder: Vec<&'a T> = Vec::new();
        let mut i: usize = 0;
        while i < self.data.len()
            invariant
                i <= self.data@.len(),
                holder@.len() == i,
                forall|m: int| 0 <= m < i ==> *(#[trigger] holder@[m]) == self.data@[m],
            decreases self.data@.len() - i,
        {
            holder.push(&self.data[i]);
            i += 1;
        }
        let it = Iter { stack: holder };
        proof {
            assert(it@ =~= self@);
        }
        it
    }
}

/// Consuming iterator for `Deque`; elements come out from the start of
/// its view.
pub struct IntoIter<T>(Deque<T>);

impl<T> View for IntoIter<T> {
    type V = Seq<T>;

    closed spec fn view(&self) -> Seq<T> {
        self.0@
    }
}

impl<T> IntoIter<T> {
    /// The inner deque is well formed.
    pub closed spec fn wf(&self) -> bool {
        self.0.wf()
    }

    pub fn next(&mut self) -> (r: Option<T>)
        requires
            old(self).wf(),
        ensures
            final(self).wf(),
            old(self)@.len() == 0 ==> r is None && final(self)@ == old(self)@,
            old(self)@.len() > 0 ==> (match r {
                Some(v) => v == old(self)@[0],
                None => false,
            }) && final(self)@ == old(self)@.drop_first(),
    {
        if !self.0.is_empty() {
            self.0.remove_rear()
        } else {
            None
        }
    }
}

/// Mutable iterator yielding one exclusive element reference at a time,
/// from the start of the view onward; writes through the references land
/// in the borrowed collection.
pub struct IterMut<'a, T> {
    /// The elements not yet visited.  The field is public so that
    /// contracts can relate the values written through the iterator to
    /// the collection it borrows from.
    pub rest: Option<&'a mut [T]>,
}

impl<'a, T> IterMut<'a, T> {
    /// The unvisited slice, when present, is never empty.
    pub closed spec fn wf(&self) -> bool {
        match self.rest {
            None => true,
            Some(s) => s@.len() > 0,
        }
    }

    pub fn next(&mut self) -> (r: Option<&'a mut T>)
        requires
            old(self).wf(),
        ensures
            final(self).wf(),
            old(self).rest is None ==> r is None && final(self).rest is None,
            old(self).rest is Some ==> {
                let entry = old(self).rest->0;
                &&& r is Some
                &&& *r->0 == entry@[0]
                &&& (entry@.len() == 1 ==> final(self).rest is None && final(entry)@ == seq![
                    *final(r->0),
                ])
                &&& (entry@.len() > 1 ==> final(self).rest is Some && (final(self).rest->0)@
                    == entry@.drop_first() && final(entry)@ == seq![*final(r->0)]
                    + final(final(self).rest->0)@)
            },
    {
        match self.rest.take() {
            None => None,
            Some(entry) => {
                let ghost entry0 = entry@;
                let (first, tail) = entry.split_at_mut(1);
                proof {
                    assert(first@ =~= seq![entry0[0]]);
                    assert(tail@ =~= entry0.drop_first());
                }
                let elem = first.first_mut().unwrap();
                proof {
                    assert(after_borrow(first)@ =~= seq![*final(elem)]);
                }
                if tail.len() == 0 {
                    self.rest = None;
                } else {
                    self.rest = Some(tail);
                }
                Some(elem)
            },
        }
    }
}

/// Borrowing iterator for `Deque`; elements come out from the start of
/// its view.
pub struct Iter<'a, T> {
    stack: Vec<&'a T>,
}

impl<'a, T> View for Iter<'a, T> {
    type V = Seq<T>;

    closed spec fn view(&self) -> Seq<T> {
        Seq::new(self.stack@.len(), |i: int| *self.stack@[i])
    }
}

impl<'a, T> Iter<'a, T> {
    pub fn next(&mut self) -> (r: Option<&'a T>)
        ensures
            old(self)@.len() == 0 ==> r is None && final(self)@ == old(self)@,
            old(self)@.len() > 0 ==> (match r {
                Some(v) => *v == old(self)@[0],
                None => false,
            }) && final(self)@ == old(self)@.drop_first(),
    {
        if 0 != self.stack.len() {
            let ghost s0 = self.stack@;
            let v = self.stack.remove(0);
            proof {
                assert(self@ =~= old(self)@.drop_first());
            }
            Some(v)
        } else {
            None
        }
    }
}

} // verus!
