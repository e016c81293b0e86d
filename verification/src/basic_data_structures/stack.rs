//! A last-in-first-out stack backed by a growable vector.

use vstd::prelude::*;

verus! {

/// The stack; its view is the sequence of elements from bottom to top.
pub struct Stack<T> {
    size: usize,
    data: Vec<T>,
}

impl<T> View for Stack<T> {
    type V = Seq<T>;

    closed spec fn view(&self) -> Seq<T> {
        self.data@
    }
}

impl<T> Stack<T> {
    /// The stored count agrees with the backing vector.
    pub closed spec fn wf(&self) -> bool {
        self.size == self.data@.len()
    }

    pub fn new() -> (s: Self)
        ensures
            s.wf(),
            s@ == Seq::<T>::empty(),
    {
        Stack { size: 0, data: Vec::new() }
    }

    pub fn is_empty(&self) -> (r: bool)
        requires
            self.wf(),
        ensures
            r == (self@.len() == 0),
    {
        self.size == 0
    }

    pub fn clear(&mut self)
        ensures
            final(self).wf(),
            final(self)@ == Seq::<T>::empty(),
    {
        self.size = 0;
        self.data.clear();
    }

    pub fn push(&mut self, val: T)
        requires
            old(self).wf(),
        ensures
            final(self).wf(),
            final(self)@ == old(self)@.push(val),
    {
        self.data.push(val);
        self.size = self.data.len();
    }

    pub fn pop(&mut self) -> (r: Option<T>)
        requires
            old(self).wf(),
        ensures
            final(self).wf(),
            old(self)@.len() == 0 ==> r is None && final(self)@ == old(self)@,
            old(self)@.len() > 0 ==> r == Some(old(self)@.last()) && final(self)@ == old(
                self,
            )@.drop_last(),
    {
        match self.size {
            0 => None,
            _ => {
                self.size = self.size - 1;
                self.data.pop()
            },
        }
    }

    pub fn peek(&self) -> (r: Option<&T>)
        requires
            self.wf(),
        ensures
            match r {
                Some(v) => self@.len() > 0 && *v == self@.last(),
                None => self@.len() == 0,
            },
    {
        match self.size {
            0 => None,
            _ => Some(&self.data[self.size - 1]),
        }
    }

    pub fn get_size(&self) -> (r: &usize)
        requires
            self.wf(),
        ensures
            *r == self@.len(),
    {
        &self.size
    }

    /// Turn the stack into a consuming iterator over its elements, top
    /// first.
    pub fn into_iter(self) -> (it: IntoIter<T>)
        requires
            self.wf(),
        ensures
            it.wf(),
            it@ == self@,
    {
        IntoIter(self)
    }


    /// An iterator of exclusive references to the elements, top first;
    /// writes through the references it hands out land in the stack's
    /// elements.
    pub fn iter_mut<'a>(&'a mut self) -> (it: IterMut<'a, T>)
        requires
            old(self).wf(),
        ensures
            it.wf(),
            old(self)@.len() == 0 ==> it.rest is None && *final(self) == *old(self),
            old(self)@.len() > 0 ==> it.rest is Some && (it.rest->0)@ == old(self)@
                && final(self)@ == final(it.rest->0)@ && (final(it.rest->0)@.len()
                == old(self)@.len() ==> final(self).wf()),
    {
        if self.data.len() == 0 {
            IterMut { rest: None }
        } else {
            let s: &'a mut [T] = self.data.as_mut_slice();
            IterMut { rest: Some(s) }
        }
    }

    /// An iterator of references to the elements, top first.
    pub fn iter<'a>(&'a self) -> (it: Iter<'a, T>)
        ensures
            it@ == self@,
    {
        let mut holder: Vec<&'a T> = Vec::new();
        let mut i: usize = 0;
        while i < self.data.len()
            invariant
                i <= self.data@.len(),
                holder@.len() == i,
                forall|m: int| 0 <= m < i ==> *(#[trigger] holder@[m]) == self.data@[m],
            decreases self.data@.len() - i,
        {
            holder.push(&self.data[i]);
            i += 1;
        }
        let it = Iter { stack: holder };
        proof {
            assert(it@ =~= self@);
        }
        it
    }
}

/// Consuming iterator for `Stack`; its view is the sequence of elements
/// still to be yielded, in bottom-to-top order (they come out top first).
pub struct IntoIter<T>(Stack<T>);

impl<T> View for IntoIter<T> {
    type V = Seq<T>;

    closed spec fn view(&self) -> Seq<T> {
        self.0@
    }
}

impl<T> IntoIter<T> {
    /// The inner stack is well formed.
    pub closed spec fn wf(&self) -> bool {
        self.0.wf()
    }

    pub fn next(&mut self) -> (r: Option<T>)
        requires
            old(self).wf(),
        ensures
            final(self).wf(),
            old(self)@.len() == 0 ==> r is None && final(self)@ == old(self)@,
            old(self)@.len() > 0 ==> r == Some(old(self)@.last()) && final(self)@ == old(
                self,
            )@.drop_last(),
    {
        if !self.0.is_empty() {
            self.0.pop()
        } else {
            None
        }
    }
}

/// Mutable iterator for `Stack`, yielding one exclusive element reference
/// at a time from the top downward; writes through the references land in
/// the stack's elements.
pub struct IterMut<'a, T> {
    /// The elements not yet visited, bottom to top.  The field is public
    /// so that contracts can relate the values written through the
    /// iterator to the stack it borrows from.
    pub rest: Option<&'a mut [T]>,
}

impl<'a, T> IterMut<'a, T> {
    /// The unvisited slice, when present, is never empty.
    pub closed spec fn wf(&self) -> bool {
        match self.rest {
            None => true,
            Some(s) => s@.len() > 0,
        }
    }

    pub fn next(&mut self) -> (r: Option<&'a mut T>)
        requires
            old(self).wf(),
        ensures
            final(self).wf(),
            old(self).rest is None ==> r is None && final(self).rest is None,
            old(self).rest is Some ==> {
                let entry = old(self).rest->0;
                &&& r is Some
                &&& *r->0 == entry@.last()
                &&& (entry@.len() == 1 ==> final(self).rest is None && final(entry)@ == seq![
                    *final(r->0),
                ])
                &&& (entry@.len() > 1 ==> final(self).rest is Some && (final(self).rest->0)@
                    == entry@.drop_last() && final(entry)@ == final(final(self).rest->0)@ + seq![
                    *final(r->0),
                ])
            },
    {
        match self.rest.take() {
            None => None,
            Some(entry) => {
                let ghost entry0 = entry@;
                let n = entry.len();
                let (head, last) = entry.split_at_mut(n - 1);
                proof {
                    assert(last@ =~= seq![entry0.last()]);
                    assert(head@ =~= entry0.drop_last());
                }
                let elem = last.first_mut().unwrap();
                proof {
                    assert(after_borrow(last)@ =~= seq![*final(elem)]);
                }
                if head.len() == 0 {
                    self.rest = None;
                } else {
                    self.rest = Some(head);
                }
                Some(elem)
            },
        }
    }
}

/// Borrowing iterator for `Stack`; its view is the sequence still to be
/// yielded, in bottom-to-top order (they come out top first).
pub struct Iter<'a, T> {
    stack: Vec<&'a T>,
}

impl<'a, T> View for Iter<'a, T> {
    type V = Seq<T>;

    closed spec fn view(&self) -> Seq<T> {
        Seq::new(self.stack@.len(), |i: int| *self.stack@[i])
    }
}

impl<'a, T> Iter<'a, T> {
    pub fn next(&mut self) -> (r: Option<&'a T>)
        ensures
            old(self)@.len() == 0 ==> r is None && final(self)@ == old(self)@,
            old(self)@.len() > 0 ==> (match r {
                Some(v) => *v == old(self)@.last(),
                None => false,
            }) && final(self)@ == old(self)@.drop_last(),
    {
        let ghost s0 = self.stack@;
        let r = self.stack.pop();
        proof {
            if s0.len() > 0 {
                assert(self@ =~= old(self)@.drop_last());
            } else {
                assert(self@ =~= old(self)@);
            }
        }
        r
    }
}

} // verus!
