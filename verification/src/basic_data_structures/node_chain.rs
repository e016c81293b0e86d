//! A singly linked, exclusively owned node chain with index-addressed
//! mutation, element search, and cursors for consuming, read-only and
//! mutable traversal.
//!
//! Each node owns its element and the slot for its successor, so the
//! chain is a line of single-owner links with no sharing and no cycles.
//! The view of a chain is the sequence of its elements from head to tail.

use crate::order::EqTest;
use vstd::prelude::*;

verus! {

/// One link: an element and the slot that may own the next link.  The
/// type is public only so that the mutable cursor's contract can speak of
/// the node a cursor points at; its fields stay private.
pub struct Node<T> {
    element: T,
    next: Option<Box<Node<T>>>,
}

/// The error raised by the index-addressed operations when the requested
/// index lies beyond the chain.
#[derive(Debug, PartialEq, Eq, Structural)]
pub enum IndexError {
    OutOfBounds,
}

/// The chain: an element count and the head slot.
pub struct NodeChain<T> {
    size: usize,
    head: Option<Box<Node<T>>>,
}

/// The elements reachable from a slot, in order.
pub closed spec fn link_view<T>(link: Option<Box<Node<T>>>) -> Seq<T>
    decreases link,
{
    match link {
        None => Seq::empty(),
        Some(node) => seq![node.element] + link_view(node.next),
    }
}

/// The elements of one node and its successors, in order.
pub closed spec fn node_view<T>(node: Node<T>) -> Seq<T> {
    seq![node.element] + link_view(node.next)
}

/// The element held by one node.
pub closed spec fn node_element<T>(node: Node<T>) -> T {
    node.element
}

/// The elements of a node's successors, in order.
pub closed spec fn node_rest<T>(node: Node<T>) -> Seq<T> {
    link_view(node.next)
}

impl<T> View for NodeChain<T> {
    type V = Seq<T>;

    closed spec fn view(&self) -> Seq<T> {
        link_view(self.head)
    }
}

impl<T> NodeChain<T> {
    /// The stored count agrees with the number of reachable nodes.
    pub closed spec fn wf(&self) -> bool {
        self.size == link_view(self.head).len()
    }

    pub fn new() -> (c: Self)
        ensures
            c.wf(),
            c@ == Seq::<T>::empty(),
    {
        NodeChain { size: 0, head: None }
    }

    pub fn is_empty(&self) -> (r: bool)
        requires
            self.wf(),
        ensures
            r == (self@.len() == 0),
    {
        0 == self.size
    }

    pub fn len(&self) -> (r: usize)
        requires
            self.wf(),
        ensures
            r == self@.len(),
    {
        self.size
    }

    /// Put a new node holding `element` in front of the current head.
    pub fn push(&mut self, element: T)
        requires
            old(self).wf(),
            old(self)@.len() < usize::MAX,
        ensures
            final(self).wf(),
            final(self)@ == seq![element] + old(self)@,
    {
        let node = Box::new(Node { element, next: self.head.take() });
        self.head = Some(node);
        self.size = self.size + 1;
    }

    /// Splice a new node in at position `index`; position zero means a new
    /// head, and one past the last element appends.  An index beyond that
    /// is refused and the chain is unchanged.
    pub fn insert_at(&mut self, index: usize, element: T) -> (r: Result<(), IndexError>)
        requires
            old(self).wf(),
            old(self)@.len() < usize::MAX,
        ensures
            final(self).wf(),
            index <= old(self)@.len() ==> r == Ok::<(), IndexError>(()) && final(self)@ == old(
                self,
            )@.insert(index as int, element),
            index > old(self)@.len() ==> r == Err::<(), IndexError>(IndexError::OutOfBounds)
                && final(self)@ == old(self)@,
    {
        if index > self.size {
            return Err(IndexError::OutOfBounds);
        }
        Self::insert_link(&mut self.head, index, element);
        self.size = self.size + 1;
        Ok(())
    }

    /// Walk `index` links and splice a new node in there.
    fn insert_link(link: &mut Option<Box<Node<T>>>, index: usize, element: T)
        requires
            index <= link_view(*old(link)).len(),
        ensures
            link_view(*final(link)) == link_view(*old(link)).insert(index as int, element),
        decreases index,
    {
        if index == 0 {
            let tail = link.take();
            *link = Some(Box::new(Node { element, next: tail }));
            proof {
                assert(link_view(*link) =~= link_view(*old(link)).insert(0, element));
            }
        } else {
            let mut node = link.take().unwrap();
            Self::insert_link(&mut node.next, index - 1, element);
            *link = Some(node);
            proof {
                assert(link_view(*link) =~= link_view(*old(link)).insert(index as int, element));
            }
        }
    }

    /// Detach the head node and hand its element out, or nothing when the
    /// chain is empty.
    pub fn pop(&mut self) -> (r: Option<T>)
        requires
            old(self).wf(),
        ensures
            final(self).wf(),
            old(self)@.len() == 0 ==> r is None && final(self)@ == old(self)@,
            old(self)@.len() > 0 ==> r == Some(old(self)@[0]) && final(self)@ == old(
                self,
            )@.drop_first(),
    {
        match self.head.take() {
            None => None,
            Some(node) => {
                let inner = *node;
                self.head = inner.next;
                self.size = self.size - 1;
                proof {
                    assert(link_view(self.head) =~= old(self)@.drop_first());
                }
                Some(inner.element)
            },
        }
    }

    /// Detach the node at position `index` and hand its element out.  At
    /// exactly one past the end nothing is there to delete and the call
    /// reports success without an element; beyond that it is refused.  The
    /// chain is unchanged in both of those cases.
    pub fn delete_at(&mut self, index: usize) -> (r: Result<Option<T>, IndexError>)
        requires
            old(self).wf(),
        ensures
            final(self).wf(),
            index < old(self)@.len() ==> r == Ok::<Option<T>, IndexError>(
                Some(old(self)@[index as int]),
            ) && final(self)@ == old(self)@.remove(index as int),
            index == old(self)@.len() ==> r == Ok::<Option<T>, IndexError>(None) && final(self)@
                == old(self)@,
            index > old(self)@.len() ==> r == Err::<Option<T>, IndexError>(IndexError::OutOfBounds)
                && final(self)@ == old(self)@,
    {
        if index > self.size {
            return Err(IndexError::OutOfBounds);
        }
        if index == self.size {
            return Ok(None);
        }
        let element = Self::delete_link(&mut self.head, index);
        self.size = self.size - 1;
        Ok(Some(element))
    }

    /// Walk `index` links and detach the node there.
    fn delete_link(link: &mut Option<Box<Node<T>>>, index: usize) -> (r: T)
        requires
            index < link_view(*old(link)).len(),
        ensures
            r == link_view(*old(link))[index as int],
            link_view(*final(link)) == link_view(*old(link)).remove(index as int),
        decreases index,
    {
        let node = link.take().unwrap();
        if index == 0 {
            let inner = *node;
            *link = inner.next;
            proof {
                assert(link_view(*link) =~= link_view(*old(link)).remove(0));
            }
            inner.element
        } else {
            let mut node = node;
            let r = Self::delete_link(&mut node.next, index - 1);
            *link = Some(node);
            proof {
                assert(link_view(*link) =~= link_view(*old(link)).remove(index as int));
            }
            r
        }
    }

    /// A reference to the head element, or nothing when the chain is
    /// empty.
    pub fn peek(&self) -> (r: Option<&T>)
        ensures
            match r {
                Some(v) => self@.len() > 0 && *v == self@[0],
                None => self@.len() == 0,
            },
    {
        match &self.head {
            None => None,
            Some(node) => Some(&node.element),
        }
    }

    /// A mutable reference to the head element, or nothing when the chain
    /// is empty; writing through it changes the head element in place.
    pub fn peek_mut(&mut self) -> (r: Option<&mut T>)
        ensures
            old(self)@.len() == 0 ==> r is None && *final(self) == *old(self),
            old(self)@.len() > 0 ==> match r {
                Some(v) => *v == old(self)@[0] && final(self)@ == old(self)@.update(
                    0,
                    *final(v),
                ) && (old(self).wf() ==> final(self).wf()),
                None => false,
            },
    {
        match &mut self.head {
            None => None,
            Some(node) => {
                let r = Some(&mut node.element);
                proof {
                    assert(old(self)@ == seq![old(self)@[0]] + link_view(old(self).head.unwrap().next));
                }
                r
            },
        }
    }

    /// Release every node with an explicit iterative unlink loop, leaving
    /// the chain empty.  Each turn of the loop detaches the head node and
    /// lets it go after its successor has been moved out, so the stack
    /// depth stays constant however long the chain is.
    pub fn teardown(&mut self)
        ensures
            final(self).wf(),
            final(self)@ == Seq::<T>::empty(),
    {
        while self.head.is_some()
            decreases link_view(self.head).len(),
        {
            let node = self.head.take().unwrap();
            let inner = *node;
            self.head = inner.next;
        }
        self.size = 0;
    }

    /// Turn the chain into a cursor that drains it from the head.
    pub fn into_iter(self) -> (c: ConsumingCursor<T>)
        requires
            self.wf(),
        ensures
            c.wf(),
            c@ == self@,
    {
        ConsumingCursor(self)
    }

    /// A cursor of references that walks the chain from the head without
    /// changing it.
    pub fn iter<'a>(&'a self) -> (c: BorrowCursor<'a, T>)
        ensures
            c@ == self@,
    {
        let c = BorrowCursor {
            next: match &self.head {
                None => None,
                Some(node) => Some(&**node),
            },
        };
        c
    }

    /// A cursor of exclusive references that walks the chain from the
    /// head; writes through the references it hands out land in the
    /// chain's elements, and the chain's shape stays as it was.
    pub fn iter_mut<'a>(&'a mut self) -> (c: MutBorrowCursor<'a, T>)
        requires
            old(self).wf(),
        ensures
            old(self)@.len() == 0 ==> c.next is None && *final(self) == *old(self),
            old(self)@.len() > 0 ==> c.next is Some && node_view(*c.next->0) == old(self)@
                && final(self)@ == node_view(*final(c.next->0)) && (node_view(
                *final(c.next->0),
            ).len() == old(self)@.len() ==> final(self).wf()),
    {
        let link: Option<&'a mut Node<T>> = match &mut self.head {
            None => None,
            Some(b) => Some(&mut **b),
        };
        MutBorrowCursor { next: link }
    }
}

impl<T> Drop for NodeChain<T> {
    /// Releasing a chain runs the same iterative unlink loop as
    /// `teardown`, so a chain of any length is destroyed with constant
    /// stack depth instead of one recursive destructor call per node.
    fn drop(&mut self)
        opens_invariants none
        no_unwind
    {
        let mut link: Option<Box<Node<T>>> = None;
        core::mem::swap(&mut link, &mut self.head);
        let mut going = true;
        while going
            decreases link_view(link).len() + (if going {
                1int
            } else {
                0int
            }),
        {
            let mut taken: Option<Box<Node<T>>> = None;
            core::mem::swap(&mut taken, &mut link);
            match taken {
                None => {
                    going = false;
                },
                Some(node) => {
                    let inner = *node;
                    link = inner.next;
                },
            }
        }
    }
}

impl<T: EqTest> NodeChain<T> {
    /// All zero-based positions whose element equals `target`, from head
    /// to tail, or nothing when no element matches.
    pub fn find(&self, target: T) -> (r: Option<Vec<usize>>)
        requires
            self.wf(),
        ensures
            match r {
                Some(v) => v@.len() > 0 && (forall|a: int, b: int|
                    0 <= a < b < v@.len() ==> v@[a] < v@[b]) && (forall|a: int|
                    0 <= a < v@.len() ==> v@[a] < self@.len() && self@[v@[a] as int] == target) && (
                forall|m: int|
                    0 <= m < self@.len() && self@[m] == target ==> v@.contains(m as usize)),
                None => forall|m: int| 0 <= m < self@.len() ==> self@[m] != target,
            },
    {
        let ghost whole = self@;
        let mut found: Vec<usize> = Vec::new();
        let mut cur: &Option<Box<Node<T>>> = &self.head;
        let mut i: usize = 0;
        proof {
            assert(whole.subrange(0, whole.len() as int) =~= whole);
        }
        while cur.is_some()
            invariant
                i <= whole.len(),
                whole.len() <= usize::MAX,
                whole == self@,
                link_view(*cur) == whole.subrange(i as int, whole.len() as int),
                forall|a: int|
                    0 <= a < found@.len() ==> #[trigger] found@[a] < i && whole[found@[a] as int]
                        == target,
                forall|a: int, b: int| 0 <= a < b < found@.len() ==> found@[a] < found@[b],
                forall|m: int| 0 <= m < i && whole[m] == target ==> found@.contains(m as usize),
            decreases link_view(*cur).len(),
        {
            if let Some(node) = cur {
                proof {
                    assert(link_view(*cur) == node_view(**node));
                    assert(node_view(**node)[0] == node.element);
                    assert(whole.subrange(i as int, whole.len() as int)[0] == whole[i as int]);
                    assert(whole[i as int] == node.element);
                }
                let ghost f0 = found@;
                if node.element.eq_test(&target) {
                    found.push(i);
                    proof {
                        assert forall|m: int|
                            0 <= m < i + 1 && whole[m] == target implies found@.contains(
                            m as usize,
                        ) by {
                            if m < i {
                                let a = choose|a: int| 0 <= a < f0.len() && f0[a] == m as usize;
                                assert(found@[a] == m as usize);
                            } else {
                                assert(found@[f0.len() as int] == i);
                            }
                        }
                    }
                } else {
                    proof {
                        assert forall|m: int|
                            0 <= m < i + 1 && whole[m] == target implies found@.contains(
                            m as usize,
                        ) by {
                            assert(m < i);
                        }
                    }
                }
                proof {
                    assert(node_view(**node).drop_first() =~= link_view(node.next));
                    assert(whole.subrange(i as int, whole.len() as int).drop_first() =~= whole.subrange(
                        i as int + 1,
                        whole.len() as int,
                    ));
                    assert(link_view(node.next) =~= whole.subrange(
                        i as int + 1,
                        whole.len() as int,
                    ));
                }
                cur = &node.next;
                i += 1;
            }
        }
        proof {
            assert(i == whole.len());
        }
        if found.len() == 0 {
            proof {
                assert forall|m: int| 0 <= m < whole.len() implies whole[m] != target by {
                    if whole[m] == target {
                        assert(found@.contains(m as usize));
                    }
                }
            }
            None
        } else {
            Some(found)
        }
    }
}

/// Cursor that owns its chain outright and yields the elements from the
/// head by repeated popping; once exhausted it stays exhausted.
pub struct ConsumingCursor<T>(NodeChain<T>);

impl<T> View for ConsumingCursor<T> {
    type V = Seq<T>;

    closed spec fn view(&self) -> Seq<T> {
        self.0@
    }
}

impl<T> ConsumingCursor<T> {
    /// The inner chain is well formed.
    pub closed spec fn wf(&self) -> bool {
        self.0.wf()
    }

    pub fn next(&mut self) -> (r: Option<T>)
        requires
            old(self).wf(),
        ensures
            final(self).wf(),
            old(self)@.len() == 0 ==> r is None && final(self)@ == old(self)@,
            old(self)@.len() > 0 ==> r == Some(old(self)@[0]) && final(self)@ == old(
                self,
            )@.drop_first(),
    {
        self.0.pop()
    }
}

/// Cursor of shared references that walks the chain without changing it;
/// several may walk one chain at the same time.
pub struct BorrowCursor<'a, T> {
    next: Option<&'a Node<T>>,
}

impl<'a, T> View for BorrowCursor<'a, T> {
    type V = Seq<T>;

    closed spec fn view(&self) -> Seq<T> {
        match self.next {
            None => Seq::empty(),
            Some(node) => node_view(*node),
        }
    }
}

impl<'a, T> BorrowCursor<'a, T> {
    pub fn next(&mut self) -> (r: Option<&'a T>)
        ensures
            old(self)@.len() == 0 ==> r is None && final(self)@ == old(self)@,
            old(self)@.len() > 0 ==> (match r {
                Some(v) => *v == old(self)@[0],
                None => false,
            }) && final(self)@ == old(self)@.drop_first(),
    {
        match self.next {
            None => None,
            Some(node) => {
                self.next = match &node.next {
                    None => None,
                    Some(b) => Some(&**b),
                };
                proof {
                    assert(final(self)@ =~= old(self)@.drop_first());
                }
                Some(&node.element)
            },
        }
    }
}

/// Cursor of exclusive references that walks the chain, handing out one
/// mutable element reference at a time; advancing replaces the held
/// reference with the successor's before the current element's reference
/// is returned, so no two live references ever alias.
pub struct MutBorrowCursor<'a, T> {
    /// The next node to visit.  The field is public so that contracts can
    /// relate the values written through the cursor to the chain it
    /// borrows from.
    pub next: Option<&'a mut Node<T>>,
}

impl<'a, T> MutBorrowCursor<'a, T> {
    /// Hand out the current element's reference and advance to the
    /// successor; nothing once the chain is exhausted, indefinitely.
    pub fn next(&mut self) -> (r: Option<&'a mut T>)
        ensures
            old(self).next is None ==> r is None && final(self).next is None,
            old(self).next is Some ==> {
                let entry = *old(self).next->0;
                &&& r is Some
                &&& *r->0 == node_element(entry)
                &&& node_view(entry) == seq![node_element(entry)] + node_rest(entry)
                &&& (node_rest(entry).len() == 0 ==> final(self).next is None && node_view(
                    *final(old(self).next->0),
                ) == seq![*final(r->0)])
                &&& (node_rest(entry).len() > 0 ==> final(self).next is Some && node_view(
                    *final(self).next->0,
                ) == node_rest(entry) && node_view(*final(old(self).next->0)) == seq![
                    *final(r->0),
                ] + node_view(*final(final(self).next->0)))
            },
    {
        match self.next.take() {
            None => None,
            Some(node) => {
                let Node { element, next } = node;
                let link: Option<&'a mut Node<T>> = match next {
                    None => None,
                    Some(b) => Some(&mut **b),
                };
                self.next = link;
                Some(element)
            },
        }
    }
}

/// Inserting at position zero builds exactly the chain that a push
/// builds: a new head in front of the old contents.
pub proof fn lemma_insert_at_zero_is_push<T>(s: Seq<T>, x: T)
    ensures
        s.insert(0, x) == seq![x] + s,
{
    assert(s.insert(0, x) =~= seq![x] + s);
}

/// After pushing `a` and then `b` onto a chain, the head is `b` and the
/// two new elements stand in front of the old contents in the order
/// `b`, `a`; on an empty chain a full traversal therefore yields exactly
/// `[b, a]`.
pub proof fn lemma_push_push_order<T>(s: Seq<T>, a: T, b: T)
    ensures
        (seq![b] + (seq![a] + s))[0] == b,
        seq![b] + (seq![a] + s) =~= seq![b, a] + s,
        seq![b] + (seq![a] + Seq::<T>::empty()) =~= seq![b, a],
{
}

/// Each mutation moves the length by exactly its net effect: a push or a
/// successful insert grows the view by one and a successful removal
/// shrinks it by one, while the operations' own contracts say that a
/// removal only ever succeeds on a chain with something to remove.
pub proof fn lemma_length_accounting<T>(s: Seq<T>, x: T, i: int)
    requires
        0 <= i <= s.len(),
    ensures
        (seq![x] + s).len() == s.len() + 1,
        s.insert(i, x).len() == s.len() + 1,
        i < s.len() ==> s.remove(i).len() == s.len() - 1,
        s.len() > 0 ==> s.drop_first().len() == s.len() - 1,
{
}

} // verus!
