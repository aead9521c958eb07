//! A singly linked list.
//!
//! The list is a chain of nodes, each owning its successor. It supports
//! insertion at both ends and at an index, removal at the head, and can be
//! drained front to back. Used through `push` and `pop` alone it is a stack.

use crate::model::{front, left, lemma_taken, taken, without_front};
use vstd::prelude::*;
use vstd::std_specs::iter::IteratorSpec;

verus! {

/// Singly linked list: either empty, or a value and the list that follows it.
pub struct LinkedList<T>(pub Option<(T, Box<LinkedList<T>>)>);

/// The LIFO stack: a linked list on which only `push` and `pop` are used.
pub type Stack<T> = LinkedList<T>;

impl<T> LinkedList<T> {
    /// The items of the list, head first.
    pub open spec fn elements(&self) -> Seq<T>
        decreases self,
    {
        match self.0 {
            None => Seq::empty(),
            Some((head, tail)) => seq![head] + tail.elements(),
        }
    }
}

impl<T> View for LinkedList<T> {
    type V = Seq<T>;

    open spec fn view(&self) -> Seq<T> {
        self.elements()
    }
}

/// The index at which `insert` places an item: `n`, or the end of the list
/// where `n` lies beyond it.
pub open spec fn clamped_index(n: usize, len: nat) -> int {
    if n <= len {
        n as int
    } else {
        len as int
    }
}

impl<T: Copy> LinkedList<T> {
    /// Creates an empty list.
    pub fn new() -> (list: Self)
        ensures
            list@ == Seq::<T>::empty(),
    {
        Self(None)
    }

    /// Adds `data` at the end of the list.
    pub fn append(&mut self, data: T)
        ensures
            final(self)@ == old(self)@.push(data),
        decreases *old(self),
    {
        match self.0 {
            Some(ref mut ll) => ll.1.append(data),
            None => self.0 = Some((data, Box::new(LinkedList::new()))),
        };
    }

    /// Adds `data` at the front of the list.
    pub fn push(&mut self, data: T)
        ensures
            final(self)@ == seq![data] + old(self)@,
    {
        let mut new_ll = LinkedList::new();
        new_ll.0 = self.0.take();
        self.0 = Some((data, Box::new(new_ll)))
    }

    /// Removes the first item and returns it, or returns `None` and leaves
    /// the list as it is when the list is empty.
    pub fn pop(&mut self) -> (head: Option<T>)
        ensures
            head == front(old(self)@),
            final(self)@ == without_front(old(self)@),
    {
        match self.0.take() {
            None => None,
            Some((data, child)) => {
                *self = *child;
                Some(data)
            },
        }
    }

    /// Returns the first item without removing it, or `None` when the list
    /// is empty.
    pub fn peek(&self) -> (head: Option<T>)
        ensures
            head == front(self@),
    {
        Some(self.0.as_ref()?.0)
    }

    /// Inserts `data` so that it becomes the item at index `n`. Where `n`
    /// lies beyond the end of the list, `data` is added at the end.
    pub fn insert(&mut self, data: T, n: usize)
        ensures
            final(self)@ == old(self)@.insert(clamped_index(n, old(self)@.len()), data),
        decreases *old(self),
    {
        match self.0 {
            None => self.append(data),
            Some((_, ref mut child)) => {
                if n > 0 {
                    child.insert(data, n - 1);
                } else {
                    self.insert_here(data)
                }
            },
        }
    }

    /// Places `data` in front of the node that `self` stands for.
    pub(crate) fn insert_here(&mut self, data: T)
        ensures
            final(self)@ == seq![data] + old(self)@,
    {
        let mut new = LinkedList::new();
        new.append(data);
        std::mem::swap(self, &mut new);
        let child = self.0.as_mut().unwrap();
        child.1 = Box::new(new)
    }

    /// Appends every item that `iter` still yields, in the order in which
    /// they come.
    fn from_helper<I: Iterator<Item = T>>(&mut self, iter: &mut I)
        requires
            (*old(iter)).obeys_prophetic_iter_laws(),
            (*old(iter)).decrease() is Some,
        ensures
            final(self)@ == old(self)@ + (*old(iter)).remaining(),
            (*final(iter)).remaining().len() == 0,
        decreases (*old(iter)).decrease()->0,
    {
        match iter.next() {
            None => {},
            Some(item) => {
                self.append(item);
                let ghost grown = self@;
                let ghost tail = grown.drop_first();
                self.0.as_mut().unwrap().1.from_helper(iter);
                proof {
                    let rest = (*old(iter)).remaining().drop_first();
                    assert(grown =~= seq![grown[0]] + tail);
                    assert(self@ =~= seq![grown[0]] + (tail + rest));
                    assert(self@ =~= old(self)@ + (*old(iter)).remaining());
                }
            },
        };
    }

    /// Builds a list from the items of `list`, in their order.
    pub fn from_iter<I: Iterator<Item = T>>(list: I) -> (ll: Self)
        requires
            list.obeys_prophetic_iter_laws(),
            list.decrease() is Some,
        ensures
            ll@ == list.remaining(),
    {
        let mut ll = LinkedList::new();
        let mut iter = list;
        ll.from_helper(&mut iter);
        ll
    }

    /// Removes the first item and returns it, as `pop` does. Called until it
    /// returns `None`, it hands out every item, front to back, and leaves
    /// the list empty.
    pub fn next(&mut self) -> (item: Option<T>)
        ensures
            item == front(old(self)@),
            final(self)@ == without_front(old(self)@),
    {
        self.pop()
    }

    /// Drains the list into a vector, front first.
    pub fn collect(self) -> (items: Vec<T>)
        ensures
            items@ == self@,
    {
        let mut list = self;
        let mut items: Vec<T> = Vec::new();
        loop
            invariant
                items@ + list@ == self@,
            ensures
                items@ == self@,
            decreases list@.len(),
        {
            match list.next() {
                Some(item) => {
                    items.push(item);
                    proof {
                        assert(items@ + list@ =~= self@);
                    }
                },
                None => {
                    proof {
                        assert(items@ =~= items@ + list@);
                    }
                    break;
                },
            }
        }
        items
    }
}

impl<T: Copy> Clone for LinkedList<T> {
    /// Copies the list, node by node.
    fn clone(&self) -> (copy: Self)
        ensures
            copy == *self,
        decreases self,
    {
        match &self.0 {
            None => LinkedList(None),
            Some((data, child)) => LinkedList(Some((*data, Box::new((**child).clone())))),
        }
    }
}

/// The contents of a stack that held `items` after each of `pushes` was
/// pushed onto it, the first of them first.
pub open spec fn pushed_all<T>(items: Seq<T>, pushes: Seq<T>) -> Seq<T>
    decreases pushes.len(),
{
    if pushes.len() == 0 {
        items
    } else {
        seq![pushes.last()] + pushed_all(items, pushes.drop_last())
    }
}

/// Last in, first out: after any pushes, as many pops return the pushed
/// items in reverse order, the last one first, and leave the stack as it was
/// before the pushes.
pub proof fn lemma_lifo<T>(items: Seq<T>, pushes: Seq<T>)
    ensures
        pushed_all(items, pushes) == pushes.reverse() + items,
        forall|k: int|
            0 <= k < pushes.len() ==> #[trigger] taken(
                pushed_all(items, pushes),
                pushes.len(),
            )[k] == Some(pushes[pushes.len() - 1 - k]),
        left(pushed_all(items, pushes), pushes.len()) == items,
    decreases pushes.len(),
{
    if pushes.len() > 0 {
        lemma_lifo(items, pushes.drop_last());
    }
    assert(pushed_all(items, pushes) =~= pushes.reverse() + items);
    let stack = pushed_all(items, pushes);
    lemma_taken(stack, pushes.len());
    assert(stack.subrange(pushes.len() as int, stack.len() as int) =~= items);
}

} // verus!
