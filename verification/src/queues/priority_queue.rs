//! A priority queue that hands its items out in ascending order.
//!
//! The queue keeps its items in a linked list, smallest first. An item is
//! inserted behind every item that it is greater than or equal to, so items
//! that compare equal leave in the order in which they came.

use crate::linkedlist::LinkedList;
use crate::model::{front, lemma_taken, taken, without_front};
use vstd::multiset::Multiset;
use vstd::prelude::*;
use vstd::std_specs::cmp::{PartialOrdIs, PartialOrdSpec};

verus! {

/// Whether `>=` on `T` is known to compute what `ge` states.
pub open spec fn comparison_specified<T: PartialOrd>() -> bool {
    T::obeys_partial_cmp_spec()
}

/// `a >= b`. Two items that cannot be compared are not `>=` either way.
pub open spec fn ge<T: PartialOrd>(a: T, b: T) -> bool {
    a.is_ge(&b)
}

/// The index at which `data` is inserted into `items`: the number of
/// leading items that `data` is greater than or equal to.
pub open spec fn insert_point<T: PartialOrd>(items: Seq<T>, data: T) -> int
    decreases items.len(),
{
    if items.len() == 0 || !ge(data, items[0]) {
        0
    } else {
        1 + insert_point(items.drop_first(), data)
    }
}

/// `items` with `data` inserted in order.
pub open spec fn inserted<T: PartialOrd>(items: Seq<T>, data: T) -> Seq<T> {
    items.insert(insert_point(items, data), data)
}

/// Whether `items` is in non-decreasing order: no item is followed, at any
/// distance, by one that it is not less than or equal to.
pub open spec fn ascending<T: PartialOrd>(items: Seq<T>) -> bool {
    forall|i: int, j: int| 0 <= i < j < items.len() ==> ge(#[trigger] items[j], #[trigger] items[i])
}

/// Whether `>=` orders `T` totally: any two items compare one way or the
/// other, and the comparison is transitive.
pub open spec fn totally_ordered<T: PartialOrd>() -> bool {
    &&& forall|a: T, b: T| #[trigger] ge(a, b) || ge(b, a)
    &&& forall|a: T, b: T, c: T| #[trigger] ge(a, b) && #[trigger] ge(b, c) ==> ge(a, c)
}

/// The machine integers are totally ordered by `>=`, and the comparison is
/// specified for them.
pub proof fn lemma_integers_totally_ordered()
    ensures
        comparison_specified::<u8>() && totally_ordered::<u8>(),
        comparison_specified::<u16>() && totally_ordered::<u16>(),
        comparison_specified::<u32>() && totally_ordered::<u32>(),
        comparison_specified::<u64>() && totally_ordered::<u64>(),
        comparison_specified::<u128>() && totally_ordered::<u128>(),
        comparison_specified::<usize>() && totally_ordered::<usize>(),
        comparison_specified::<i8>() && totally_ordered::<i8>(),
        comparison_specified::<i16>() && totally_ordered::<i16>(),
        comparison_specified::<i32>() && totally_ordered::<i32>(),
        comparison_specified::<i64>() && totally_ordered::<i64>(),
        comparison_specified::<i128>() && totally_ordered::<i128>(),
        comparison_specified::<isize>() && totally_ordered::<isize>(),
{
}

/// The insertion point lies in the sequence or at its end; `data` is `>=`
/// every item before it, and not `>=` the item at it.
pub proof fn lemma_insert_point<T: PartialOrd>(items: Seq<T>, data: T)
    ensures
        0 <= insert_point(items, data) <= items.len(),
        forall|i: int| 0 <= i < insert_point(items, data) ==> ge(data, #[trigger] items[i]),
        insert_point(items, data) < items.len() ==> !ge(data, items[insert_point(items, data)]),
    decreases items.len(),
{
    if items.len() == 0 || !ge(data, items[0]) {
    } else {
        let rest = items.drop_first();
        lemma_insert_point(rest, data);
        assert forall|i: int| 0 <= i < insert_point(items, data) implies ge(
            data,
            #[trigger] items[i],
        ) by {
            if i > 0 {
                assert(items[i] == rest[i - 1]);
            }
        }
        if insert_point(items, data) < items.len() {
            assert(items[insert_point(items, data)] == rest[insert_point(rest, data)]);
        }
    }
}

/// Insertion keeps an ascending sequence ascending, where `>=` orders the
/// items totally.
pub proof fn lemma_insert_ascending<T: PartialOrd>(items: Seq<T>, data: T)
    requires
        totally_ordered::<T>(),
        ascending(items),
    ensures
        ascending(inserted(items, data)),
{
    lemma_insert_point(items, data);
    let at: int = insert_point(items, data);
    let grown = inserted(items, data);
    assert forall|i: int, j: int| 0 <= i < j < grown.len() implies ge(
        #[trigger] grown[j],
        #[trigger] grown[i],
    ) by {
        if j < at {
            assert(grown[i] == items[i] && grown[j] == items[j]);
        } else if j == at {
            assert(grown[i] == items[i]);
        } else if i == at {
            assert(grown[j] == items[j - 1]);
            assert(ge(items[at], data));
            if j - 1 > at {
                assert(ge(items[j - 1], items[at]));
            }
        } else if i < at {
            assert(grown[i] == items[i] && grown[j] == items[j - 1]);
        } else {
            assert(grown[i] == items[i - 1] && grown[j] == items[j - 1]);
        }
    }
}

/// An item goes behind the items that compare equal to it. In an ascending
/// sequence of totally ordered items, `data` is greater than or equal to no
/// item from its insertion point on: every item that `data` is greater than
/// or equal to, and so every item equal to `data`, stands before `data` and
/// leaves before it.
pub proof fn lemma_insert_behind_equals<T: PartialOrd>(items: Seq<T>, data: T)
    requires
        totally_ordered::<T>(),
        ascending(items),
    ensures
        forall|i: int|
            insert_point(items, data) <= i < items.len() ==> !ge(data, #[trigger] items[i]),
{
    lemma_insert_point(items, data);
    let at: int = insert_point(items, data);
    assert forall|i: int| at <= i < items.len() implies !ge(data, #[trigger] items[i]) by {
        if i > at && ge(data, items[i]) {
            assert(ge(items[i], items[at]));
            assert(ge(data, items[at]));
        }
    }
}

/// The contents of a queue that held `items` after each of `new` was
/// inserted, the first of them first.
pub open spec fn inserted_all<T: PartialOrd>(items: Seq<T>, new: Seq<T>) -> Seq<T>
    decreases new.len(),
{
    if new.len() == 0 {
        items
    } else {
        inserted(inserted_all(items, new.drop_last()), new.last())
    }
}

/// Any inserts into an ascending queue leave it ascending, and leave in it
/// exactly the items it held and those inserted, each as often as it came.
pub proof fn lemma_inserted_all<T: PartialOrd>(items: Seq<T>, new: Seq<T>)
    requires
        totally_ordered::<T>(),
        ascending(items),
    ensures
        ascending(inserted_all(items, new)),
        inserted_all(items, new).len() == items.len() + new.len(),
        inserted_all(items, new).to_multiset() == items.to_multiset().add(new.to_multiset()),
    decreases new.len(),
{
    broadcast use vstd::seq_lib::group_to_multiset_ensures;

    if new.len() == 0 {
        assert(new.to_multiset() =~= Multiset::<T>::empty());
        assert(items.to_multiset().add(new.to_multiset()) =~= items.to_multiset());
    } else {
        let before = inserted_all(items, new.drop_last());
        lemma_inserted_all(items, new.drop_last());
        lemma_insert_ascending(before, new.last());
        lemma_insert_point(before, new.last());
        assert(new =~= new.drop_last().push(new.last()));
        assert(inserted_all(items, new).to_multiset() =~= items.to_multiset().add(
            new.to_multiset(),
        ));
    }
}

/// After any inserts into an empty queue, as many pops return the inserted
/// items in non-decreasing order: none is followed by one that it is not
/// less than or equal to.
pub proof fn lemma_pops_ascending<T: PartialOrd>(new: Seq<T>, i: int, j: int)
    requires
        totally_ordered::<T>(),
        0 <= i < j < new.len(),
    ensures
        ({
            let popped = taken(inserted_all(Seq::empty(), new), new.len());
            &&& popped[i].is_some()
            &&& popped[j].is_some()
            &&& ge(popped[j].unwrap(), popped[i].unwrap())
        }),
{
    let queue = inserted_all(Seq::<T>::empty(), new);
    lemma_inserted_all(Seq::<T>::empty(), new);
    lemma_taken(queue, new.len());
    assert(ge(queue[j], queue[i]));
}

/// Priority queue: its items leave smallest first.
pub struct PriorityQueue<T> {
    list: LinkedList<T>,
}

impl<T> View for PriorityQueue<T> {
    type V = Seq<T>;

    /// The items of the queue, in the order in which they will leave.
    closed spec fn view(&self) -> Seq<T> {
        self.list@
    }
}

impl<T: Copy + PartialOrd> PriorityQueue<T> {
    /// Creates an empty queue.
    pub fn new() -> (queue: Self)
        ensures
            queue@ == Seq::<T>::empty(),
            ascending(queue@),
    {
        Self { list: LinkedList::new() }
    }

    /// Adds `data` behind every item that it is greater than or equal to.
    pub fn insert(&mut self, data: T)
        ensures
            comparison_specified::<T>() ==> final(self)@ == inserted(old(self)@, data),
            comparison_specified::<T>() && totally_ordered::<T>() && ascending(old(self)@)
                ==> ascending(final(self)@),
            exists|k: int|
                0 <= k <= old(self)@.len() && final(self)@ == #[trigger] old(self)@.insert(k, data),
    {
        insert_inorder(&mut self.list, data);
        proof {
            if totally_ordered::<T>() && ascending(old(self)@) {
                lemma_insert_ascending(old(self)@, data);
            }
            let k: int = choose|k: int|
                0 <= k <= old(self)@.len() && self@ == #[trigger] old(self)@.insert(k, data);
            assert(self@ == old(self)@.insert(k, data));
        }
    }

    /// Removes the first item, the smallest of an ascending queue, and
    /// returns it. An empty queue returns `None` and stays as it is.
    pub fn pop(&mut self) -> (item: Option<T>)
        ensures
            item == front(old(self)@),
            final(self)@ == without_front(old(self)@),
            ascending(old(self)@) ==> ascending(final(self)@),
            ascending(old(self)@) ==> forall|i: int|
                0 <= i < final(self)@.len() ==> ge(#[trigger] final(self)@[i], item.unwrap()),
    {
        let item = self.list.pop();
        proof {
            if ascending(old(self)@) && old(self)@.len() > 0 {
                assert forall|i: int, j: int| 0 <= i < j < self@.len() implies ge(
                    #[trigger] self@[j],
                    #[trigger] self@[i],
                ) by {
                    assert(self@[i] == old(self)@[i + 1] && self@[j] == old(self)@[j + 1]);
                }
                assert forall|i: int| 0 <= i < self@.len() implies ge(
                    #[trigger] self@[i],
                    item.unwrap(),
                ) by {
                    assert(self@[i] == old(self)@[i + 1]);
                }
            }
        }
        item
    }

    /// Removes the first item and returns it, as `pop` does. Called until it
    /// returns `None`, it hands out every item in the order of the queue and
    /// leaves the queue empty.
    pub fn next(&mut self) -> (item: Option<T>)
        ensures
            item == front(old(self)@),
            final(self)@ == without_front(old(self)@),
            ascending(old(self)@) ==> ascending(final(self)@),
            ascending(old(self)@) ==> forall|i: int|
                0 <= i < final(self)@.len() ==> ge(#[trigger] final(self)@[i], item.unwrap()),
    {
        self.pop()
    }

    /// Drains the queue into a vector, in the order of the queue.
    pub fn collect(self) -> (items: Vec<T>)
        ensures
            items@ == self@,
    {
        self.list.collect()
    }

    /// Returns the first item without removing it, or `None` when the
    /// queue is empty.
    pub fn peek(&self) -> (item: Option<T>)
        ensures
            item == front(self@),
    {
        self.list.peek()
    }
}

/// Inserts `data` into `ll` in front of the first item that it is not greater
/// than or equal to, or at the end where there is no such item.
fn insert_inorder<T: Copy + PartialOrd>(ll: &mut LinkedList<T>, data: T)
    ensures
        comparison_specified::<T>() ==> final(ll)@ == inserted(old(ll)@, data),
        exists|k: int|
            0 <= k <= old(ll)@.len() && final(ll)@ == #[trigger] old(ll)@.insert(k, data),
    decreases *old(ll),
{
    let ghost rest = without_front(old(ll)@);
    match ll.0 {
        None => {
            ll.append(data);
            proof {
                assert(ll@ =~= old(ll)@.insert(0, data));
            }
        },
        Some((it, ref mut child)) => {
            if data >= it {
                proof {
                    assert(rest =~= child.elements());
                }
                insert_inorder(child, data);
                proof {
                    let grown = ll@.drop_first();
                    assert(grown =~= match ll.0 {
                        Some((_, after)) => after.elements(),
                        None => Seq::empty(),
                    });
                    let k: int = choose|k: int|
                        0 <= k <= rest.len() && grown == #[trigger] rest.insert(k, data);
                    assert(ll@ =~= old(ll)@.insert(k + 1, data));
                    if comparison_specified::<T>() {
                        lemma_insert_point(rest, data);
                        assert(grown == rest.insert(insert_point(rest, data), data));
                        assert(ll@ =~= old(ll)@.insert(1 + insert_point(rest, data), data));
                    }
                }
            } else {
                ll.insert_here(data);
                proof {
                    assert(ll@ =~= old(ll)@.insert(0, data));
                }
            }
        },
    }
}

} // verus!
