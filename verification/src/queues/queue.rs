//! A FIFO queue on a ring buffer.
//!
//! The queue keeps its items in a buffer of `capacity` slots and two indices
//! into it: `head`, the slot of the oldest item, and `tail`, the slot that the
//! next item goes to. Both wrap around at `capacity`. One slot always stays
//! free, so that `head == tail` can only mean that the queue is empty; a queue
//! of capacity `c` therefore holds at most `c - 1` items. An item that arrives
//! when only that one slot is free makes the buffer double first.

use crate::model::{front, left, lemma_taken, without_front};
use vstd::arithmetic::div_mod::lemma_fundamental_div_mod_converse;
use vstd::prelude::*;

verus! {

/// The capacity of a queue made by `Queue::new`.
pub const DEFAULT_INIT_QUEUE_CAPACITY: usize = 32;

/// The number of items in a ring of `capacity` slots whose oldest item is in
/// slot `head` and whose next free slot is `tail`.
pub open spec fn ring_len(head: int, tail: int, capacity: int) -> int {
    if tail >= head {
        tail - head
    } else {
        capacity - head + tail
    }
}

/// The slot that follows `index` in a ring of `capacity` slots.
pub open spec fn ring_next(index: int, capacity: int) -> int {
    (index + 1) % capacity
}

/// The slot of the item `offset` places behind the one in slot `head`.
pub open spec fn ring_slot(head: int, offset: int, capacity: int) -> int {
    (head + offset) % capacity
}

/// Whether slot `index` lies between `head` and `tail`, that is, holds an item.
pub open spec fn ring_live(head: int, tail: int, index: int) -> bool {
    if head <= tail {
        head <= index < tail
    } else {
        head <= index || index < tail
    }
}

/// A remainder by `capacity` of a value below twice the capacity takes at most
/// one subtraction.
pub proof fn lemma_ring_wrap(value: int, capacity: int)
    requires
        0 < capacity,
        0 <= value < 2 * capacity,
    ensures
        value % capacity == if value < capacity {
            value
        } else {
            value - capacity
        },
{
    if value < capacity {
        lemma_fundamental_div_mod_converse(value, capacity, 0, value);
    } else {
        lemma_fundamental_div_mod_converse(value, capacity, 1, value - capacity);
    }
}

/// FIFO queue on a ring buffer that doubles when it runs full.
#[derive(Debug)]
pub struct Queue<T> {
    list: Vec<Option<T>>,
    capacity: usize,
    head: usize,
    tail: usize,
}

impl<T> View for Queue<T> {
    type V = Seq<T>;

    /// The items of the queue, oldest first.
    closed spec fn view(&self) -> Seq<T> {
        Seq::new(
            ring_len(self.head as int, self.tail as int, self.capacity as int) as nat,
            |k: int| self.list@[ring_slot(self.head as int, k, self.capacity as int)].unwrap(),
        )
    }
}

impl<T> Queue<T> {
    /// The number of slots of the buffer.
    pub closed spec fn spec_capacity(&self) -> usize {
        self.capacity
    }

    /// The slot of the oldest item.
    pub closed spec fn spec_head(&self) -> usize {
        self.head
    }

    /// The slot that the next item goes to.
    pub closed spec fn spec_tail(&self) -> usize {
        self.tail
    }

    /// What slot `index` of the buffer holds: an item, or nothing.
    pub closed spec fn spec_get(&self, index: int) -> Option<T> {
        if 0 <= index < self.list@.len() {
            self.list@[index]
        } else {
            None
        }
    }

    /// The invariant of the queue: the capacity is at least 2, both indices
    /// lie below it, and exactly the slots from `head` up to `tail` hold an
    /// item.
    pub closed spec fn wf(&self) -> bool {
        &&& 2 <= self.capacity
        &&& self.head < self.capacity
        &&& self.tail < self.capacity
        &&& self.list@.len() <= self.capacity
        &&& self.head <= self.tail ==> self.tail <= self.list@.len()
        &&& self.tail < self.head ==> self.list@.len() == self.capacity
        &&& forall|j: int|
            0 <= j < self.list@.len() ==> ((#[trigger] self.list@[j]).is_some() <==> ring_live(
                self.head as int,
                self.tail as int,
                j,
            ))
    }

    /// What the invariant says, in terms that callers can see: the bounds on
    /// the indices, the length that they give, the one slot that stays free,
    /// and which slot holds which item. Every slot that holds no item of the
    /// queue is empty.
    pub proof fn lemma_wf(&self)
        requires
            self.wf(),
        ensures
            2 <= self.spec_capacity(),
            self.spec_head() < self.spec_capacity(),
            self.spec_tail() < self.spec_capacity(),
            self@.len() == ring_len(
                self.spec_head() as int,
                self.spec_tail() as int,
                self.spec_capacity() as int,
            ),
            self@.len() < self.spec_capacity(),
            (self@.len() == 0) == (self.spec_head() == self.spec_tail()),
            (self@.len() + 1 == self.spec_capacity()) == (ring_next(
                self.spec_tail() as int,
                self.spec_capacity() as int,
            ) == self.spec_head()),
            forall|k: int|
                0 <= k < self@.len() ==> self.spec_get(
                    ring_slot(self.spec_head() as int, k, self.spec_capacity() as int),
                ) == Some(#[trigger] self@[k]),
            forall|j: int|
                (#[trigger] self.spec_get(j)).is_some() <==> 0 <= j < self.spec_capacity()
                    && ring_live(self.spec_head() as int, self.spec_tail() as int, j),
    {
        lemma_ring_wrap(self.tail + 1, self.capacity as int);
        assert forall|k: int| 0 <= k < self@.len() implies self.spec_get(
            ring_slot(self.spec_head() as int, k, self.spec_capacity() as int),
        ) == Some(#[trigger] self@[k]) by {
            lemma_ring_wrap(self.head + k, self.capacity as int);
        }
    }

    /// Creates an empty queue with the default capacity.
    pub fn new() -> (queue: Self)
        ensures
            queue.wf(),
            queue@ == Seq::<T>::empty(),
            queue.spec_capacity() == DEFAULT_INIT_QUEUE_CAPACITY,
            queue.spec_head() == 0,
            queue.spec_tail() == 0,
    {
        Queue::with_capacity(DEFAULT_INIT_QUEUE_CAPACITY)
    }

    /// Creates an empty queue with `capacity` slots, of which `capacity - 1`
    /// can be filled before the buffer grows.
    pub fn with_capacity(capacity: usize) -> (queue: Self)
        requires
            capacity >= 2,
        ensures
            queue.wf(),
            queue@ == Seq::<T>::empty(),
            queue.spec_capacity() == capacity,
            queue.spec_head() == 0,
            queue.spec_tail() == 0,
    {
        Self { list: Vec::with_capacity(capacity), capacity, head: 0, tail: 0 }
    }

    /// The number of slots of the buffer.
    pub fn capacity(&self) -> (capacity: usize)
        ensures
            capacity == self.spec_capacity(),
    {
        self.capacity
    }

    /// The slot of the oldest item.
    pub fn head(&self) -> (head: usize)
        ensures
            head == self.spec_head(),
    {
        self.head
    }

    /// The slot that the next item goes to.
    pub fn tail(&self) -> (tail: usize)
        ensures
            tail == self.spec_tail(),
    {
        self.tail
    }

    /// Checks whether the queue holds no item.
    pub fn empty(&self) -> (empty: bool)
        requires
            self.wf(),
        ensures
            empty == (self@.len() == 0),
            empty == (self.spec_head() == self.spec_tail()),
    {
        self.head == self.tail
    }

    /// The number of items in the queue.
    pub fn len(&self) -> (len: usize)
        requires
            self.wf(),
        ensures
            len == self@.len(),
            len < self.spec_capacity(),
            len == ring_len(
                self.spec_head() as int,
                self.spec_tail() as int,
                self.spec_capacity() as int,
            ),
    {
        if self.head > self.tail {
            self.capacity - self.head + self.tail
        } else {
            self.tail - self.head
        }
    }

    /// What slot `index` of the buffer holds: an item, or nothing.
    pub fn get(&self, index: usize) -> (slot: Option<&T>)
        ensures
            slot == match self.spec_get(index as int) {
                Some(item) => Some(&item),
                None => None,
            },
    {
        if index < self.list.len() {
            self.list[index].as_ref()
        } else {
            None
        }
    }

    /// Adds an item at the back of the queue. Where only one slot is free,
    /// the buffer doubles first.
    pub fn enqueue(&mut self, data: T)
        requires
            old(self).wf(),
            old(self)@.len() + 1 < old(self).spec_capacity() || 2 * old(self).spec_capacity()
                <= usize::MAX,
        ensures
            final(self).wf(),
            final(self)@ == old(self)@.push(data),
            old(self)@.len() + 1 < old(self).spec_capacity() ==> {
                &&& final(self).spec_capacity() == old(self).spec_capacity()
                &&& final(self).spec_head() == old(self).spec_head()
                &&& final(self).spec_tail() == ring_next(
                    old(self).spec_tail() as int,
                    old(self).spec_capacity() as int,
                )
                &&& final(self).spec_get(old(self).spec_tail() as int) == Some(data)
            },
            old(self)@.len() + 1 >= old(self).spec_capacity() ==> {
                &&& final(self).spec_capacity() == 2 * old(self).spec_capacity()
                &&& final(self).spec_head() == 0
                &&& final(self).spec_tail() == old(self)@.len() + 1
                &&& final(self).spec_get(old(self)@.len() as int) == Some(data)
            },
    {
        if !self.has_space() {
            self.resize();
        }
        let ghost before = *self;
        if self.list.len() > self.tail {
            self.list[self.tail] = Some(data);
        } else {
            self.list.push(Some(data));
        }
        self.incr_tail();
        proof {
            lemma_ring_wrap(before.tail + 1, before.capacity as int);
            assert(self@.len() == before@.len() + 1);
            assert forall|k: int| 0 <= k < before@.len() implies self@[k] == before@[k] by {
                lemma_ring_wrap(before.head + k, before.capacity as int);
            }
            lemma_ring_wrap(before.head + before@.len(), before.capacity as int);
            assert(self@ =~= before@.push(data));
        }
    }

    /// Removes the oldest item and returns it. An empty queue returns `None`
    /// and stays as it is.
    pub fn dequeue(&mut self) -> (item: Option<T>)
        requires
            old(self).wf(),
        ensures
            final(self).wf(),
            item == front(old(self)@),
            final(self)@ == without_front(old(self)@),
            final(self).spec_capacity() == old(self).spec_capacity(),
            final(self).spec_tail() == old(self).spec_tail(),
            item.is_none() ==> *final(self) == *old(self),
            item.is_some() ==> {
                &&& final(self).spec_head() == ring_next(
                    old(self).spec_head() as int,
                    old(self).spec_capacity() as int,
                )
                &&& final(self).spec_get(old(self).spec_head() as int).is_none()
            },
    {
        if self.empty() {
            None
        } else {
            let item = self.list[self.head].take();
            self.incr_head();
            proof {
                lemma_ring_wrap(old(self).head + 1, self.capacity as int);
                assert forall|k: int| 0 <= k < self@.len() implies self@[k] == old(self)@[k + 1] by {
                    lemma_ring_wrap(self.head + k, self.capacity as int);
                    lemma_ring_wrap(old(self).head + (k + 1), self.capacity as int);
                }
                lemma_ring_wrap(old(self).head + 0, self.capacity as int);
                assert(self@ =~= old(self)@.drop_first());
            }
            item
        }
    }

    /// Doubles the capacity of the buffer. The items move to the front of
    /// the new buffer, oldest first. `enqueue` calls this when the buffer is
    /// full; a caller may do so to make room ahead of time.
    pub fn resize(&mut self)
        requires
            old(self).wf(),
            2 * old(self).spec_capacity() <= usize::MAX,
        ensures
            final(self).wf(),
            final(self)@ == old(self)@,
            final(self).spec_capacity() == 2 * old(self).spec_capacity(),
            final(self).spec_head() == 0,
            final(self).spec_tail() == old(self)@.len(),
            forall|k: int|
                0 <= k < old(self)@.len() ==> #[trigger] final(self).spec_get(k) == Some(
                    old(self)@[k],
                ),
    {
        let mut new_list: Vec<Option<T>> = Vec::with_capacity(self.capacity * 2);
        if self.head <= self.tail {
            move_slots(&mut self.list, self.head, self.tail, &mut new_list);
        } else {
            let end: usize = self.list.len();
            move_slots(&mut self.list, self.head, end, &mut new_list);
            move_slots(&mut self.list, 0, self.tail, &mut new_list);
        }
        self.list = new_list;
        self.capacity = self.capacity * 2;
        self.head = 0;
        self.tail = self.list.len();
        proof {
            assert forall|k: int| 0 <= k < self@.len() implies self@[k] == old(self)@[k] by {
                lemma_ring_wrap(k, self.capacity as int);
                lemma_ring_wrap(old(self).head + k, old(self).capacity as int);
            }
            assert(self@ =~= old(self)@);
            assert forall|k: int| 0 <= k < old(self)@.len() implies #[trigger] self.spec_get(k)
                == Some(old(self)@[k]) by {
                lemma_ring_wrap(k, self.capacity as int);
                assert(self.list@[k].is_some());
                assert(self@[k] == old(self)@[k]);
            }
        }
    }

    /// Whether an item can be added without growing the buffer.
    fn has_space(&self) -> (space: bool)
        requires
            self.wf(),
        ensures
            space == (self.head != ring_next(self.tail as int, self.capacity as int)),
            space == (self@.len() + 1 < self.capacity),
    {
        proof {
            lemma_ring_wrap(self.tail + 1, self.capacity as int);
        }
        self.head != (self.tail + 1) % self.capacity
    }

    /// Moves `head` to the next slot.
    fn incr_head(&mut self)
        requires
            0 < old(self).capacity,
            old(self).head < old(self).capacity,
        ensures
            final(self).head == ring_next(old(self).head as int, old(self).capacity as int),
            final(self).head < old(self).capacity,
            final(self).tail == old(self).tail,
            final(self).capacity == old(self).capacity,
            final(self).list == old(self).list,
    {
        proof {
            lemma_ring_wrap(self.head + 1, self.capacity as int);
        }
        self.head = (self.head + 1) % self.capacity;
    }

    /// Moves `tail` to the next slot.
    fn incr_tail(&mut self)
        requires
            0 < old(self).capacity,
            old(self).tail < old(self).capacity,
        ensures
            final(self).tail == ring_next(old(self).tail as int, old(self).capacity as int),
            final(self).tail < old(self).capacity,
            final(self).head == old(self).head,
            final(self).capacity == old(self).capacity,
            final(self).list == old(self).list,
    {
        proof {
            lemma_ring_wrap(self.tail + 1, self.capacity as int);
        }
        self.tail = (self.tail + 1) % self.capacity;
    }
}

/// One operation on a queue.
pub enum QueueOp<T> {
    /// `enqueue` of the item.
    Enqueue(T),
    /// `dequeue`.
    Dequeue,
}

/// The contents of a queue that held `items` after `op`.
pub open spec fn contents_after<T>(items: Seq<T>, op: QueueOp<T>) -> Seq<T> {
    match op {
        QueueOp::Enqueue(item) => items.push(item),
        QueueOp::Dequeue => without_front(items),
    }
}

/// The contents of a queue that held `items` after the operations `ops`, in
/// their order.
pub open spec fn contents_after_all<T>(items: Seq<T>, ops: Seq<QueueOp<T>>) -> Seq<T>
    decreases ops.len(),
{
    if ops.len() == 0 {
        items
    } else {
        contents_after(contents_after_all(items, ops.drop_last()), ops.last())
    }
}

/// The items that the operations `ops` enqueue, in their order.
pub open spec fn enqueued<T>(ops: Seq<QueueOp<T>>) -> Seq<T>
    decreases ops.len(),
{
    if ops.len() == 0 {
        Seq::empty()
    } else {
        match ops.last() {
            QueueOp::Enqueue(item) => enqueued(ops.drop_last()).push(item),
            QueueOp::Dequeue => enqueued(ops.drop_last()),
        }
    }
}

/// The items that the dequeues among `ops` return, in their order, on a
/// queue that held `items`. A dequeue that finds the queue empty returns
/// nothing.
pub open spec fn dequeued<T>(items: Seq<T>, ops: Seq<QueueOp<T>>) -> Seq<T>
    decreases ops.len(),
{
    if ops.len() == 0 {
        Seq::empty()
    } else {
        let earlier = dequeued(items, ops.drop_last());
        match (ops.last(), front(contents_after_all(items, ops.drop_last()))) {
            (QueueOp::Dequeue, Some(item)) => earlier.push(item),
            _ => earlier,
        }
    }
}

/// First in, first out: however enqueues and dequeues alternate, the items
/// that were dequeued, followed by those still in the queue, are the items
/// that the queue held at first followed by those that were enqueued, in
/// that order. Growth of the buffer has no part in it: `enqueue` adds the item at
/// the back whether or not the buffer grows.
pub proof fn lemma_fifo<T>(items: Seq<T>, ops: Seq<QueueOp<T>>)
    ensures
        dequeued(items, ops) + contents_after_all(items, ops) == items + enqueued(ops),
    decreases ops.len(),
{
    if ops.len() == 0 {
        assert(dequeued(items, ops) + contents_after_all(items, ops) =~= items + enqueued(ops));
    } else {
        let before = ops.drop_last();
        lemma_fifo(items, before);
        let gone = dequeued(items, before);
        let held = contents_after_all(items, before);
        assert(gone + held == items + enqueued(before));
        match ops.last() {
            QueueOp::Enqueue(item) => {
                assert(gone + held.push(item) =~= (gone + held).push(item));
                assert((items + enqueued(before)).push(item) =~= items + enqueued(before).push(
                    item,
                ));
            },
            QueueOp::Dequeue => {
                if held.len() > 0 {
                    assert(gone.push(held[0]) + held.drop_first() =~= gone + held);
                }
            },
        }
    }
}

/// After any enqueues and dequeues, the length of the queue is the length
/// it had at first, plus the number of enqueues, minus the number of
/// dequeues that returned an item.
pub proof fn lemma_len<T>(items: Seq<T>, ops: Seq<QueueOp<T>>)
    ensures
        contents_after_all(items, ops).len() == items.len() + enqueued(ops).len() - dequeued(
            items,
            ops,
        ).len(),
{
    lemma_fifo(items, ops);
    assert((dequeued(items, ops) + contents_after_all(items, ops)).len() == (items + enqueued(
        ops,
    )).len());
}

/// The operations that enqueue each of `items`, in their order.
pub open spec fn enqueue_each<T>(items: Seq<T>) -> Seq<QueueOp<T>> {
    Seq::new(items.len(), |i: int| QueueOp::Enqueue(items[i]))
}

/// `count` dequeues in a row.
pub open spec fn dequeue_times<T>(count: nat) -> Seq<QueueOp<T>> {
    Seq::new(count, |i: int| QueueOp::Dequeue)
}

/// Enqueues alone add the items at the back, in their order.
pub proof fn lemma_enqueue_each<T>(held: Seq<T>, items: Seq<T>)
    ensures
        contents_after_all(held, enqueue_each(items)) == held + items,
        enqueued(enqueue_each(items)) == items,
        dequeued(held, enqueue_each(items)) == Seq::<T>::empty(),
    decreases items.len(),
{
    if items.len() == 0 {
        assert(held + items =~= held);
        assert(enqueued(enqueue_each(items)) =~= items);
    } else {
        let fewer = items.drop_last();
        lemma_enqueue_each(held, fewer);
        assert(enqueue_each(items).drop_last() =~= enqueue_each(fewer));
        assert((held + fewer).push(items.last()) =~= held + items);
        assert(fewer.push(items.last()) =~= items);
    }
}

/// Dequeues at the end of a run take from the front of what the run before
/// them left, and enqueue nothing.
pub proof fn lemma_dequeue_times<T>(held: Seq<T>, ops: Seq<QueueOp<T>>, count: nat)
    ensures
        contents_after_all(held, ops + dequeue_times(count)) == left(
            contents_after_all(held, ops),
            count,
        ),
        enqueued(ops + dequeue_times(count)) == enqueued(ops),
    decreases count,
{
    let run = ops + dequeue_times::<T>(count);
    let rest = contents_after_all(held, ops);
    if count == 0 {
        assert(run =~= ops);
    } else {
        let fewer: nat = (count - 1) as nat;
        lemma_dequeue_times(held, ops, fewer);
        assert(run.drop_last() =~= ops + dequeue_times::<T>(fewer));
        assert(run.last() == QueueOp::<T>::Dequeue);
        lemma_taken(rest, fewer);
        lemma_taken(rest, count);
        if count <= rest.len() {
            assert(rest.subrange(fewer as int, rest.len() as int).drop_first()
                =~= rest.subrange(count as int, rest.len() as int));
        }
    }
}

/// Growth keeps the order: a queue that takes in `items`, however often its
/// buffer has to double for them, and is then dequeued until nothing is
/// left, hands out what it held before and then `items`, each in the order
/// in which it came.
pub proof fn lemma_fill_then_drain<T>(held: Seq<T>, items: Seq<T>)
    ensures
        ({
            let ops = enqueue_each(items) + dequeue_times(held.len() + items.len());
            &&& dequeued(held, ops) == held + items
            &&& contents_after_all(held, ops) == Seq::<T>::empty()
        }),
{
    let count: nat = held.len() + items.len();
    let ops = enqueue_each(items) + dequeue_times::<T>(count);
    lemma_enqueue_each(held, items);
    lemma_dequeue_times(held, enqueue_each(items), count);
    lemma_taken(held + items, count);
    assert((held + items).subrange(count as int, count as int) =~= Seq::<T>::empty());
    lemma_fifo(held, ops);
    assert(dequeued(held, ops) + Seq::<T>::empty() =~= dequeued(held, ops));
}

/// Dequeues on an empty queue return nothing and leave it empty, however
/// often they are repeated.
pub proof fn lemma_dequeue_on_empty<T>(count: nat)
    ensures
        contents_after_all(Seq::<T>::empty(), dequeue_times(count)) == Seq::<T>::empty(),
        dequeued(Seq::<T>::empty(), dequeue_times::<T>(count)) == Seq::<T>::empty(),
{
    let none = Seq::<T>::empty();
    let no_ops = Seq::<QueueOp<T>>::empty();
    let ops = dequeue_times::<T>(count);
    assert(no_ops + ops =~= ops);
    lemma_dequeue_times(none, no_ops, count);
    lemma_taken(none, count);
    if count <= 0 {
        assert(none.subrange(0, 0) =~= none);
    }
    lemma_fifo(none, ops);
    assert(dequeued(none, ops) + none =~= dequeued(none, ops));
    assert(none + enqueued(no_ops) =~= none);
}

/// Takes the items out of the slots `start..end` of `from` and adds them to
/// the end of `to`, in their order. The slots are left empty.
fn move_slots<T>(from: &mut Vec<Option<T>>, start: usize, end: usize, to: &mut Vec<Option<T>>)
    requires
        start <= end <= old(from)@.len(),
    ensures
        final(to)@ == old(to)@ + old(from)@.subrange(start as int, end as int),
        final(from)@.len() == old(from)@.len(),
        forall|j: int|
            0 <= j < old(from)@.len() ==> #[trigger] final(from)@[j] == if start <= j < end {
                None
            } else {
                old(from)@[j]
            },
{
    let mut i: usize = start;
    while i < end
        invariant
            start <= i <= end <= from@.len(),
            from@.len() == old(from)@.len(),
            to@ == old(to)@ + old(from)@.subrange(start as int, i as int),
            forall|j: int|
                0 <= j < from@.len() ==> #[trigger] from@[j] == if start <= j < i {
                    None
                } else {
                    old(from)@[j]
                },
        decreases end - i,
    {
        let item = from[i].take();
        to.push(item);
        i = i + 1;
        proof {
            assert(old(from)@.subrange(start as int, i as int) =~= old(from)@.subrange(
                start as int,
                i - 1,
            ).push(item));
        }
    }
}

} // verus!
