//! The vocabulary in which the contracts of this crate speak of a structure's
//! contents: a sequence of items, front first.
//!
//! Every structure here gives its items up at the front. `front` and
//! `without_front` say what one removal returns and leaves; `taken` and
//! `left` say the same of several removals in a row.

use vstd::prelude::*;

verus! {

/// The first item of `items`, if there is one.
pub open spec fn front<T>(items: Seq<T>) -> Option<T> {
    if items.len() == 0 {
        None
    } else {
        Some(items[0])
    }
}

/// What is left of `items` once its first item is taken away. Nothing can be
/// taken from an empty sequence, which stays as it is.
pub open spec fn without_front<T>(items: Seq<T>) -> Seq<T> {
    if items.len() == 0 {
        items
    } else {
        items.drop_first()
    }
}

/// What `count` removals in a row return, the first removal first.
pub open spec fn taken<T>(items: Seq<T>, count: nat) -> Seq<Option<T>>
    decreases count,
{
    if count == 0 {
        Seq::empty()
    } else {
        seq![front(items)] + taken(without_front(items), (count - 1) as nat)
    }
}

/// What `count` removals in a row leave behind.
pub open spec fn left<T>(items: Seq<T>, count: nat) -> Seq<T>
    decreases count,
{
    if count == 0 {
        items
    } else {
        left(without_front(items), (count - 1) as nat)
    }
}

/// Removals hand the items out front to back, one each. Once the items have
/// run out, every further removal returns `None` and leaves the sequence
/// empty, however often it is repeated.
pub proof fn lemma_taken<T>(items: Seq<T>, count: nat)
    ensures
        taken(items, count).len() == count,
        forall|k: int|
            0 <= k < count ==> #[trigger] taken(items, count)[k] == if k < items.len() {
                Some(items[k])
            } else {
                None
            },
        left(items, count) == if count <= items.len() {
            items.subrange(count as int, items.len() as int)
        } else {
            Seq::empty()
        },
    decreases count,
{
    if count == 0 {
        assert(items.subrange(0, items.len() as int) =~= items);
    } else {
        let rest = without_front(items);
        let fewer: nat = (count - 1) as nat;
        lemma_taken(rest, fewer);
        assert forall|k: int| 0 <= k < count implies #[trigger] taken(items, count)[k] == if k
            < items.len() {
            Some(items[k])
        } else {
            None
        } by {
            if k > 0 {
                assert(taken(items, count)[k] == taken(rest, fewer)[k - 1]);
            }
        }
        if count <= items.len() {
            assert(rest.subrange(fewer as int, rest.len() as int) =~= items.subrange(
                count as int,
                items.len() as int,
            ));
        } else if items.len() > 0 {
        } else {
            assert(rest =~= Seq::<T>::empty());
            if fewer <= rest.len() {
                assert(rest.subrange(fewer as int, rest.len() as int) =~= Seq::<T>::empty());
            }
        }
    }
}

} // verus!
