use data_structures::linkedlist::{LinkedList, Stack};

#[test]
fn create_ll_test() {
    let ll: LinkedList<i32> = LinkedList::new();
    assert!(ll.0.is_none())
}

#[test]
fn append_ll_int_test() {
    let mut ll = LinkedList(None);
    ll.append(1);
    assert!(ll.0.is_some());
    let child = ll.0.unwrap();
    assert_eq!(child.0, 1);
    assert!(child.1.0.is_none());
}

#[test]
fn append_ll_str_test() {
    let mut ll = LinkedList(None);
    ll.append("abc");
    assert!(ll.0.is_some());
    let child = ll.0.unwrap();
    assert_eq!(child.0, "abc");
    assert!(child.1.0.is_none());
}

#[test]
fn pop_test() {
    let mut ll = LinkedList::new();
    ll.push(1);
    ll.push(2);

    assert_eq!(ll.pop(), Some(2));
    assert_eq!(ll.pop(), Some(1));
    assert_eq!(ll.pop(), None);
    assert_eq!(ll.pop(), None);

    ll.append(5);
    assert_eq!(ll.pop(), Some(5));
}

#[test]
fn peek_test() {
    let mut ll = LinkedList::new();
    assert_eq!(ll.peek(), None);
    ll.push(0);
    assert_eq!(ll.peek(), Some(0));
}

#[test]
fn linkedlist_insert_test() {
    let mut ll = LinkedList::new();

    ll.push(3);
    ll.push(1);
    ll.insert(2, 1);

    assert_eq!(ll.pop(), Some(1));
    assert_eq!(ll.pop(), Some(2));
    assert_eq!(ll.pop(), Some(3));

    let mut ll = LinkedList::new();
    ll.insert(2, 0);
    assert_eq!(ll.pop(), Some(2));
}

#[test]
fn from_test() {
    let lst = vec![1, 2, 3, 4];
    let mut ll = LinkedList::from_iter(lst.into_iter());
    assert_eq!(ll.pop(), Some(1));
    assert_eq!(ll.pop(), Some(2));
    assert_eq!(ll.pop(), Some(3));
    assert_eq!(ll.pop(), Some(4));
}

#[test]
fn from_empty_test() {
    let lst: Vec<i32> = Vec::new();
    let mut ll = LinkedList::from_iter(lst.into_iter());
    assert_eq!(ll.pop(), None);
}

#[test]
fn from_map_test() {
    let lst = vec![1, 2, 3, 4];
    let mut ll: LinkedList<i32> = LinkedList::from_iter(lst.into_iter().map(|x| x * x));
    assert_eq!(ll.pop(), Some(1));
    assert_eq!(ll.pop(), Some(4));
    assert_eq!(ll.pop(), Some(9));
    assert_eq!(ll.pop(), Some(16));
}

#[test]
fn push_append_test() {
    let mut ll = LinkedList::new();
    ll.push(2);
    ll.append(3);
    ll.push(1);
    ll.append(4);
    assert_eq!(ll.pop(), Some(1));
    assert_eq!(ll.pop(), Some(2));
    assert_eq!(ll.pop(), Some(3));
    assert_eq!(ll.pop(), Some(4));
}

#[test]
fn iterator_test() {
    let ll = LinkedList::from_iter(vec![0, 1, 2, 3, 4].into_iter());
    for (a, b) in ll.collect().into_iter().enumerate() {
        assert_eq!(a, b)
    }

    let ll = LinkedList::from_iter(vec![0, 1, 2, 3, 4].into_iter());
    let vec: Vec<i32> = ll.collect();
    assert_eq!(vec, vec![0, 1, 2, 3, 4]);
}

#[test]
fn next_drains_front_to_back() {
    let mut ll = LinkedList::from_iter(vec![7, 8, 9].into_iter());
    assert_eq!(ll.next(), Some(7));
    assert_eq!(ll.next(), Some(8));
    assert_eq!(ll.next(), Some(9));
    assert_eq!(ll.next(), None);
    assert_eq!(ll.next(), None);
    assert!(ll.0.is_none());
}

#[test]
fn from_iter_then_pop_to_absence() {
    let mut ll = LinkedList::from_iter(vec![1, 2, 3, 4].into_iter());
    assert_eq!(ll.pop(), Some(1));
    assert_eq!(ll.pop(), Some(2));
    assert_eq!(ll.pop(), Some(3));
    assert_eq!(ll.pop(), Some(4));
    assert_eq!(ll.pop(), None);
}

#[test]
fn from_iter_appends_in_emission_order() {
    let ll = LinkedList::from_iter((0..100).map(|x| x * 3));
    let expected: Vec<i32> = (0..100).map(|x| x * 3).collect();
    assert_eq!(ll.collect(), expected);
}

#[test]
fn insert_at_index_and_clamp_to_end() {
    let mut ll = LinkedList::from_iter(vec![1, 3].into_iter());

    ll.insert(2, 1);
    assert_eq!(ll.clone().collect(), vec![1, 2, 3]);

    ll.insert(-1, 0);
    assert_eq!(ll.clone().collect(), vec![-1, 1, 2, 3]);

    ll.insert(5, 99);
    assert_eq!(ll.clone().collect(), vec![-1, 1, 2, 3, 5]);

    ll.insert(6, 5);
    assert_eq!(ll.clone().collect(), vec![-1, 1, 2, 3, 5, 6]);

    ll.insert(7, usize::MAX);
    assert_eq!(ll.collect(), vec![-1, 1, 2, 3, 5, 6, 7]);
}

#[test]
fn insert_into_empty_list_is_append() {
    for n in [0usize, 1, 2, 99] {
        let mut ll = LinkedList::new();
        ll.insert(4, n);
        assert_eq!(ll.peek(), Some(4));
        assert_eq!(ll.collect(), vec![4]);
    }
}

#[test]
fn append_adds_at_the_end() {
    let mut ll = LinkedList::from_iter(vec![1, 2].into_iter());
    ll.append(3);
    assert_eq!(ll.collect(), vec![1, 2, 3]);
}

#[test]
fn push_adds_at_the_front() {
    let mut ll = LinkedList::from_iter(vec![1, 2].into_iter());
    ll.push(3);
    assert_eq!(ll.collect(), vec![3, 1, 2]);
}

#[test]
fn peek_leaves_the_list_alone() {
    let ll = LinkedList::from_iter(vec![1, 2].into_iter());
    assert_eq!(ll.peek(), Some(1));
    assert_eq!(ll.peek(), Some(1));
    assert_eq!(ll.collect(), vec![1, 2]);
}

#[test]
fn clone_copies_every_item() {
    let mut ll = LinkedList::from_iter(vec![1, 2, 3].into_iter());
    let copy = ll.clone();
    assert_eq!(ll.pop(), Some(1));
    assert_eq!(copy.collect(), vec![1, 2, 3]);
    assert_eq!(ll.collect(), vec![2, 3]);
}

#[test]
fn stack_is_last_in_first_out() {
    let mut stack = Stack::new();
    stack.push(1);
    stack.push(2);
    stack.push(3);
    assert_eq!(stack.pop(), Some(3));
    assert_eq!(stack.pop(), Some(2));
    assert_eq!(stack.pop(), Some(1));
    assert_eq!(stack.pop(), None);
}

#[test]
fn pops_reverse_many_pushes() {
    let mut stack: Stack<u32> = Stack::new();
    stack.push(1000);
    for i in 0..200 {
        stack.push(i);
    }
    for i in (0..200).rev() {
        assert_eq!(stack.pop(), Some(i));
    }
    assert_eq!(stack.pop(), Some(1000));
    assert_eq!(stack.pop(), None);
}

#[test]
fn pop_on_empty_list_repeats_absence() {
    let mut ll: LinkedList<i32> = LinkedList::new();
    for _ in 0..5 {
        assert_eq!(ll.pop(), None);
        assert_eq!(ll.peek(), None);
        assert!(ll.0.is_none());
    }
    ll.push(1);
    assert_eq!(ll.pop(), Some(1));
    assert_eq!(ll.pop(), None);
}
