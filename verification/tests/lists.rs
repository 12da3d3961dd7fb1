use lists::{deque, persistent, queue, stack};

// --- queue ---

#[test]
fn fifth_basics() {
    let mut list = queue::List::new();

    // Check empty list behaves right
    assert_eq!(list.pop(), None);

    // Populate list
    list.push(1);
    list.push(2);
    list.push(3);

    // Check normal removal
    assert_eq!(list.pop(), Some(1));
    assert_eq!(list.pop(), Some(2));

    // Push some more just to make sure nothing's corrupted
    list.push(4);
    list.push(5);

    // Check normal removal
    assert_eq!(list.pop(), Some(3));
    assert_eq!(list.pop(), Some(4));

    // Check exhaustion
    assert_eq!(list.pop(), Some(5));
    assert_eq!(list.pop(), None);

    // Check the exhaustion case fixed the pointer right
    list.push(6);
    list.push(7);

    // Check normal removal
    assert_eq!(list.pop(), Some(6));
    assert_eq!(list.pop(), Some(7));
    assert_eq!(list.pop(), None);
}

#[test]
fn peek() {
    let mut list = queue::List::new();
    assert_eq!(list.peek(), None);
    list.push(1);
    assert_eq!(list.peek(), Some(&1));
    let head_elem = list.peek_mut().unwrap();
    *head_elem = 5;
    assert_eq!(list.peek(), Some(&5));
}

#[test]
fn iters() {
    //IntoIter
    let mut list = queue::List::new();
    list.push(1);
    list.push(2);
    let mut into_iter = list.into_iter();
    assert_eq!(into_iter.next(), Some(1));
    assert_eq!(into_iter.next(), Some(2));
    assert_eq!(into_iter.next(), None);

    //Iter
    let mut list = queue::List::new();
    list.push(1);
    list.push(2);
    let mut iter = list.iter();
    assert_eq!(iter.next(), Some(&1));
    assert_eq!(iter.next(), Some(&2));
    assert_eq!(iter.next(), None);

    //IterMut
    let mut list = queue::List::new();
    list.push(1);
    list.push(2);
    let mut iter_mut = list.iter_mut();
    let first = iter_mut.next();
    assert_eq!(first, Some(&mut 1));
    *first.unwrap() = 100;
    assert_eq!(iter_mut.next(), Some(&mut 2));
    assert_eq!(iter_mut.next(), None);
    assert_eq!(list.peek(), Some(&100));
}

#[test]
fn queue_default_is_empty() {
    let mut list: queue::List<i32> = Default::default();
    assert_eq!(list.pop(), None);
    assert_eq!(list.peek(), None);
}

// --- deque ---

#[test]
fn test_basic() {
    let mut list = deque::List::new();
    assert!(list.peek_front().is_none());
    assert!(list.peek_back().is_none());

    list.push_front(1);
    assert_eq!(*list.peek_front().unwrap(), *list.peek_back().unwrap());

    list.push_front(2);
    assert_eq!(*list.peek_front().unwrap(), 2);
    assert_eq!(*list.peek_back().unwrap(), 1);

    assert_eq!(list.pop_front(), Some(2));
    assert_eq!(*list.peek_front().unwrap(), 1);
    assert_eq!(list.pop_front(), Some(1));
    assert_eq!(list.pop_front(), None);
    assert_eq!(list.pop_back(), None);
    assert!(list.peek_front().is_none());
    assert!(list.peek_back().is_none());

    list.push_back(1);
    list.push_back(2);
    assert_eq!(*list.peek_back().unwrap(), 2);
    assert_eq!(list.pop_back(), Some(2));
    assert_eq!(*list.peek_back().unwrap(), 1);
    assert_eq!(list.pop_back(), Some(1));
    assert_eq!(list.pop_back(), None);
    assert!(list.peek_back().is_none());
}

#[test]
fn test_iterator() {
    let mut list = deque::List::new();
    list.push_front(1);
    list.push_front(2);
    list.push_front(3);
    list.push_front(4);

    let mut iter = list.into_iter();
    assert_eq!(iter.next(), Some(4));
    assert_eq!(iter.next(), Some(3));
    assert_eq!(iter.next(), Some(2));
    assert_eq!(iter.next(), Some(1));
    assert_eq!(iter.next(), None);

    let mut list = deque::List::new();
    list.push_front(1);
    list.push_front(2);
    list.push_front(3);
    list.push_front(4);

    let mut iter = list.into_iter();
    assert_eq!(iter.next_back(), Some(1));
    assert_eq!(iter.next_back(), Some(2));
    assert_eq!(iter.next_back(), Some(3));
    assert_eq!(iter.next_back(), Some(4));
    assert_eq!(iter.next_back(), None);
}

#[test]
fn empty_start() {
    let mut list: deque::List<i32> = deque::List::new();
    assert_eq!(list.pop_front(), None);
    assert_eq!(list.pop_back(), None);
    assert!(list.peek_front().is_none());
    assert!(list.peek_back().is_none());
    assert!(list.is_empty());
    assert_eq!(list.len(), 0);
}

#[test]
fn fifo_lifo_duality() {
    let mut fifo = deque::List::new();
    fifo.push_back(1);
    fifo.push_back(2);
    fifo.push_back(3);
    assert_eq!(fifo.pop_front(), Some(1));
    assert_eq!(fifo.pop_front(), Some(2));
    assert_eq!(fifo.pop_front(), Some(3));
    assert_eq!(fifo.pop_front(), None);

    let mut lifo = deque::List::new();
    lifo.push_front(1);
    lifo.push_front(2);
    lifo.push_front(3);
    assert_eq!(lifo.pop_front(), Some(3));
    assert_eq!(lifo.pop_front(), Some(2));
    assert_eq!(lifo.pop_front(), Some(1));
    assert_eq!(lifo.pop_front(), None);
}

#[test]
fn bidirectional_peeks() {
    let mut list = deque::List::new();
    list.push_front(10);
    list.push_back(20);
    list.push_front(5);
    list.push_back(30);
    // internal order: 5, 10, 20, 30
    assert_eq!(*list.peek_front().unwrap(), 5);
    assert_eq!(*list.peek_back().unwrap(), 30);
    assert_eq!(list.pop_front(), Some(5));
    // after pop_front the second-from-front element is the new front
    assert_eq!(*list.peek_front().unwrap(), 10);
    assert_eq!(*list.peek_back().unwrap(), 30);
}

#[test]
fn meet_in_middle() {
    // internal order after the pushes: 4, 3, 2, 1
    let mut list = deque::List::new();
    list.push_front(1);
    list.push_front(2);
    list.push_front(3);
    list.push_front(4);
    let mut iter = list.into_iter();
    assert_eq!(iter.next(), Some(4));
    assert_eq!(iter.next_back(), Some(1));
    assert_eq!(iter.next(), Some(3));
    assert_eq!(iter.next_back(), Some(2));
    assert_eq!(iter.next(), None);
    assert_eq!(iter.next_back(), None);

    // the final single element is yielded exactly once whichever end asks
    let mut list = deque::List::new();
    list.push_front(1);
    list.push_front(2);
    list.push_front(3);
    let mut iter = list.into_iter();
    assert_eq!(iter.next_back(), Some(1));
    assert_eq!(iter.next(), Some(3));
    assert_eq!(iter.next_back(), Some(2));
    assert_eq!(iter.next(), None);
    assert_eq!(iter.next_back(), None);
}

#[test]
fn mutate_through_peek() {
    let mut list = deque::List::new();
    list.push_front(1);
    if let Some(e) = list.peek_front_mut() {
        *e = 42;
    }
    assert_eq!(*list.peek_front().unwrap(), 42);
    assert_eq!(*list.peek_back().unwrap(), 42);

    list.push_back(7);
    if let Some(e) = list.peek_back_mut() {
        *e = 9;
    }
    assert_eq!(*list.peek_back().unwrap(), 9);
    assert_eq!(*list.peek_front().unwrap(), 42);
}

#[test]
fn drain_releases_storage() {
    let mut list = deque::List::new();
    list.push_back(1);
    list.push_front(0);
    list.push_back(2);
    list.push_back(3);
    assert_eq!(list.len(), 4);
    assert_eq!(list.pop_back(), Some(3));
    assert_eq!(list.pop_front(), Some(0));
    assert_eq!(list.pop_back(), Some(2));
    assert_eq!(list.pop_front(), Some(1));
    // drained: same observable state as a fresh deque
    assert_eq!(list.len(), 0);
    assert!(list.is_empty());
    assert!(list.peek_front().is_none());
    assert!(list.peek_back().is_none());
    assert_eq!(list.pop_front(), None);
    // and it is still usable
    list.push_back(8);
    assert_eq!(list.pop_front(), Some(8));
}

#[test]
fn round_trip() {
    let input = vec![3, 1, 4, 1, 5, 9, 2, 6];
    let mut list = deque::List::new();
    for &v in input.iter() {
        list.push_back(v);
    }
    let mut iter = list.into_iter();
    let mut output = Vec::new();
    while let Some(v) = iter.next() {
        output.push(v);
    }
    assert_eq!(input, output);

    let list = deque::List::from_vec(input.clone());
    assert_eq!(list.into_vec(), input);
}

#[test]
fn deque_borrowing_iters() {
    let mut list = deque::List::new();
    list.push_back(1);
    list.push_back(2);
    list.push_back(3);

    let mut iter = list.iter();
    assert_eq!(iter.next(), Some(&1));
    assert_eq!(iter.next(), Some(&2));
    assert_eq!(iter.next(), Some(&3));
    assert_eq!(iter.next(), None);

    let mut iter_mut = list.iter_mut();
    while let Some(e) = iter_mut.next() {
        *e *= 10;
    }
    let mut iter = list.iter();
    assert_eq!(iter.next(), Some(&10));
    assert_eq!(iter.next(), Some(&20));
    assert_eq!(iter.next(), Some(&30));
    assert_eq!(iter.next(), None);
}

// --- stack ---

#[test]
fn into_iter() {
    let mut list = stack::List::new();
    list.push(1);
    list.push(2);
    let mut it = list.into_iter();
    while let Some(_val) = it.next() {}
}

#[test]
fn second_iter() {
    let mut list = stack::List::new();
    list.push(1);
    list.push(2);
    let mut iter = list.iter();
    assert_eq!(iter.next(), Some(&2));
    assert_eq!(iter.next(), Some(&1));
    assert_eq!(iter.next(), None);
    assert_eq!(list.peek(), Some(&2));
}

#[test]
fn iter_mut() {
    let mut list = stack::List::new();
    list.push(1);
    list.push(2);
    let mut it = list.iter_mut();
    while let Some(val) = it.next() {
        *val *= 10;
    }
    let mut new_iter = list.iter();
    assert_eq!(new_iter.next(), Some(&20));
    assert_eq!(new_iter.next(), Some(&10));
}

#[test]
fn second_basics() {
    let mut list = stack::List::new();

    // Check empty list behaves right
    assert_eq!(list.pop(), None);

    // Populate list
    list.push(1);
    list.push(2);
    list.push(3);

    assert_eq!(list.peek(), Some(&3));

    // Check normal removal
    assert_eq!(list.pop(), Some(3));
    assert_eq!(list.pop(), Some(2));

    // Push some more just to make sure nothing's corrupted
    list.push(4);
    list.push(5);

    // Check normal removal
    assert_eq!(list.pop(), Some(5));
    assert_eq!(list.pop(), Some(4));

    // Check exhaustion
    assert_eq!(list.pop(), Some(1));
    assert_eq!(list.pop(), None);
    assert_eq!(list.peek(), None);
}

// --- persistent ---

#[test]
fn third_iter() {
    let mut list = persistent::List::<i32>::new();
    list = list.prepend(1);
    list = list.prepend(2);
    let mut iter = list.iter();
    assert_eq!(iter.next(), Some(&2));
    assert_eq!(iter.next(), Some(&1));
    assert_eq!(iter.next(), None);
    assert_eq!(iter.next(), None);
}

#[test]
fn third_basics() {
    let mut list = persistent::List::<i32>::new();
    list = list.prepend(1);
    list = list.prepend(2);
    assert_eq!(list.peek(), Some(&2));
    list = list.tail();
    assert_eq!(list.peek(), Some(&1));
    list = list.tail();
    assert_eq!(list.peek(), None);
    list = list.tail();
    assert_eq!(list.peek(), None);
}

#[test]
fn persistent_shares_suffix() {
    let base = persistent::List::<i32>::new().prepend(1).prepend(2);
    let longer = base.prepend(3);
    // the old version is untouched by the new one
    assert_eq!(base.peek(), Some(&2));
    assert_eq!(longer.peek(), Some(&3));
    let mut iter = longer.iter();
    assert_eq!(iter.next(), Some(&3));
    assert_eq!(iter.next(), Some(&2));
    assert_eq!(iter.next(), Some(&1));
    assert_eq!(iter.next(), None);
}
