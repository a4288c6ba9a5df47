use net_struct_serde::{Deque, FixedSizeDeque};

#[test]
fn deque_push_pop_both_ends() {
    let mut d: FixedSizeDeque<u32, 3> = FixedSizeDeque::new();
    assert_eq!(d.capacity(), 3);
    assert_eq!(d.size(), 0);
    assert_eq!(d.front(), None);
    assert_eq!(d.pop_back(), None);
    assert_eq!(d.push_back(1), Ok(()));
    assert_eq!(d.push_front(0), Ok(()));
    assert_eq!(d.push_back(2), Ok(()));
    assert_eq!(d.push_back(3), Err(()));
    assert_eq!(d.to_vec(), vec![0, 1, 2]);
    assert_eq!(d.front(), Some(0));
    assert_eq!(d.back(), Some(2));
    assert_eq!(d.pop_front(), Some(0));
    assert_eq!(d.push_back(3), Ok(()));
    assert_eq!(d.to_vec(), vec![1, 2, 3]);
    assert_eq!(d.pop_back(), Some(3));
    assert_eq!(d.size(), 2);
}

#[test]
fn deque_iter_walks_front_to_back() {
    let mut d: FixedSizeDeque<u8, 4> = FixedSizeDeque::new();
    for v in [5u8, 6, 7] {
        d.push_front(v).unwrap();
    }
    let mut it = d.iter();
    assert_eq!(it.next(), Some(7));
    assert_eq!(it.next(), Some(6));
    assert_eq!(it.next(), Some(5));
    assert_eq!(it.next(), None);
}

#[test]
fn deque_of_no_slots_is_always_full() {
    let mut d: FixedSizeDeque<u8, 0> = FixedSizeDeque::new();
    assert_eq!(d.push_back(1), Err(()));
    assert_eq!(d.push_front(1), Err(()));
    assert_eq!(d.pop_front(), None);
}

#[test]
fn deque_take_needs_a_full_deque() {
    let mut d: FixedSizeDeque<u16, 3> = FixedSizeDeque::new();
    d.push_back(7).unwrap();
    d.push_back(8).unwrap();
    assert_eq!(d.take::<2>(), None);
    d.push_front(6).unwrap();
    assert_eq!(d.take::<2>(), Some(vec![6, 7]));
    assert_eq!(d.take::<3>(), Some(vec![6, 7, 8]));
    assert_eq!(d.take::<4>(), None);
    assert_eq!(d.size(), 3);
}
