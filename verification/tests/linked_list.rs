use timer::list::linked_list::LinkedList;

#[test]
fn basics() {
    let mut list = LinkedList::new();

    assert_eq!(list.pop_front(), None);

    list.push_front(1);
    list.push_front(2);
    list.push_front(3);

    assert_eq!(list.pop_front(), Some(3));
    assert_eq!(list.pop_front(), Some(2));

    list.push_front(4);
    list.push_front(5);

    assert_eq!(list.pop_front(), Some(5));
    assert_eq!(list.pop_front(), Some(4));

    assert_eq!(list.pop_front(), Some(1));
    assert_eq!(list.pop_front(), None);

    list.push_back(1);
    list.push_back(2);

    assert_eq!(list.pop_back(), Some(2));

    assert_eq!(list.pop_back(), Some(1));
    assert_eq!(list.pop_back(), None);
    assert_eq!(list.pop_front(), None);
}

#[test]
fn back_in_front_out_is_first_in_first_out() {
    let mut list = LinkedList::new();
    list.push_back(10);
    list.push_back(20);
    list.push_back(30);
    assert_eq!(list.pop_front(), Some(10));
    assert_eq!(list.pop_front(), Some(20));
    assert_eq!(list.pop_front(), Some(30));
    assert_eq!(list.pop_front(), None);
}

#[test]
fn front_in_back_out_is_first_in_first_out() {
    let mut list = LinkedList::new();
    list.push_front('a');
    list.push_front('b');
    assert_eq!(list.pop_back(), Some('a'));
    assert_eq!(list.pop_back(), Some('b'));
    assert_eq!(list.pop_back(), None);
}

#[test]
fn freed_slots_are_reused_without_mixing_values() {
    let mut list = LinkedList::new();
    for i in 0..5 {
        list.push_back(i);
    }
    assert_eq!(list.pop_front(), Some(0));
    assert_eq!(list.pop_back(), Some(4));
    list.push_front(7);
    list.push_back(8);
    assert_eq!(list.pop_front(), Some(7));
    assert_eq!(list.pop_front(), Some(1));
    assert_eq!(list.pop_front(), Some(2));
    assert_eq!(list.pop_front(), Some(3));
    assert_eq!(list.pop_front(), Some(8));
    assert_eq!(list.pop_front(), None);
}

#[test]
fn peek_front_gives_nothing() {
    let mut list = LinkedList::new();
    list.push_front(String::from("x"));
    assert!(list.peek_front().is_none());
    assert_eq!(list.pop_front(), Some(String::from("x")));
}
