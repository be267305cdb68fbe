use timer::list::list::List;

#[test]
fn list_test() {
    let mut list = List::new();
    list.push(5.5);
    list.push(4.0);
    list.push(3.);
    list.push(2.);

    assert_eq!(list.peek(), Some(&2.));

    assert_eq!(list.pop(), Some(2.));
    assert_eq!(list.pop(), Some(3.));
    assert_eq!(list.pop(), Some(4.));
    assert_ne!(list.pop(), Some(5.3));
    assert_eq!(list.pop(), None);
}

#[test]
fn test_into_iter() {
    let mut list = List::new();
    list.push(5.5);
    list.push(4.0);
    list.push(3.);
    list.push(2.);

    let mut iter = list.into_iter();

    assert_eq!(iter.next(), Some(2.));
    assert_eq!(iter.next(), Some(3.));
    assert_eq!(iter.next(), Some(4.));
    assert_eq!(iter.next(), Some(5.5));
}

#[test]
fn test_iter() {
    let mut list = List::new();
    list.push(5.5);
    list.push(4.0);
    list.push(3.);
    list.push(2.);

    let mut iter = list.iter();

    assert_eq!(iter.next(), Some(&2.));
    assert_eq!(iter.next(), Some(&3.));
    assert_eq!(iter.next(), Some(&4.));
    assert_eq!(iter.next(), Some(&5.5));
    assert_eq!(list.pop(), Some(2.));
    assert_eq!(list.pop(), Some(3.));
    assert_eq!(list.pop(), Some(4.));
    assert_ne!(list.pop(), Some(5.3));
    assert_eq!(list.pop(), None);
}

#[test]
fn test_iter_mut() {
    let mut list = List::new();
    list.push(5.5);
    list.push(4.0);
    list.push(3.);
    list.push(2.);

    let mut iter = list.iter_mut();

    assert_eq!(iter.next(), Some(&mut 2.));
    assert_eq!(iter.next(), Some(&mut 3.));
    assert_eq!(iter.next(), Some(&mut 4.));
    let five = iter.next();
    if let Some(val) = five {
        *val = 5.3;
    }

    assert_eq!(list.pop(), Some(2.));
    assert_eq!(list.pop(), Some(3.));
    assert_eq!(list.pop(), Some(4.));
    assert_eq!(list.pop(), Some(5.3));
    assert_eq!(list.pop(), None);
}

#[test]
fn peek_leaves_the_front_in_place() {
    let mut list: List<i32> = List::new();
    assert_eq!(list.peek(), None);
    list.push(1);
    assert_eq!(list.peek(), Some(&1));
    assert_eq!(list.peek(), Some(&1));
    assert_eq!(list.pop(), Some(1));
    assert_eq!(list.pop(), None);
}

#[test]
fn iterators_end_with_none() {
    let mut list = List::new();
    list.push(1u8);
    let mut iter = list.iter();
    assert_eq!(iter.next(), Some(&1));
    assert_eq!(iter.next(), None);
    assert_eq!(iter.next(), None);
    let mut iter_mut = list.iter_mut();
    assert!(iter_mut.next().is_some());
    assert!(iter_mut.next().is_none());
    let mut into_iter = list.into_iter();
    assert_eq!(into_iter.next(), Some(1));
    assert_eq!(into_iter.next(), None);
}
