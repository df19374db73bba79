use parsemath::iterators::{ConsumingListIterator, List};

fn new_list(n: usize, value: Option<usize>) -> List<usize> {
    let mut list = List::new_empty();
    for i in 1..=n {
        if let Some(v) = value {
            list.append(v);
        } else {
            list.append(i);
        }
    }
    list
}

#[test]
fn test_list_iterator() {
    let list = new_list(4, None);
    assert_eq!(list.length, 4);

    let mut iter = ConsumingListIterator::new(list);
    assert_eq!(iter.next(), Some(1));
    assert_eq!(iter.next(), Some(2));
    assert_eq!(iter.next(), Some(3));
    assert_eq!(iter.next(), Some(4));
    assert_eq!(iter.next(), None);

    let list = new_list(4, Some(1));
    assert_eq!(list.length, 4);

    let mut iter = ConsumingListIterator::new(list);
    while let Some(item) = iter.next() {
        assert_eq!(item, 1);
    }

    let list = new_list(4, Some(1));
    assert_eq!(list.length, 4);
    let mut iter = ConsumingListIterator::new(list);
    let mut sum = 0;
    while let Some(e) = iter.next() {
        sum += e;
    }
    assert_eq!(sum, 4);
}
