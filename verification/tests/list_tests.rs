use parsemath::list::List;

#[test]
fn test_list_new_empty() {
    let mut list: List<i32> = List::new_empty();
    assert_eq!(list.length, 0);
    assert_eq!(list.pop(), None);
}

#[test]
fn test_list_append() {
    let mut list = List::new_empty();
    list.append(1);
    list.append(1);
    list.append(1);
    list.append(1);
    list.append(1);
    assert_eq!(list.length, 5);
}

#[test]
fn test_list_pop() {
    let mut list = List::new_empty();
    list.append(1);
    list.append(1);
    list.append(1);
    list.append(1);
    list.append(1);
    assert_eq!(list.length, 5);
    assert_eq!(list.pop(), Some(1));
    assert_eq!(list.pop(), Some(1));
    assert_eq!(list.pop(), Some(1));
    assert_eq!(list.pop(), Some(1));
    assert_eq!(list.pop(), Some(1));
    assert_eq!(list.length, 0);
    assert_eq!(list.pop(), None);
}

#[test]
fn test_list_insert_10k_item() {
    let mut list = List::new_empty();
    for _ in 0..1000 {
        list.append(100);
    }
    assert_eq!(list.length, 1000);
}
