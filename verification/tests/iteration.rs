fn count_files(path: &String) -> usize {
    path.len()
}

#[test]
fn getting_the_iterator() {
    let v = vec![10, 10, 10];
    let mut iter = v.iter();
    assert_eq!(iter.next(), Some(&10));
    assert_eq!(iter.next(), Some(&10));
    assert_eq!(iter.next(), Some(&10));
    assert_eq!(iter.next(), None);

    for i in v {
        assert_eq!(i, 10);
    }
}

#[test]
fn data_transformations() {
    let v = vec![10, 10, 10];
    let hexed = v.iter().map(|i| format!("{:x}", i));
    assert_eq!(
        hexed.collect::<Vec<String>>(),
        vec!["a".to_string(), "a".to_string(), "a".to_string()]
    );
    // (((0 + 10) + 10) + 10)
    assert_eq!(v.iter().fold(0, |p, c| p + c), 30);

    let dirs = vec![
        "/home/alice".to_string(),
        "/home/bob".to_string(),
        "/home/carl".to_string(),
        "/home/debra".to_string(),
    ];
    let file_counter = dirs.iter().map(count_files);
    let dir_file_counts: Vec<(&String, usize)> = dirs.iter().zip(file_counter).collect();
    assert_eq!(
        dir_file_counts,
        vec![
            (&"/home/alice".to_string(), 11),
            (&"/home/bob".to_string(), 9),
            (&"/home/carl".to_string(), 10),
            (&"/home/debra".to_string(), 11)
        ]
    );
}
