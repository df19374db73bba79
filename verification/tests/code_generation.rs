#[test]
fn test_n_times() {
    let mut i = 0;
    for _ in 0..5 {
        i += 1;
    }

    assert_eq!(i, 5);
}
