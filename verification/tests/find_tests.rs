use parsemath::find::{best_find, FindError};

#[test]
fn test_best_practice() {
    assert_eq!(best_find("a", "hello world"), Err(FindError::NotFound));
    assert_eq!(best_find("e", "hello world"), Ok(1));
    assert_eq!(best_find("", "hello world"), Err(FindError::EmptyNeedle));
    assert_eq!(best_find("e", ""), Err(FindError::EmptyHaystack));
}
