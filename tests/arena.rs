use deptree::Arena;

#[test]
fn test_arena() {
    let mut arena = Arena::new();
    assert_eq!(arena.insert("a".to_string()), 0);
    assert_eq!(arena.insert("b".to_string()), 1);
    assert_eq!(arena.insert("a".to_string()), 0);
    assert_eq!(arena.insert("c".to_string()), 2);

    assert_eq!(arena.get(0), Some("a"));
    assert_eq!(arena.get(1), Some("b"));
    assert_eq!(arena.get(2), Some("c"));
    assert_eq!(arena.get(3), None);

    assert_eq!(arena.insert("d".to_string()), 3);
    assert_eq!(arena.get(3), Some("d"));
}

#[test]
fn get() {
    let mut arena = Arena::new();
    arena.insert("x".to_string());
    assert_eq!(arena.get(0), Some("x"));
    assert_eq!(arena.get(1), None);
    assert_eq!(arena.len(), 1);
}
