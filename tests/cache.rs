use chyron::cache::ShownCache;

#[test]
fn merge_prune_and_keys() {
    let mut c = ShownCache::new();
    c.merge_shown_at(&vec!["a".to_string(), "b".to_string(), "a".to_string()], 100);
    assert_eq!(c.entries(), vec![("a".to_string(), 100), ("b".to_string(), 100)]);
    c.merge_shown_at(&vec!["b".to_string(), "c".to_string()], 200);
    assert_eq!(
        c.entries(),
        vec![("a".to_string(), 100), ("b".to_string(), 100), ("c".to_string(), 200)]
    );
    c.prune_before(100);
    assert_eq!(c.shown_keys(), vec!["c".to_string()]);
}

#[test]
fn from_entries_keeps_first_of_each_key() {
    let c = ShownCache::from_entries(vec![
        ("x".to_string(), 1),
        ("y".to_string(), 2),
        ("x".to_string(), 3),
    ]);
    assert_eq!(c.entries(), vec![("x".to_string(), 1), ("y".to_string(), 2)]);
    assert!(c.holds(&"y".to_string()));
    assert!(!c.holds(&"z".to_string()));
}

#[test]
fn merge_with_clock_and_prune_by_age() {
    let mut c = ShownCache::default();
    c.merge_shown(&vec!["k".to_string()]);
    c.prune(3600);
    assert_eq!(c.shown_keys(), vec!["k".to_string()]);
    c.prune_before(i64::MAX);
    assert!(c.shown_keys().is_empty());
}
