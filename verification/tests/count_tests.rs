use pagedb::count::Count;

#[test]
fn test_new_counter() {
    let counter = Count::new(42);
    assert_eq!(counter.get(), 42);
}

#[test]
fn test_default_counter() {
    let counter = Count::default();
    assert_eq!(counter.get(), 0);
}

#[test]
fn test_increment_counter() {
    let mut counter = Count::new(0);
    assert_eq!(counter.inc(), 0);
    assert_eq!(counter.get(), 1);
}

#[test]
fn test_add_to_counter() {
    let mut counter = Count::new(10);
    assert_eq!(counter.add(5), 10);
    assert_eq!(counter.get(), 15);
}
