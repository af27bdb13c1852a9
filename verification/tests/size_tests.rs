use gitkeep::size::order_by_size;

#[test]
fn sizes_listed_largest_first_then_by_name() {
    let entries = vec![
        ("bob".to_string(), 10u64),
        ("zed".to_string(), 300),
        ("amy".to_string(), 10),
        ("carl".to_string(), 0),
    ];
    let ordered = order_by_size(&entries);
    let names: Vec<_> = ordered.iter().map(|(n, s)| (n.as_str(), *s)).collect();
    assert_eq!(names, vec![("zed", 300), ("amy", 10), ("bob", 10), ("carl", 0)]);
}

#[test]
fn sizes_keep_every_entry() {
    let entries = vec![("a".to_string(), 1u64), ("a".to_string(), 1), ("b".to_string(), 2)];
    let ordered = order_by_size(&entries);
    assert_eq!(ordered.len(), 3);
    assert_eq!(ordered[0], ("b".to_string(), 2));
    assert_eq!(ordered[1], ("a".to_string(), 1));
    assert_eq!(ordered[2], ("a".to_string(), 1));
}
