use logparser::pattern::Pattern;

#[test]
fn a_pattern_compiles_or_not() {
    assert!(Pattern::compile("a+b").is_some());
    assert!(Pattern::compile("").is_some());
    assert!(Pattern::compile("a(b").is_none());
    assert!(Pattern::compile("[z-a]").is_none());
}

#[test]
fn the_whole_match_counts_as_a_group() {
    assert_eq!(Pattern::compile("foo").unwrap().group_count(), 1);
    assert_eq!(Pattern::compile("(foo)").unwrap().group_count(), 2);
    assert_eq!(Pattern::compile("(a)(?:b)(?P<c>c)").unwrap().group_count(), 3);
}

#[test]
fn captures_are_byte_offsets_of_the_first_match() {
    let p = Pattern::compile("(\\d+)-(\\d+)(x)?").unwrap();
    assert_eq!(
        p.captures("né 12-345 and 6-7x"),
        Some(vec![Some((4, 10)), Some((4, 6)), Some((7, 10)), None])
    );
    assert_eq!(p.captures("nothing here"), None);
    let empty = Pattern::compile("").unwrap();
    assert_eq!(empty.captures("abc"), Some(vec![Some((0, 0))]));
}
