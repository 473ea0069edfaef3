use feathers_inspector::entity_inspection::NameFilter;

#[test]
fn case_insensitive() {
    let filter = NameFilter::from("Foo");
    let names = ["foobar", "FOOBAR", "barfoo", "bar"];
    for (i, name) in names.iter().enumerate() {
        let matches = filter.matches(name);
        let expected = match i {
            0 => true,
            1 => true,
            2 => true,
            3 => false,
            _ => unreachable!(),
        };
        assert_eq!(matches, expected)
    }
}

#[test]
fn case_sensitive() {
    let filter = NameFilter::new("Foo".into(), true);
    let names = ["foobar", "FooBar", "bar"];
    for (i, name) in names.iter().enumerate() {
        let matches = filter.matches(name);
        let expected = match i {
            0 => false,
            1 => true,
            2 => false,
            _ => unreachable!(),
        };
        assert_eq!(matches, expected)
    }
}

#[test]
fn filter_from_string_ignores_case() {
    let filter = NameFilter::from("PLAYER".to_string());
    assert!(filter.matches("The Player"));
    assert!(!filter.matches("The Playe"));
    assert_eq!(filter, NameFilter::new("player".to_string(), false));
}

#[test]
fn empty_filter_matches_everything() {
    let filter = NameFilter::new(String::new(), true);
    assert!(filter.matches(""));
    assert!(filter.matches("anything"));
}
