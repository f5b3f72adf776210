use authorship::authors::Authors;

fn pair(from: &str, to: &str) -> (String, String) {
    (from.to_string(), to.to_string())
}

#[test]
fn two_names_renamed_to_each_other_are_a_cycle() {
    let authors = Authors::new(vec![pair("alice@x", "alice@y"), pair("alice@y", "alice@x")]);
    let err = authors.check_for_cycles().unwrap_err();
    assert!(err.name == "alice@x" || err.name == "alice@y");
    assert_eq!(err.message(), format!("author loop detected containing {}", err.name));
}

#[test]
fn a_single_rename_passes_and_resolves() {
    let authors = Authors::new(vec![pair("alice@x", "alice@y")]);
    assert!(authors.check_for_cycles().is_ok());
    assert_eq!(authors.get("alice@x"), "alice@y");
    assert_eq!(authors.get("alice@y"), "alice@y");
    assert_eq!(authors.get("bob"), "bob");
}

#[test]
fn a_self_rename_is_a_cycle() {
    let authors = Authors::new(vec![pair("a", "a")]);
    let err = authors.check_for_cycles().unwrap_err();
    assert_eq!(err.name, "a");
    assert_eq!(authors.try_get("a"), None);
}

#[test]
fn a_chain_of_renames_is_followed_to_its_end() {
    let authors = Authors::new(vec![pair("a", "b"), pair("b", "c"), pair("c", "d")]);
    assert!(authors.check_for_cycles().is_ok());
    assert_eq!(authors.get("a"), "d");
    assert_eq!(authors.get("b"), "d");
    assert_eq!(authors.try_get("a"), Some("d".to_string()));
    let once = authors.get("a");
    assert_eq!(authors.get(&once), once);
}

#[test]
fn a_later_pair_overrides_an_earlier_one() {
    let authors = Authors::new(vec![pair("a", "b"), pair("a", "c")]);
    assert!(authors.check_for_cycles().is_ok());
    assert_eq!(authors.get("a"), "c");
}

#[test]
fn a_cycle_of_three_is_found_from_a_tail() {
    let authors = Authors::new(vec![pair("t", "a"), pair("a", "b"), pair("b", "c"), pair("c", "a")]);
    let err = authors.check_for_cycles().unwrap_err();
    assert!(["a", "b", "c"].contains(&err.name.as_str()));
    assert_eq!(authors.try_get("t"), None);
    assert_eq!(authors.try_get("z"), Some("z".to_string()));
}

#[test]
fn by_default_no_author_is_renamed() {
    let authors = Authors::default();
    assert!(authors.check_for_cycles().is_ok());
    assert_eq!(authors.get("alice@x"), "alice@x");
}
