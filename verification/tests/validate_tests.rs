use dumpflow::validate::{
    expected_property_values, extract_property_values, render_reason, validate, PropertySet,
};

fn keys() -> Vec<Vec<u8>> {
    vec![b"property_name_1".to_vec(), b"property_name_2".to_vec()]
}

fn table(rows: &[&[&str]]) -> Vec<Vec<Vec<u8>>> {
    rows.iter().map(|r| r.iter().map(|f| f.as_bytes().to_vec()).collect()).collect()
}

fn props(entries: &[(&str, &str)]) -> PropertySet {
    PropertySet {
        entries: entries
            .iter()
            .map(|(k, v)| (k.as_bytes().to_vec(), v.as_bytes().to_vec()))
            .collect(),
    }
}

#[test]
fn extracts_requested_keys_only() {
    let data = table(&[
        &["property_name_1", "expected_value_1"],
        &["unrelated", "x"],
        &["property_name_2", "expected_value_2"],
    ]);
    let ps = extract_property_values(&data, &keys());
    assert_eq!(ps.entries.len(), 2);
    assert_eq!(ps.get(b"property_name_1").unwrap(), b"expected_value_1");
    assert_eq!(ps.get(b"property_name_2").unwrap(), b"expected_value_2");
    assert!(ps.get(b"unrelated").is_none());
}

#[test]
fn last_occurrence_of_a_key_wins() {
    let data = table(&[
        &["property_name_1", "first"],
        &["property_name_1", "second"],
    ]);
    let ps = extract_property_values(&data, &keys());
    assert_eq!(ps.entries.len(), 1);
    assert_eq!(ps.get(b"property_name_1").unwrap(), b"second");
}

#[test]
fn short_rows_are_ignored() {
    let data = table(&[&["property_name_1"]]);
    let ps = extract_property_values(&data, &keys());
    assert_eq!(ps.entries.len(), 0);
}

#[test]
fn accepts_exact_match_only() {
    let expected = expected_property_values();
    let exact = props(&[
        ("property_name_1", "expected_value_1"),
        ("property_name_2", "expected_value_2"),
    ]);
    assert!(validate(&exact, &expected));

    let changed = props(&[
        ("property_name_1", "expected_value_1"),
        ("property_name_2", "wrong"),
    ]);
    assert!(!validate(&changed, &expected));

    let extra = props(&[
        ("property_name_1", "expected_value_1"),
        ("property_name_2", "expected_value_2"),
        ("property_name_3", "anything"),
    ]);
    assert!(!validate(&extra, &expected));

    let missing = props(&[("property_name_1", "expected_value_1")]);
    assert!(!validate(&missing, &expected));
}

#[test]
fn expected_configuration_contents() {
    let expected = expected_property_values();
    assert_eq!(expected.entries.len(), 2);
    assert_eq!(expected.get(b"property_name_1").unwrap(), b"expected_value_1");
    assert_eq!(expected.get(b"property_name_2").unwrap(), b"expected_value_2");
}

#[test]
fn reason_lists_observed_properties() {
    let ps = props(&[
        ("property_name_1", "expected_value_1"),
        ("property_name_2", "wrong"),
    ]);
    let reason = render_reason(&ps);
    assert_eq!(
        reason,
        b"property_name_1: expected_value_1\nproperty_name_2: wrong\n".to_vec()
    );
}

#[test]
fn reason_is_identical_on_repeated_validation() {
    let ps = props(&[
        ("property_name_1", "odd"),
        ("property_name_2", "wrong"),
    ]);
    let expected = expected_property_values();
    assert!(!validate(&ps, &expected));
    let first = render_reason(&ps);
    assert!(!validate(&ps, &expected));
    let second = render_reason(&ps);
    assert_eq!(first, second);
}
