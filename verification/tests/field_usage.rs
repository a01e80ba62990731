use pushdown::{FieldSet, FieldUsage};

#[test]
fn default_usage_reads_all_fields_as_strings() {
    let usage = FieldUsage::default();
    assert_eq!(usage.strs, FieldSet::all());
    assert!(usage.floats.is_empty());
    assert!(usage.parse_all());
    assert!(!usage.has_fi());
}

#[test]
fn from_strs_has_no_floats() {
    let usage = FieldUsage::from_strs(FieldSet::singleton(3));
    assert_eq!(usage.strs, FieldSet::singleton(3));
    assert_eq!(usage.floats, FieldSet::empty());
    assert!(!usage.parse_all());
    assert_eq!(usage.merged(), FieldSet::singleton(3));
}

#[test]
fn merged_is_the_union() {
    let usage = FieldUsage { strs: FieldSet::singleton(3), floats: FieldSet::singleton(5) };
    let merged = usage.merged();
    for i in 0..=64 {
        assert_eq!(merged.get(i), i == 3 || i == 5);
    }
    assert_eq!(usage.strs, FieldSet::singleton(3));
}

#[test]
fn parse_all_looks_at_strings_only() {
    let usage = FieldUsage { strs: FieldSet::empty(), floats: FieldSet::all() };
    assert!(!usage.parse_all());
}

#[test]
fn set_if_fi_adds_to_the_sets_that_wait() {
    let mut usage = FieldUsage { strs: FieldSet::fi(), floats: FieldSet::singleton(1) };
    assert!(usage.has_fi());
    usage.set_if_fi(4);
    assert!(usage.strs.get(4) && usage.strs.has_fi());
    assert_eq!(usage.floats, FieldSet::singleton(1));

    let mut usage = FieldUsage { strs: FieldSet::singleton(1), floats: FieldSet::fi() };
    assert!(usage.has_fi());
    usage.set_if_fi(70);
    assert_eq!(usage.strs, FieldSet::singleton(1));
    assert_eq!(usage.floats, FieldSet::all());
    assert!(usage.merged().get(70));
}

#[test]
fn set_if_fi_leaves_other_sets_alone() {
    let mut usage = FieldUsage { strs: FieldSet::all(), floats: FieldSet::singleton(1) };
    assert!(!usage.has_fi());
    let before = usage.clone();
    usage.set_if_fi(4);
    assert_eq!(usage, before);
}
