use pushdown::dataflow::JoinSemiLattice;
use pushdown::FieldSet;

fn fieldset_of_range(elts: impl Iterator<Item = usize>) -> FieldSet {
    let mut fs = FieldSet::empty();
    for e in elts {
        fs.set(e);
    }
    fs
}

fn fieldset_of_slice(elts: &[usize]) -> FieldSet {
    fieldset_of_range(elts.iter().cloned())
}

#[test]
fn fill_test() {
    let mut fs1 = FieldSet::singleton(2);
    let fs2 = FieldSet::singleton(7);
    fs1.fill(&fs2);
    assert_eq!(fs1, fieldset_of_slice(&[2, 3, 4, 5, 6, 7]));

    let mut fs3 = fieldset_of_slice(&[3, 5, 7, 15]);
    let fs4 = fieldset_of_slice(&[6, 13, 23]);
    fs3.fill(&fs4);
    assert_eq!(fs3, fieldset_of_range(3usize..=23));

    let mut fs5 = FieldSet::singleton(1);
    let fs6 = FieldSet::singleton(62);
    fs5.fill(&fs6);
    assert_eq!(fs5, fieldset_of_range(1usize..=62));

    let mut fs7 = FieldSet::all();
    fs7.fill(&fs2);
    assert_eq!(fs7, FieldSet::all());
    let mut fs8 = FieldSet::singleton(3);
    fs8.fill(&fs7);
    assert_eq!(fs8, FieldSet::all());
}

#[test]
fn fill_of_a_range_that_ends_before_it_starts_changes_nothing() {
    let mut fs = fieldset_of_slice(&[9, 20]);
    fs.fill(&fieldset_of_slice(&[1, 8]));
    assert_eq!(fs, fieldset_of_slice(&[9, 20]));
    fs.fill(&fieldset_of_slice(&[9]));
    assert_eq!(fs, fieldset_of_slice(&[9, 20]));
    fs.fill(&fieldset_of_slice(&[1, 10]));
    assert_eq!(fs, fieldset_of_slice(&[9, 10, 20]));
}

#[test]
fn fill_without_a_start_or_an_end_changes_nothing() {
    let mut none = FieldSet::empty();
    none.fill(&FieldSet::singleton(5));
    assert!(none.is_empty());
    let mut some = FieldSet::singleton(5);
    some.fill(&FieldSet::empty());
    assert_eq!(some, FieldSet::singleton(5));
}

#[test]
fn fill_does_not_count_fi_as_a_field() {
    let mut start = FieldSet::fi();
    start.fill(&FieldSet::singleton(4));
    assert_eq!(start, FieldSet::fi());
    let mut fs = FieldSet::singleton(2);
    fs.fill(&FieldSet::fi());
    assert_eq!(fs, FieldSet::singleton(2));
    let mut both = FieldSet::singleton(2);
    both.union(&FieldSet::fi());
    both.fill(&FieldSet::singleton(4));
    let mut expected = fieldset_of_slice(&[2, 3, 4]);
    expected.union(&FieldSet::fi());
    assert_eq!(both, expected);
}

#[test]
fn fill_is_monotone() {
    let mut small = fieldset_of_slice(&[4, 30]);
    small.fill(&FieldSet::singleton(6));
    let mut large = fieldset_of_slice(&[3, 4, 30]);
    large.fill(&fieldset_of_slice(&[6, 8]));
    let mut joined = large;
    joined.union(&small);
    assert_eq!(joined, large);
    assert_eq!(small, fieldset_of_slice(&[4, 5, 6, 30]));
    assert_eq!(large, fieldset_of_slice(&[3, 4, 5, 6, 7, 8, 30]));
}

#[test]
fn fill_does_not_commute_with_union() {
    let (mut one, mut other) = (FieldSet::singleton(1), FieldSet::empty());
    one.fill(&FieldSet::empty());
    other.fill(&FieldSet::singleton(5));
    one.union(&other);
    let mut together = FieldSet::singleton(1);
    together.fill(&FieldSet::singleton(5));
    assert_ne!(one, together);
}

#[test]
fn fill_reaches_the_last_field() {
    let mut fs = FieldSet::singleton(60);
    fs.fill(&FieldSet::singleton(63));
    assert_eq!(fs, fieldset_of_slice(&[60, 61, 62, 63]));
    let mut fs = FieldSet::singleton(63);
    fs.fill(&FieldSet::singleton(63));
    assert_eq!(fs, FieldSet::singleton(63));
    let mut fs = FieldSet::singleton(0);
    fs.fill(&FieldSet::singleton(63));
    assert_eq!(fs, fieldset_of_range(0usize..=63));
    assert_ne!(fs, FieldSet::all());
}

#[test]
fn a_field_that_is_set_is_covered() {
    let mut fs = FieldSet::empty();
    assert!(fs.is_empty());
    fs.set(0);
    fs.set(63);
    assert!(!fs.is_empty());
    for i in 0..200 {
        assert_eq!(fs.get(i), i == 0 || i == 63);
    }
}

#[test]
fn fields_up_to_63_are_told_apart() {
    for i in 0..=63 {
        let fs = FieldSet::singleton(i);
        assert_ne!(fs, FieldSet::all());
        assert!(!fs.has_fi());
        for j in 0..=64 {
            assert_eq!(fs.get(j), i == j);
        }
    }
    let fs = fieldset_of_range(0usize..=63);
    assert_ne!(fs, FieldSet::all());
    assert!(fs.get(63));
    assert!(!fs.get(64));
}

#[test]
fn fields_that_overflow_the_set_are_not_covered() {
    for i in [64, 65, 127, 128, 1000, usize::MAX] {
        assert!(!FieldSet::singleton(0).get(i));
        assert!(!FieldSet::singleton(1).get(i));
        assert!(!FieldSet::fi().get(i));
        assert!(!FieldSet::empty().get(i));
    }
}

#[test]
fn large_fields_make_the_set_say_yes_to_all_queries() {
    assert_eq!(FieldSet::singleton(64), FieldSet::all());
    assert_eq!(FieldSet::singleton(usize::MAX), FieldSet::all());
    let mut fs = FieldSet::singleton(1);
    fs.set(64);
    assert_eq!(fs, FieldSet::all());
    for i in [0, 1, 62, 63, 64, 1000, usize::MAX] {
        assert!(fs.get(i));
    }
}

#[test]
fn fi_is_a_member_of_its_own() {
    let fi = FieldSet::fi();
    assert!(fi.has_fi());
    assert!(!fi.is_empty());
    for i in 0..=64 {
        assert!(!fi.get(i));
    }
    assert!(!FieldSet::all().has_fi());
    assert!(!FieldSet::empty().has_fi());
    assert!(!FieldSet::singleton(63).has_fi());
    let mut most = fieldset_of_range(0usize..=62);
    most.union(&fi);
    assert!(most.has_fi());
    assert_ne!(most, FieldSet::all());
    most.set(63);
    assert_eq!(most, FieldSet::all());
    assert!(!most.has_fi());
}

#[test]
fn default_is_all() {
    assert_eq!(FieldSet::default(), FieldSet::all());
}

#[test]
fn union_is_a_join() {
    let a = fieldset_of_slice(&[1, 4]);
    let b = fieldset_of_slice(&[4, 9]);
    let mut ab = a;
    ab.union(&b);
    let mut ba = b;
    ba.union(&a);
    assert_eq!(ab, ba);
    assert_eq!(ab, fieldset_of_slice(&[1, 4, 9]));
    ab.union(&FieldSet::empty());
    assert_eq!(ab, ba);
    ab.union(&FieldSet::all());
    assert_eq!(ab, FieldSet::all());
}

#[test]
fn invoke_tells_whether_the_set_has_changed() {
    let mut fs = FieldSet::bottom();
    assert!(fs.is_empty());
    assert!(fs.invoke(&FieldSet::singleton(3), &()));
    assert!(!fs.invoke(&FieldSet::singleton(3), &()));
    assert!(!fs.invoke(&FieldSet::bottom(), &()));
    assert!(fs.invoke(&FieldSet::fi(), &()));
    assert!(fs.get(3) && fs.has_fi());
}

#[test]
fn sets_as_text() {
    assert_eq!(FieldSet::all().debug_text(), "<ALL>");
    assert_eq!(FieldSet::empty().debug_text(), "[]");
    assert_eq!(FieldSet::singleton(0).debug_text(), "[\"0\"]");
    assert_eq!(FieldSet::fi().debug_text(), "[\"FI[..]\"]");
    let mut fs = fieldset_of_slice(&[62, 2, 10]);
    assert_eq!(fs.debug_text(), "[\"2\", \"10\", \"62\"]");
    fs.union(&FieldSet::fi());
    assert_eq!(fs.debug_text(), "[\"2\", \"10\", \"62\", \"FI[..]\"]");
    let strings: Vec<String> = (0..=63).map(|x| format!("{}", x)).collect();
    assert_eq!(fieldset_of_range(0usize..=63).debug_text(), format!("{:?}", strings));
}
