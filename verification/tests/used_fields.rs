use pushdown::analysis::Analysis;
use pushdown::bytecode::{Flow, Instr, Int, Key, NumTy, Reg, Ty, Variable};
use pushdown::{FieldSet, FieldUsage, UsedFieldAnalysis};

fn int_reg(num: NumTy) -> Reg<Int> {
    Reg::new(num)
}

fn int_key(num: NumTy) -> Key {
    Key::Reg(num, Ty::Int)
}

fn constant(analysis: &mut UsedFieldAnalysis, num: NumTy, c: i64) {
    let flows = [Flow { dst: int_key(num), src: None }];
    analysis.visit_ll(&Instr::StoreConstInt(int_reg(num), c), &flows);
}

fn copy(analysis: &mut UsedFieldAnalysis, dst: NumTy, src: NumTy) {
    let flows = [Flow { dst: int_key(dst), src: Some(int_key(src)) }];
    analysis.visit_ll(&Instr::Mov, &flows);
}

fn get_column(analysis: &mut UsedFieldAnalysis, dst: NumTy, col: NumTy) {
    analysis.visit_ll(&Instr::GetColumn(Reg::new(dst), int_reg(col)), &[]);
}

fn fields(elts: &[usize]) -> FieldSet {
    let mut fs = FieldSet::empty();
    for e in elts {
        fs.set(*e);
    }
    fs
}

#[test]
fn a_program_without_columns_uses_no_fields() {
    let mut analysis = UsedFieldAnalysis::default();
    constant(&mut analysis, 0, 5);
    assert_eq!(analysis.solve(), FieldUsage::from_strs(FieldSet::empty()));
}

#[test]
fn constants_number_columns() {
    let mut analysis = UsedFieldAnalysis::default();
    constant(&mut analysis, 0, 2);
    constant(&mut analysis, 1, 7);
    constant(&mut analysis, 2, 9);
    get_column(&mut analysis, 10, 0);
    get_column(&mut analysis, 11, 1);
    assert_eq!(analysis.solve(), FieldUsage::from_strs(fields(&[2, 7])));
}

#[test]
fn a_register_without_a_value_numbers_no_column() {
    let mut analysis = UsedFieldAnalysis::default();
    get_column(&mut analysis, 10, 0);
    assert_eq!(analysis.solve(), FieldUsage::from_strs(FieldSet::empty()));
}

#[test]
fn large_and_negative_constants_can_be_any_field() {
    for c in [64, i64::MAX, -1, i64::MIN] {
        let mut analysis = UsedFieldAnalysis::default();
        constant(&mut analysis, 0, c);
        get_column(&mut analysis, 10, 0);
        assert!(analysis.solve().parse_all());
    }
    let mut analysis = UsedFieldAnalysis::default();
    constant(&mut analysis, 0, 63);
    get_column(&mut analysis, 10, 0);
    assert_eq!(analysis.solve().strs, FieldSet::singleton(63));
}

#[test]
fn moves_and_phis_carry_constants() {
    let mut analysis = UsedFieldAnalysis::default();
    get_column(&mut analysis, 10, 3);
    copy(&mut analysis, 3, 2);
    analysis.visit_hl(&[
        Flow { dst: int_key(2), src: Some(int_key(0)) },
        Flow { dst: int_key(2), src: Some(int_key(1)) },
    ]);
    constant(&mut analysis, 0, 4);
    constant(&mut analysis, 1, 8);
    assert_eq!(analysis.solve().strs, fields(&[4, 8]));
}

#[test]
fn cycles_have_a_least_solution() {
    let mut analysis = UsedFieldAnalysis::default();
    copy(&mut analysis, 0, 1);
    copy(&mut analysis, 1, 2);
    copy(&mut analysis, 2, 0);
    constant(&mut analysis, 1, 6);
    constant(&mut analysis, 5, 7);
    copy(&mut analysis, 5, 0);
    get_column(&mut analysis, 10, 2);
    assert_eq!(analysis.solve().strs, fields(&[6]));
}

#[test]
fn a_column_numbered_by_a_column_can_be_any_field() {
    let mut analysis = UsedFieldAnalysis::default();
    constant(&mut analysis, 2, 2);
    get_column(&mut analysis, 1, 2);
    let flows = [Flow { dst: int_key(0), src: Some(Key::Reg(1, Ty::Str)) }];
    analysis.visit_ll(&Instr::Other, &flows);
    get_column(&mut analysis, 3, 0);
    assert!(analysis.solve().parse_all());
}

#[test]
fn moving_instructions_can_yield_zero() {
    for inst in [Instr::Lookup, Instr::Store, Instr::IterBegin, Instr::IterGetNext, Instr::Mov] {
        let mut analysis = UsedFieldAnalysis::default();
        let map = Key::Other(1);
        constant(&mut analysis, 1, 12);
        copy(&mut analysis, 0, 1);
        analysis.visit_ll(&Instr::Store, &[Flow { dst: map, src: Some(int_key(0)) }]);
        let flows =
            [Flow { dst: int_key(4), src: Some(map) }, Flow { dst: int_key(4), src: None }];
        analysis.visit_ll(&inst, &flows);
        get_column(&mut analysis, 10, 4);
        assert_eq!(analysis.solve().strs, fields(&[0, 12]));
    }
}

#[test]
fn fi_values_wait_for_the_header() {
    let mut analysis = UsedFieldAnalysis::default();
    let (keys, values) = (Key::Other(1), Key::Other(2));
    let flows = [
        Flow { dst: keys, src: Some(Key::VarKey(Variable::FI)) },
        Flow { dst: values, src: Some(Key::VarVal(Variable::FI)) },
    ];
    analysis.visit_ll(&Instr::LoadVarStrMap(Variable::FI), &flows);
    analysis.visit_ll(&Instr::Lookup, &[Flow { dst: int_key(0), src: Some(values) }]);
    get_column(&mut analysis, 10, 0);
    let mut usage = analysis.solve();
    assert_eq!(usage, FieldUsage::from_strs(FieldSet::fi()));
    assert!(usage.has_fi());
    usage.set_if_fi(5);
    assert!(usage.merged().get(5));
}

#[test]
fn values_stored_in_fi_are_followed() {
    let mut analysis = UsedFieldAnalysis::default();
    let values = Key::Other(2);
    constant(&mut analysis, 1, 30);
    analysis.visit_ll(&Instr::Store, &[Flow { dst: values, src: Some(int_key(1)) }]);
    let flows = [Flow { dst: Key::VarVal(Variable::FI), src: Some(values) }];
    analysis.visit_ll(&Instr::StoreVarStrMap(Variable::FI), &flows);
    analysis.visit_ll(
        &Instr::LoadVarStrMap(Variable::FI),
        &[Flow { dst: int_key(0), src: Some(Key::VarVal(Variable::FI)) }],
    );
    get_column(&mut analysis, 10, 0);
    let mut expected = FieldSet::fi();
    expected.set(30);
    assert_eq!(analysis.solve().strs, expected);
}

#[test]
fn fi_keys_and_random_numbers_can_be_any_field() {
    for key in [Key::VarKey(Variable::FI), Key::Rng] {
        let mut analysis = UsedFieldAnalysis::default();
        analysis.visit_ll(&Instr::Mov, &[Flow { dst: int_key(0), src: Some(key) }]);
        get_column(&mut analysis, 10, 0);
        assert!(analysis.solve().parse_all());
    }
}

#[test]
fn other_variables_can_be_any_field() {
    for inst in [
        Instr::LoadVarStrMap(Variable::Other(3)),
        Instr::StoreVarStrMap(Variable::Other(3)),
        Instr::StrToFloat(Reg::new(0), Reg::new(1)),
    ] {
        let mut analysis = UsedFieldAnalysis::default();
        analysis.visit_ll(&inst, &[Flow { dst: int_key(0), src: Some(int_key(1)) }]);
        get_column(&mut analysis, 10, 0);
        assert!(analysis.solve().parse_all());
    }
}

#[test]
fn float_columns_are_kept_apart() {
    let mut analysis = UsedFieldAnalysis::default();
    constant(&mut analysis, 0, 2);
    constant(&mut analysis, 1, 3);
    get_column(&mut analysis, 10, 0);
    analysis.visit_ll(&Instr::GetFloatColumn(Reg::new(11), int_reg(1)), &[]);
    let usage = analysis.solve();
    assert_eq!(usage, FieldUsage { strs: fields(&[2]), floats: fields(&[3]) });
    assert_eq!(usage.merged(), fields(&[2, 3]));
}

#[test]
fn unknown_float_columns_make_all_fields_strings() {
    let mut analysis = UsedFieldAnalysis::default();
    constant(&mut analysis, 0, 2);
    constant(&mut analysis, 1, 100);
    get_column(&mut analysis, 10, 0);
    analysis.visit_ll(&Instr::GetFloatColumn(Reg::new(11), int_reg(1)), &[]);
    assert_eq!(analysis.solve(), FieldUsage::default());
}

#[test]
fn float_columns_write_values_that_are_not_known() {
    let mut analysis = UsedFieldAnalysis::default();
    constant(&mut analysis, 1, 3);
    analysis.visit_ll(&Instr::GetFloatColumn(Reg::new(11), int_reg(1)), &[]);
    let flows = [Flow { dst: int_key(0), src: Some(Key::Reg(11, Ty::Float)) }];
    analysis.visit_ll(&Instr::Mov, &flows);
    get_column(&mut analysis, 10, 0);
    let usage = analysis.solve();
    assert_eq!(usage, FieldUsage { strs: FieldSet::all(), floats: fields(&[3]) });
}

#[test]
fn joins_read_all_columns_of_their_range() {
    let (dst, start, end) = (Reg::new(10), int_reg(0), int_reg(1));
    for join in [
        Instr::JoinCSV(dst, start, end),
        Instr::JoinTSV(dst, start, end),
        Instr::JoinColumns(dst, start, end),
    ] {
        let mut analysis = UsedFieldAnalysis::default();
        constant(&mut analysis, 0, 3);
        constant(&mut analysis, 1, 6);
        analysis.visit_ll(&join, &[]);
        assert_eq!(analysis.solve(), FieldUsage::from_strs(fields(&[3, 4, 5, 6])));

        let mut analysis = UsedFieldAnalysis::default();
        constant(&mut analysis, 0, 3);
        constant(&mut analysis, 1, 64);
        analysis.visit_ll(&join, &[]);
        assert!(analysis.solve().parse_all());

        let mut analysis = UsedFieldAnalysis::default();
        analysis.visit_ll(&join, &[]);
        let flows = [Flow { dst: int_key(7), src: Some(Key::Reg(10, Ty::Str)) }];
        analysis.visit_ll(&Instr::Mov, &flows);
        get_column(&mut analysis, 11, 7);
        assert!(analysis.solve().parse_all());
    }
}

/// The usage of a join of the columns from register 0 to register 1, each of which can hold some
/// constants, or a value of `FI`.
fn usage_of_join(start: &[i64], start_fi: bool, end: &[i64], end_fi: bool) -> FieldUsage {
    let mut analysis = UsedFieldAnalysis::default();
    for (num, constants, from_fi) in [(0, start, start_fi), (1, end, end_fi)] {
        for c in constants {
            constant(&mut analysis, num, *c);
        }
        if from_fi {
            let flow = Flow { dst: int_key(num), src: Some(Key::VarVal(Variable::FI)) };
            analysis.visit_ll(&Instr::Lookup, &[flow]);
        }
    }
    analysis.visit_ll(&Instr::JoinColumns(Reg::new(10), int_reg(0), int_reg(1)), &[]);
    analysis.solve()
}

#[test]
fn joins_that_end_at_fi_read_any_field() {
    for (start, start_fi) in [(&[1][..], false), (&[][..], true), (&[1][..], true)] {
        for end in [&[][..], &[5][..]] {
            let usage = usage_of_join(start, start_fi, end, true);
            assert_eq!(usage, FieldUsage::from_strs(FieldSet::all()));
        }
    }
}

#[test]
fn joins_that_start_at_fi_read_up_to_their_end() {
    let mut expected = fields(&[1, 2, 3, 4, 5]);
    expected.union(&FieldSet::fi());
    assert_eq!(usage_of_join(&[], true, &[5], false), FieldUsage::from_strs(expected));
    assert_eq!(usage_of_join(&[3], true, &[2, 5], false).strs, expected);
    expected.set(0);
    let mut usage = usage_of_join(&[0], true, &[5], false);
    assert_eq!(usage, FieldUsage::from_strs(expected));
    usage.set_if_fi(2);
    for i in 2..=5 {
        assert!(usage.merged().get(i));
    }
    assert!(!usage.merged().get(6));
    assert!(usage_of_join(&[], true, &[64], false).parse_all());
}

#[test]
fn joins_that_start_at_fi_and_end_at_zero_read_the_start_only() {
    let mut usage = usage_of_join(&[], true, &[0], false);
    assert_eq!(usage, FieldUsage::from_strs(FieldSet::fi()));
    usage.set_if_fi(0);
    assert!(usage.merged().get(0));
}

#[test]
fn joins_without_a_start_or_an_end_read_no_more_than_the_start() {
    assert_eq!(usage_of_join(&[], false, &[], true).strs, FieldSet::empty());
    assert_eq!(usage_of_join(&[], false, &[5], true).strs, FieldSet::empty());
    assert_eq!(usage_of_join(&[], true, &[], false).strs, FieldSet::fi());
    assert_eq!(usage_of_join(&[4], false, &[], false).strs, fields(&[4]));
}

#[test]
fn joins_and_columns_add_up() {
    let mut analysis = UsedFieldAnalysis::default();
    constant(&mut analysis, 0, 3);
    constant(&mut analysis, 1, 4);
    constant(&mut analysis, 2, 20);
    get_column(&mut analysis, 11, 2);
    analysis.visit_ll(&Instr::JoinCSV(Reg::new(10), int_reg(0), int_reg(1)), &[]);
    analysis.visit_ll(&Instr::JoinTSV(Reg::new(10), int_reg(1), int_reg(0)), &[]);
    assert_eq!(analysis.solve().strs, fields(&[3, 4, 20]));
}

#[test]
fn more_instructions_never_remove_a_field() {
    let mut one = UsedFieldAnalysis::default();
    constant(&mut one, 0, 3);
    get_column(&mut one, 10, 0);
    let mut more = UsedFieldAnalysis::default();
    constant(&mut more, 0, 3);
    get_column(&mut more, 10, 0);
    constant(&mut more, 0, 9);
    let (small, large) = (one.solve().merged(), more.solve().merged());
    assert_eq!(small, fields(&[3]));
    assert_eq!(large, fields(&[3, 9]));
}

#[test]
fn queries_give_the_least_solution() {
    let mut dfa = Analysis::default();
    let (a, b, c) = (Key::Other(1), Key::Other(2), Key::Other(3));
    dfa.add_query(c);
    dfa.add_src(a, FieldSet::singleton(1));
    dfa.add_src(a, FieldSet::singleton(2));
    dfa.add_dep(b, a);
    dfa.add_dep(c, b);
    assert_eq!(dfa.query(a), fields(&[1, 2]));
    assert_eq!(dfa.query(c), fields(&[1, 2]));
    assert!(dfa.query(Key::Rng).is_empty());
    dfa.add_src(b, FieldSet::singleton(5));
    assert_eq!(dfa.query(a), fields(&[1, 2]));
    assert_eq!(dfa.query(b), fields(&[1, 2, 5]));
    assert_eq!(dfa.query(c), fields(&[1, 2, 5]));
}

#[test]
fn registers_of_different_types_are_different_places() {
    let mut analysis = UsedFieldAnalysis::default();
    constant(&mut analysis, 0, 3);
    let flows = [Flow { dst: Key::Reg(0, Ty::Str), src: None }];
    analysis.visit_ll(&Instr::Other, &flows);
    get_column(&mut analysis, 10, 0);
    assert_eq!(analysis.solve().strs, fields(&[3]));
}
