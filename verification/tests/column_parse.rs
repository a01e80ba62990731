use pushdown::bytecode::{Instr, NumTy, Reg, Ty};
use pushdown::ColumnParseAnalysis;

fn is_float_column(inst: &Instr, to: NumTy, from: NumTy) -> bool {
    match inst {
        Instr::GetFloatColumn(dst, col) => dst.num() == to && col.num() == from,
        _ => false,
    }
}

#[test]
fn conversions_of_columns_become_float_columns() {
    let mut analysis = ColumnParseAnalysis::default();
    let mut read = Instr::GetColumn(Reg::new(1), Reg::new(2));
    let reg = analysis.visit_ll(|_| true, &mut read, &[]);
    assert_eq!(reg.map(|r| r.num()), Some(1));
    assert!(matches!(read, Instr::GetColumn(_, _)));

    let mut convert = Instr::StrToFloat(Reg::new(3), Reg::new(1));
    assert!(analysis.visit_ll(|_| true, &mut convert, &[(3, Ty::Float), (1, Ty::Str)]).is_none());
    assert!(is_float_column(&convert, 3, 2));
    assert!(analysis.avoid_parse(Reg::new(1)));
}

#[test]
fn only_registers_that_columns_are_read_into_avoid_a_parse() {
    let mut analysis = ColumnParseAnalysis::default();
    assert!(!analysis.avoid_parse(Reg::new(0)));
    let mut read = Instr::GetColumn(Reg::new(1), Reg::new(0));
    analysis.visit_ll(|_| true, &mut read, &[]);
    assert!(!analysis.avoid_parse(Reg::new(0)));
    assert!(analysis.avoid_parse(Reg::new(1)));
}

#[test]
fn other_conversions_stay() {
    let mut analysis = ColumnParseAnalysis::default();
    let mut convert = Instr::StrToFloat(Reg::new(3), Reg::new(1));
    assert!(analysis.visit_ll(|_| true, &mut convert, &[(3, Ty::Float), (1, Ty::Str)]).is_none());
    assert!(matches!(convert, Instr::StrToFloat(_, _)));
}

#[test]
fn globals_are_not_followed() {
    for global in [(1, Ty::Str), (2, Ty::Int)] {
        let mut analysis = ColumnParseAnalysis::default();
        let mut read = Instr::GetColumn(Reg::new(1), Reg::new(2));
        assert!(analysis.visit_ll(|reg| reg != global, &mut read, &[]).is_none());
        let mut convert = Instr::StrToFloat(Reg::new(3), Reg::new(1));
        analysis.visit_ll(|_| true, &mut convert, &[]);
        assert!(matches!(convert, Instr::StrToFloat(_, _)));
    }
}

#[test]
fn a_column_read_that_is_not_followed_counts_as_a_use() {
    let mut analysis = ColumnParseAnalysis::default();
    let mut read = Instr::GetColumn(Reg::new(1), Reg::new(2));
    analysis.visit_ll(|_| true, &mut read, &[(1, Ty::Str), (2, Ty::Int)]);
    assert!(analysis.avoid_parse(Reg::new(1)));
    analysis.visit_ll(|_| false, &mut read, &[(1, Ty::Str), (2, Ty::Int)]);
    assert!(!analysis.avoid_parse(Reg::new(1)));
}

#[test]
fn only_later_uses_as_a_string_count() {
    let mut analysis = ColumnParseAnalysis::default();
    analysis.visit_hl(&[(1, Ty::Str)]);
    let mut read = Instr::GetColumn(Reg::new(1), Reg::new(2));
    analysis.visit_ll(|_| true, &mut read, &[]);
    assert!(analysis.avoid_parse(Reg::new(1)));
    analysis.visit_hl(&[(1, Ty::Int), (7, Ty::Str)]);
    assert!(analysis.avoid_parse(Reg::new(1)));
    assert!(!analysis.avoid_parse(Reg::new(7)));
    analysis.visit_hl(&[(2, Ty::Int), (1, Ty::Str)]);
    assert!(!analysis.avoid_parse(Reg::new(1)));
}

#[test]
fn other_instructions_use_their_registers() {
    let mut analysis = ColumnParseAnalysis::default();
    let mut read = Instr::GetColumn(Reg::new(1), Reg::new(2));
    analysis.visit_ll(|_| true, &mut read, &[]);
    let mut other = Instr::Other;
    assert!(analysis.visit_ll(|_| true, &mut other, &[(1, Ty::Str)]).is_none());
    assert!(matches!(other, Instr::Other));
    assert!(!analysis.avoid_parse(Reg::new(1)));
}

#[test]
fn the_latest_read_numbers_the_column() {
    let mut analysis = ColumnParseAnalysis::default();
    for src in [2, 9] {
        let mut read = Instr::GetColumn(Reg::new(1), Reg::new(src));
        analysis.visit_ll(|_| true, &mut read, &[]);
    }
    let mut convert = Instr::StrToFloat(Reg::new(3), Reg::new(1));
    analysis.visit_ll(|_| true, &mut convert, &[]);
    assert!(is_float_column(&convert, 3, 9));
}

#[test]
fn clear_forgets_everything() {
    let mut analysis = ColumnParseAnalysis::default();
    let mut read = Instr::GetColumn(Reg::new(1), Reg::new(2));
    analysis.visit_ll(|_| true, &mut read, &[]);
    analysis.visit_hl(&[(1, Ty::Str)]);
    assert!(!analysis.avoid_parse(Reg::new(1)));
    analysis.clear();
    assert!(!analysis.avoid_parse(Reg::new(1)));
    analysis.visit_ll(|_| true, &mut read, &[]);
    assert!(analysis.avoid_parse(Reg::new(1)));
    analysis.clear();
    let mut convert = Instr::StrToFloat(Reg::new(3), Reg::new(1));
    analysis.visit_ll(|_| true, &mut convert, &[]);
    assert!(matches!(convert, Instr::StrToFloat(_, _)));
}
