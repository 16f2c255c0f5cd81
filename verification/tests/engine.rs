use formula_engine::decode_col_component;
use formula_engine::decode_pos;
use formula_engine::decode_row_component;
use formula_engine::encode_pos;
use formula_engine::parse_formula;
use formula_engine::FormulaErrorMsg;
use formula_engine::GridProxy;
use formula_engine::Pos;

#[derive(Debug, Default, Copy, Clone)]
struct EmptyGrid;
impl GridProxy for EmptyGrid {
    fn get(&self, _pos: Pos) -> Option<String> {
        None
    }
}

#[derive(Debug, Default, Copy, Clone)]
struct PanicGrid;
impl GridProxy for PanicGrid {
    fn get(&self, pos: Pos) -> Option<String> {
        panic!("cell {pos:?} shouldn't be accessed")
    }
}

/// Column 0 holds "10" in row 1 and "5" in row 3; everything else is blank.
#[derive(Debug, Default, Copy, Clone)]
struct SumGrid;
impl GridProxy for SumGrid {
    fn get(&self, pos: Pos) -> Option<String> {
        match (pos.x, pos.y) {
            (0, 1) => Some("10".to_string()),
            (0, 3) => Some("5".to_string()),
            _ => None,
        }
    }
}

/// Every present cell holds the sum of its coordinates.
#[derive(Debug, Default, Copy, Clone)]
struct CoordSumGrid;
impl GridProxy for CoordSumGrid {
    fn get(&self, pos: Pos) -> Option<String> {
        Some((pos.x + pos.y).to_string())
    }
}

fn eval_text(text: &str, anchor: Pos, at: Pos) -> String {
    parse_formula(text, anchor)
        .unwrap()
        .eval(&EmptyGrid, at)
        .unwrap()
        .to_string()
}

fn eval_err(text: &str, anchor: Pos, at: Pos) -> FormulaErrorMsg {
    parse_formula(text, anchor)
        .unwrap()
        .eval(&EmptyGrid, at)
        .unwrap_err()
        .msg
}

#[test]
fn test_codec_round_trip() {
    let cases = [
        (0i64, 0i64),
        (1, 1),
        (-1, -1),
        (3, 4),
        (-2, -4),
        (-5, -2),
        (25, 10),
        (26, -10),
        (675, 99),
        (-676, -99),
        (1000000, -1000000),
        (i64::MAX, i64::MIN),
        (i64::MIN, i64::MAX),
    ];
    for (x, y) in cases {
        let p = Pos::new(x, y);
        let text = encode_pos(p);
        assert_eq!(Some(p), decode_pos(text.as_str()));
    }
}

#[test]
fn test_codec_exact_text() {
    assert_eq!("A0", encode_pos(Pos::new(1, 0)).as_str());
    assert_eq!("C4", encode_pos(Pos::new(3, 4)).as_str());
    assert_eq!("Z0", encode_pos(Pos::new(0, 0)).as_str());
    assert_eq!("ZBn4", encode_pos(Pos::new(-2, -4)).as_str());
    assert_eq!("ZEn2", encode_pos(Pos::new(-5, -2)).as_str());
    assert_eq!("An6", encode_pos(Pos::new(1, -6)).as_str());
    assert_eq!("Y1", encode_pos(Pos::new(25, 1)).as_str());
    assert_eq!("AA1", encode_pos(Pos::new(26, 1)).as_str());
}

#[test]
fn test_self_reference() {
    // A fully absolute reference to the cell the formula was anchored at.
    let form = parse_formula("$A$1", Pos::new(1, 1)).unwrap();
    assert_eq!(
        FormulaErrorMsg::CircularReference,
        form.eval(&CoordSumGrid, Pos::new(1, 1)).unwrap_err().msg,
    );
    // Anywhere else it reads the absolute target's content.
    assert_eq!(
        "2".to_string(),
        form.eval(&CoordSumGrid, Pos::new(0, 0)).unwrap().to_string(),
    );
}

#[test]
fn test_offset_stability() {
    // "A1" at anchor Z0 stores the relative offset (+1, +1) at parse time.
    let form = parse_formula("A1", Pos::new(0, 0)).unwrap();
    let first = form.eval(&CoordSumGrid, Pos::new(0, 0)).unwrap().to_string();
    let second = form.eval(&CoordSumGrid, Pos::new(5, 5)).unwrap().to_string();
    assert_eq!("2".to_string(), first); // reads (1, 1)
    assert_eq!("12".to_string(), second); // reads (6, 6)
    // Re-evaluating in the opposite order gives the same answers.
    assert_eq!(
        "12".to_string(),
        form.eval(&CoordSumGrid, Pos::new(5, 5)).unwrap().to_string(),
    );
    assert_eq!(
        "2".to_string(),
        form.eval(&CoordSumGrid, Pos::new(0, 0)).unwrap().to_string(),
    );
}

#[test]
fn test_exponent_right_associative() {
    assert_eq!("512", eval_text("2^3^2", Pos::new(0, 0), Pos::new(0, 0)).as_str());
}

#[test]
fn test_precedence() {
    assert_eq!("7", eval_text("1 + 2 * 3", Pos::new(0, 0), Pos::new(0, 0)).as_str());
    assert_eq!("4", eval_text("-2^2", Pos::new(0, 0), Pos::new(0, 0)).as_str());
    assert_eq!("9", eval_text("(1 + 2) * 3", Pos::new(0, 0), Pos::new(0, 0)).as_str());
}

#[test]
fn test_lazy_conditional() {
    // The unselected branch is a direct self-reference; it must never be
    // evaluated, and no cell may be read at all.
    let form = parse_formula("IF(TRUE, 1, $Z$0)", Pos::new(0, 0)).unwrap();
    assert_eq!(
        "1".to_string(),
        form.eval(&PanicGrid, Pos::new(0, 0)).unwrap().to_string(),
    );
}

#[test]
fn test_aggregate_mixed() {
    // Z1 holds 10, Z2 is blank, Z3 holds 5: blanks contribute nothing.
    let form = parse_formula("SUM(Z1, Z2, Z3)", Pos::new(0, 0)).unwrap();
    assert_eq!(
        "15".to_string(),
        form.eval(&SumGrid, Pos::new(0, 0)).unwrap().to_string(),
    );
    // Including a direct self-reference poisons the whole aggregate.
    let circular = parse_formula("SUM(Z1, $Z$0)", Pos::new(0, 0)).unwrap();
    assert_eq!(
        FormulaErrorMsg::CircularReference,
        circular.eval(&SumGrid, Pos::new(0, 0)).unwrap_err().msg,
    );
}

#[test]
fn test_concat_formatting() {
    assert_eq!("x-5", eval_text("'x' & -5", Pos::new(0, 0), Pos::new(0, 0)).as_str());
    assert_eq!("TRUE", eval_text("'' & TRUE", Pos::new(0, 0), Pos::new(0, 0)).as_str());
    // A blank reference formats as the empty string.
    assert_eq!("v", eval_text("'v' & A1", Pos::new(0, 0), Pos::new(0, 0)).as_str());
}

#[test]
fn test_comparisons() {
    assert_eq!("TRUE", eval_text("1 < 2", Pos::new(0, 0), Pos::new(0, 0)).as_str());
    assert_eq!("FALSE", eval_text("2 < 1", Pos::new(0, 0), Pos::new(0, 0)).as_str());
    assert_eq!("TRUE", eval_text("2 <> 3", Pos::new(0, 0), Pos::new(0, 0)).as_str());
    // Both sides numerically coercible: compared as numbers.
    assert_eq!("TRUE", eval_text("'2' = 2", Pos::new(0, 0), Pos::new(0, 0)).as_str());
    // Otherwise compared as text, by code point.
    assert_eq!("TRUE", eval_text("'apple' < 'banana'", Pos::new(0, 0), Pos::new(0, 0)).as_str());
    assert_eq!("TRUE", eval_text("'b' >= 'a'", Pos::new(0, 0), Pos::new(0, 0)).as_str());
    assert_eq!("TRUE", eval_text("10 >= 10", Pos::new(0, 0), Pos::new(0, 0)).as_str());
}

#[test]
fn test_error_divide_by_zero() {
    assert_eq!(FormulaErrorMsg::DivideByZero, eval_err("1/0", Pos::new(0, 0), Pos::new(0, 0)));
    assert_eq!("4", eval_text("8/2", Pos::new(0, 0), Pos::new(0, 0)).as_str());
    assert_eq!("-4", eval_text("8/-2", Pos::new(0, 0), Pos::new(0, 0)).as_str());
}

#[test]
fn test_error_type_mismatch() {
    assert_eq!(FormulaErrorMsg::TypeMismatch, eval_err("'a' + 1", Pos::new(0, 0), Pos::new(0, 0)));
    assert_eq!(FormulaErrorMsg::TypeMismatch, eval_err("IF(1, 2, 3)", Pos::new(0, 0), Pos::new(0, 0)));
}

#[test]
fn test_error_wrong_arity() {
    assert_eq!(FormulaErrorMsg::WrongArity, eval_err("IF(TRUE, 1)", Pos::new(0, 0), Pos::new(0, 0)));
}

#[test]
fn test_error_unknown_function() {
    assert_eq!(FormulaErrorMsg::UnknownFunction, eval_err("FOO(1)", Pos::new(0, 0), Pos::new(0, 0)));
}

#[test]
fn test_error_parse() {
    assert!(parse_formula("1 +", Pos::new(0, 0)).is_err());
    assert_eq!(
        FormulaErrorMsg::ParseError,
        parse_formula("1 +", Pos::new(0, 0)).unwrap_err().msg,
    );
    assert_eq!(
        FormulaErrorMsg::ParseError,
        parse_formula("(1", Pos::new(0, 0)).unwrap_err().msg,
    );
    assert_eq!(
        FormulaErrorMsg::ParseError,
        parse_formula("'open", Pos::new(0, 0)).unwrap_err().msg,
    );
}

#[test]
fn test_error_invalid_reference() {
    // 'Z' inside the magnitude part of a column is not a digit letter.
    assert_eq!(
        FormulaErrorMsg::InvalidReference,
        parse_formula("ZZ1", Pos::new(0, 0)).unwrap_err().msg,
    );
}

#[test]
fn test_error_overflow() {
    assert_eq!(
        FormulaErrorMsg::Overflow,
        eval_err("9223372036854775807 + 1", Pos::new(0, 0), Pos::new(0, 0)),
    );
    // An inexact quotient has no representable exact value.
    assert_eq!(FormulaErrorMsg::Overflow, eval_err("1/2", Pos::new(0, 0), Pos::new(0, 0)));
    // A negative exponent would leave the integers.
    assert_eq!(FormulaErrorMsg::Overflow, eval_err("2^-1", Pos::new(0, 0), Pos::new(0, 0)));
    assert_eq!(FormulaErrorMsg::Overflow, eval_err("2^64", Pos::new(0, 0), Pos::new(0, 0)));
}

#[test]
fn test_worked_reference_example() {
    // The anchor is column 3, row 4; relative offsets are baked at parse
    // time, so at column 0, row 0 the five references land on exactly these
    // cells.
    let form = parse_formula("SUM($C$4, $A0, D$n6, A0, ZB2)", Pos::new(3, 4)).unwrap();
    let total = form.eval(&CoordSumGrid, Pos::new(0, 0)).unwrap().to_string();
    // Targets: (3,4) (1,-4) (1,-6) (-2,-4) (-5,-2); each cell holds x + y.
    assert_eq!(((3 + 4) + (1 - 4) + (1 - 6) + (-2 - 4) + (-5 - 2)).to_string(), total);
}

#[test]
fn test_decode_components() {
    // The worked reference example, axis by axis, at anchor column 3 row 4.
    let c = decode_col_component("$C", 3).unwrap();
    assert!(c.is_absolute);
    assert_eq!(3, c.coord);
    let d = decode_col_component("D", 3).unwrap();
    assert!(!d.is_absolute);
    assert_eq!(1, d.coord);
    let zb = decode_col_component("ZB", 3).unwrap();
    assert!(!zb.is_absolute);
    assert_eq!(-5, zb.coord);
    let r0 = decode_row_component("0", 4).unwrap();
    assert!(!r0.is_absolute);
    assert_eq!(-4, r0.coord);
    let rn6 = decode_row_component("$n6", 4).unwrap();
    assert!(rn6.is_absolute);
    assert_eq!(-6, rn6.coord);
    assert!(decode_col_component("", 0).is_none());
    assert!(decode_col_component("ZZ", 0).is_none());
    assert!(decode_row_component("n", 0).is_none());
}

#[test]
fn test_negative_axis_reference() {
    // "Zn4" is column 0, row -4; both axes relative at anchor Z0.
    let form = parse_formula("Zn4", Pos::new(0, 0)).unwrap();
    assert_eq!(
        "-4".to_string(),
        form.eval(&CoordSumGrid, Pos::new(0, 0)).unwrap().to_string(),
    );
    // "ZB2" is column -2, row 2.
    let form2 = parse_formula("ZB2", Pos::new(0, 0)).unwrap();
    assert_eq!(
        "0".to_string(),
        form2.eval(&CoordSumGrid, Pos::new(0, 0)).unwrap().to_string(),
    );
}
