use plaza::dev::gal16v8::OutputMode;
use plaza::truthtable::TruthTable;
use plaza::var::Var;

#[test]
fn constants_as_text() {
    assert_eq!(TruthTable::always().to_text(), " * | 1");
    assert_eq!(TruthTable::never().to_text(), " * | 0");
}

#[test]
fn table_as_text() {
    let f = TruthTable::from("a").and(&TruthTable::from("b"));
    assert_eq!(
        f.to_text(),
        " a b |\n-----+---\n 0 0 | 0\n 1 0 | 0\n 0 1 | 0\n 1 1 | 1"
    );
}

#[test]
fn columns_are_as_wide_as_the_names() {
    let f = TruthTable::from("abc").or(&TruthTable::from("x").not());
    assert_eq!(
        f.to_text(),
        " abc x |\n-------+---\n   0 0 | 1\n   1 0 | 1\n   0 1 | 0\n   1 1 | 1"
    );
}

#[test]
fn width_is_counted_in_bytes() {
    let f = TruthTable::from("é");
    assert_eq!(f.to_text(), " é |\n----+---\n  0 | 0\n  1 | 1");
}

#[test]
fn empty_name_has_a_column_of_one() {
    let f = TruthTable::Explicit { vars: vec![Var::from("")], table: vec![true, false] };
    assert_eq!(f.to_text(), "  |\n--+---\n 0 | 1\n 1 | 0");
}

#[test]
fn modes_as_text() {
    assert_eq!(OutputMode::Disabled.to_text(), "disabled");
    let m = OutputMode::Combinatorial { tt: TruthTable::from("q") };
    assert_eq!(m.to_text(), "always-enabled combinatorial\n q |\n---+---\n 0 | 0\n 1 | 1");
    assert_eq!(m.clone().to_text(), m.to_text());
}
