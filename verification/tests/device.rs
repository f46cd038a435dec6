use plaza::dev::gal16v8::{find_input_bit, find_macrocell, OutputMode};
use plaza::dev::jedec::{checksum, push_decimal2, push_decimal4, push_hex4, push_row_codes};
use plaza::dev::GAL16V8;
use plaza::error::Error;
use plaza::truthtable::{Factor, TruthTable};
use plaza::var::Var;

const HEAD: &str = "\x02\n\n*N GAL16V8 fuse layout\n  *F0 *G0 *QF2194\n\n*N Simple mode\n  *L2192 1 *L2193 0\n";
const TAIL: &str = "\n*N End of image.\n\n\x03";

fn unused(pin: u32, fuse: u32) -> String {
    format!("\n*N Macrocell for pin {}\n  *N Unused *L{:04} 0\n", pin, fuse)
}

fn sum_of(text: &str) -> u16 {
    let mut sum: u16 = 0;
    for c in text.chars() {
        sum = sum.wrapping_add(c as u32 as u16);
    }
    sum
}

fn with_checksum(body: String) -> String {
    let sum = sum_of(&body);
    format!("{}{:04X}\n", body, sum)
}

fn written(dev: &GAL16V8) -> Result<String, Error> {
    let mut out = String::new();
    dev.write(&mut out).map(|_| out)
}

#[test]
fn empty_device_writes_eight_unused_macrocells() {
    let dev = GAL16V8::new();
    let mut body = String::from(HEAD);
    for (pin, fuse) in [
        (12, 2127),
        (13, 2126),
        (14, 2125),
        (15, 2124),
        (16, 2123),
        (17, 2122),
        (18, 2121),
        (19, 2120),
    ] {
        body.push_str(&unused(pin, fuse));
    }
    body.push_str(TAIL);
    assert_eq!(written(&dev).unwrap(), with_checksum(body));
}

#[test]
fn and_gate_end_to_end() {
    let mut dev = GAL16V8::new();
    let a = dev.input(2, "a").unwrap();
    let b = dev.input(3, "b").unwrap();
    dev.combinatorial_output(19, a.and(&b)).unwrap();
    let mut body = String::from(HEAD);
    for (pin, fuse) in
        [(12, 2127), (13, 2126), (14, 2125), (15, 2124), (16, 2123), (17, 2122), (18, 2121)]
    {
        body.push_str(&unused(pin, fuse));
    }
    body.push_str("\n*N Macrocell for pin 19\n");
    body.push_str("  *N Combinatorial *L2120 0\n");
    body.push_str("  *N Positive polarity *L2048 1\n");
    body.push_str("  *L2128 1 *L0000 01110111111111111111111111111111\n");
    body.push_str(TAIL);
    let text = written(&dev).unwrap();
    assert_eq!(text, with_checksum(body));
    // the checksum line covers everything before it
    let split = text.len() - 5;
    assert_eq!(&text[split..], format!("{:04X}\n", sum_of(&text[..split])));
    let rows = text.lines().filter(|l| l.starts_with("  *L") && l.contains(" 1 *L0")).count();
    assert_eq!(rows, 1);
}

#[test]
fn inverse_cover_is_written_with_negative_polarity() {
    let mut dev = GAL16V8::new();
    let a = dev.input(2, "a").unwrap();
    let b = dev.input(19, "b").unwrap();
    let c = dev.input(12, "c").unwrap();
    // three terms as it is, one term inverted
    dev.combinatorial_output(18, a.or(&b).or(&c)).unwrap();
    let text = written(&dev).unwrap();
    let block = "\n*N Macrocell for pin 18\n  *N Combinatorial *L2121 0\n  *N Negative polarity *L2049 0\n  *L2136 1 *L0256 10101111111111111111111111111110\n";
    assert!(text.contains(block));
}

#[test]
fn later_rows_have_later_addresses() {
    let mut dev = GAL16V8::new();
    let a = dev.input(4, "a").unwrap();
    let b = dev.input(5, "b").unwrap();
    dev.combinatorial_output(12, a.xor(&b)).unwrap();
    let text = written(&dev).unwrap();
    // a at bit 4, b at bit 6; the terms are (a false, b true) and (a true, b false)
    let block = "\n*N Macrocell for pin 12\n  *N Combinatorial *L2127 0\n  *N Positive polarity *L2055 1\n  *L2184 1 *L1792 11111111101101111111111111111111\n  *L2185 1 *L1824 11111111011110111111111111111111\n";
    assert!(text.contains(block), "{}", text);
}

#[test]
fn disabled_output_sets_the_enable_fuse() {
    let mut dev = GAL16V8::new();
    dev.disable_output(15).unwrap();
    let text = written(&dev).unwrap();
    assert!(text.contains("\n*N Macrocell for pin 15\n  *N Disabled *L2124 1\n"));
    assert!(text.contains("\n*N Macrocell for pin 14\n  *N Unused *L2125 0\n"));
}

#[test]
fn registering_the_same_input_again_changes_nothing() {
    let mut dev = GAL16V8::new();
    let first = dev.input(2, "a").unwrap();
    let again = dev.input(2, "a").unwrap();
    assert!(first.equals(&again).unwrap());
    dev.combinatorial_output(19, first).unwrap();
    let once = written(&dev).unwrap();
    dev.input(2, "a").unwrap();
    assert_eq!(written(&dev).unwrap(), once);
}

#[test]
fn a_name_cannot_be_bound_to_two_pins() {
    let mut dev = GAL16V8::new();
    dev.input(2, "a").unwrap();
    match dev.input(3, "a") {
        Err(Error::ConflictingBinding { name, bound, pin }) => {
            assert_eq!(name.as_str(), "a");
            assert_eq!(bound, 2);
            assert_eq!(pin, 3);
        }
        other => panic!("expected a conflicting binding, got {:?}", other),
    }
    // pin 4 is the input at position 4: the pin is what is remembered
    dev.input(4, "d").unwrap();
    dev.input(4, "d").unwrap();
    assert!(matches!(dev.input(5, "d"), Err(Error::ConflictingBinding { bound: 4, pin: 5, .. })));
    // two names may share a pin
    dev.input(2, "also_a").unwrap();
}

#[test]
fn illegal_pins_are_refused() {
    let mut dev = GAL16V8::new();
    for pin in [0, 1, 10, 11, 20, 100] {
        assert!(matches!(dev.input(pin, "x"), Err(Error::IllegalInputPin { pin: p }) if p == pin));
    }
    for pin in [0, 2, 11, 20] {
        assert!(
            matches!(dev.disable_output(pin), Err(Error::IllegalOutputPin { pin: p }) if p == pin)
        );
        assert!(matches!(
            dev.combinatorial_output(pin, TruthTable::always()),
            Err(Error::IllegalOutputPin { pin: p }) if p == pin
        ));
    }
    // an illegal pin is reported before a conflict
    dev.input(2, "x").unwrap();
    assert!(matches!(dev.input(11, "x"), Err(Error::IllegalInputPin { pin: 11 })));
    assert_eq!(written(&dev).unwrap(), written(&GAL16V8::new()).unwrap());
}

#[test]
fn equal_functions_on_one_output_are_accepted() {
    let mut dev = GAL16V8::new();
    let a = dev.input(2, "a").unwrap();
    let b = dev.input(3, "b").unwrap();
    dev.combinatorial_output(19, a.and(&b).not()).unwrap();
    let once = written(&dev).unwrap();
    // the same function, built another way and listed in another order
    dev.combinatorial_output(19, a.not().or(&b.not())).unwrap();
    let swapped = TruthTable::Explicit {
        vars: vec![Var::from("b"), Var::from("a")],
        table: vec![true, true, true, false],
    };
    dev.combinatorial_output(19, swapped).unwrap();
    assert_eq!(written(&dev).unwrap(), once);
}

#[test]
fn different_functions_on_one_output_conflict() {
    let mut dev = GAL16V8::new();
    let a = dev.input(2, "a").unwrap();
    let b = dev.input(3, "b").unwrap();
    dev.combinatorial_output(19, a.and(&b)).unwrap();
    let once = written(&dev).unwrap();
    match dev.combinatorial_output(19, a.or(&b)) {
        Err(Error::ConflictingConfiguration { pin, current, requested }) => {
            assert_eq!(pin, 19);
            match (current, requested) {
                (
                    OutputMode::Combinatorial { tt: current },
                    OutputMode::Combinatorial { tt: requested },
                ) => {
                    assert!(current.equals(&a.and(&b)).unwrap());
                    assert!(requested.equals(&a.or(&b)).unwrap());
                }
                _ => panic!("both are functions"),
            }
        }
        other => panic!("expected a conflict, got {:?}", other),
    }
    assert_eq!(written(&dev).unwrap(), once);
}

#[test]
fn disabled_and_combinatorial_conflict() {
    let mut dev = GAL16V8::new();
    let a = dev.input(2, "a").unwrap();
    dev.disable_output(12).unwrap();
    dev.disable_output(12).unwrap();
    assert!(matches!(
        dev.combinatorial_output(12, a.clone()),
        Err(Error::ConflictingConfiguration {
            pin: 12,
            current: OutputMode::Disabled,
            requested: OutputMode::Combinatorial { .. }
        })
    ));
    dev.combinatorial_output(13, a).unwrap();
    assert!(matches!(
        dev.disable_output(13),
        Err(Error::ConflictingConfiguration {
            pin: 13,
            current: OutputMode::Combinatorial { .. },
            requested: OutputMode::Disabled
        })
    ));
}

fn parity(dev: &mut GAL16V8, pins: &[u32]) -> TruthTable {
    let mut f = TruthTable::never();
    for pin in pins {
        let v = dev.input(*pin, &format!("p{}", pin)).unwrap();
        f = f.xor(&v);
    }
    f
}

#[test]
fn eight_terms_do_not_fit() {
    let mut dev = GAL16V8::new();
    let f = parity(&mut dev, &[2, 3, 4, 5]);
    assert_eq!(f.dnf().terms.len(), 8);
    assert_eq!(f.not().dnf().terms.len(), 8);
    dev.combinatorial_output(16, f).unwrap();
    let mut out = String::from("kept");
    match dev.write(&mut out) {
        Err(Error::CapacityExceeded { pin, needed, available }) => {
            assert_eq!(pin, 16);
            assert_eq!(needed, 8);
            assert_eq!(available, 8);
        }
        other => panic!("expected a capacity failure, got {:?}", other),
    }
    assert_eq!(out, "kept");
}

#[test]
fn sixteen_terms_do_not_fit() {
    let mut dev = GAL16V8::new();
    let f = parity(&mut dev, &[2, 3, 4, 5, 6]);
    dev.combinatorial_output(19, f).unwrap();
    assert!(matches!(
        written(&dev),
        Err(Error::CapacityExceeded { pin: 19, needed: 16, available: 8 })
    ));
}

#[test]
fn seven_terms_fit() {
    let mut dev = GAL16V8::new();
    // seven of the eight odd rows of four variables
    let f = parity(&mut dev, &[2, 3, 4, 5]);
    let names: Vec<String> = [2, 3, 4, 5].iter().map(|p| format!("p{}", p)).collect();
    // drop one odd row: p2 and not p3 and not p4 and not p5
    let mut one = TruthTable::from(&names[0]);
    for n in &names[1..] {
        one = one.and(&TruthTable::from(n).not());
    }
    let g = f.and(&one.not());
    assert_eq!(g.true_rows(), 7);
    dev.combinatorial_output(17, g).unwrap();
    let text = written(&dev).unwrap();
    let rows = text.lines().filter(|l| l.starts_with("  *L") && l.contains(" 1 *L0")).count();
    assert_eq!(rows, 7);
    assert!(text.contains("  *L2144 1 *L0512 "));
    assert!(text.contains("  *L2150 1 *L0704 "));
}

#[test]
fn a_variable_that_is_no_input_cannot_be_written() {
    let mut dev = GAL16V8::new();
    let a = dev.input(2, "a").unwrap();
    let z = TruthTable::from("z");
    dev.combinatorial_output(19, a.and(&z)).unwrap();
    match written(&dev) {
        Err(Error::UnboundVariable { pin, name }) => {
            assert_eq!(pin, 19);
            assert_eq!(name.as_str(), "z");
        }
        other => panic!("expected an unbound variable, got {:?}", other),
    }
}

#[test]
fn a_variable_that_the_cover_drops_need_not_be_an_input() {
    let mut dev = GAL16V8::new();
    let a = dev.input(2, "a").unwrap();
    let z = TruthTable::from("z");
    // (a and z) or (a and not z) is a
    dev.combinatorial_output(19, a.and(&z).or(&a.and(&z.not()))).unwrap();
    let text = written(&dev).unwrap();
    assert!(text.contains("  *L2128 1 *L0000 01111111111111111111111111111111\n"));
}

#[test]
fn a_table_without_variables_cannot_be_written() {
    let empty = || TruthTable::Explicit { vars: vec![], table: vec![true] };
    let mut dev = GAL16V8::new();
    dev.combinatorial_output(19, empty()).unwrap();
    assert!(matches!(written(&dev), Err(Error::IllFormedFunction)));
    assert!(matches!(dev.combinatorial_output(19, empty()), Err(Error::IllFormedFunction)));
    assert!(matches!(
        dev.combinatorial_output(19, TruthTable::always()),
        Err(Error::IllFormedFunction)
    ));
}

#[test]
fn constants_are_written_without_rows() {
    let mut dev = GAL16V8::new();
    dev.combinatorial_output(12, TruthTable::never()).unwrap();
    dev.combinatorial_output(13, TruthTable::always()).unwrap();
    let text = written(&dev).unwrap();
    assert!(text.contains(
        "\n*N Macrocell for pin 12\n  *N Combinatorial *L2127 0\n  *N Positive polarity *L2055 1\n\n*N Macrocell for pin 13\n  *N Combinatorial *L2126 0\n  *N Negative polarity *L2054 0\n\n*N Macrocell for pin 14\n"
    ));
}

#[test]
fn write_appends_to_what_is_there() {
    let dev = GAL16V8::new();
    let mut out = String::from("before ");
    dev.write(&mut out).unwrap();
    assert!(out.starts_with("before \x02\n\n*N GAL16V8 fuse layout\n"));
    let again = written(&dev).unwrap();
    assert_eq!(&out["before ".len()..], again);
}

#[test]
fn topology_tables() {
    let bits: Vec<Option<u32>> = (0..21).map(find_input_bit).collect();
    assert_eq!(
        bits,
        vec![
            None,
            None,
            Some(0),
            Some(2),
            Some(4),
            Some(6),
            Some(8),
            Some(10),
            Some(12),
            Some(14),
            None,
            None,
            Some(15),
            Some(13),
            Some(11),
            Some(9),
            Some(7),
            Some(5),
            Some(3),
            Some(1),
            None
        ]
    );
    assert!(find_macrocell(11).is_none());
    assert!(find_macrocell(20).is_none());
    for pin in 12..20u32 {
        let cell = find_macrocell(pin).unwrap();
        let k = 19 - pin;
        assert_eq!(cell.enable, 0x848 + k);
        assert_eq!(cell.polarity, 0x800 + k);
        assert_eq!(cell.row_disable, 0x850 + 8 * k);
        assert_eq!(cell.first_row, 0x100 * k);
    }
}

#[test]
fn numbers_and_codes() {
    let mut s = String::new();
    push_decimal4(&mut s, 7);
    push_decimal4(&mut s, 2193);
    push_decimal2(&mut s, 19);
    push_hex4(&mut s, 0xBEEF);
    push_hex4(&mut s, 0x00a0);
    push_row_codes(&mut s, &vec![Factor::DontCare, Factor::IsFalse, Factor::IsTrue]);
    assert_eq!(s, "0007219319BEEF00A0111001");
}

#[test]
fn checksum_sums_code_units() {
    assert_eq!(checksum(""), 0);
    assert_eq!(checksum("A"), 65);
    assert_eq!(checksum("AB\n"), 65 + 66 + 10);
    let long: String = std::iter::repeat('z').take(1000).collect();
    assert_eq!(checksum(&long), ((122u32 * 1000) % 65536) as u16);
    assert_eq!(checksum("\u{ffff}\u{2}"), 1);
    // a character above 65535 counts as its two surrogates, D83D and DE00
    assert_eq!(checksum("\u{1F600}"), 0xB63D);
    assert_eq!(checksum("a\u{1F600}"), 0xB63D + 97);
}

#[test]
fn what_is_registered_can_be_read() {
    let mut dev = GAL16V8::new();
    assert!(dev.output(19).is_none());
    assert!(dev.input_pin("a").is_none());
    let a = dev.input(2, "a").unwrap();
    dev.combinatorial_output(19, a.not()).unwrap();
    dev.disable_output(12).unwrap();
    assert_eq!(dev.input_pin("a"), Some(2));
    assert!(dev.input_pin("b").is_none());
    assert!(matches!(dev.output(12), Some(OutputMode::Disabled)));
    match dev.output(19) {
        Some(OutputMode::Combinatorial { tt }) => assert!(tt.equals(&a.not()).unwrap()),
        _ => panic!("pin 19 has a function"),
    }
    assert!(dev.output(13).is_none());
    assert!(dev.output(3).is_none());
    assert!(dev.output(20).is_none());
}
