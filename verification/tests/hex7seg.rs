use plaza::dev::GAL16V8;
use plaza::truthtable::TruthTable;

fn all(parts: &[&TruthTable]) -> TruthTable {
    let mut f = TruthTable::always();
    for p in parts {
        f = f.and(p);
    }
    f
}

fn any(parts: &[&TruthTable]) -> TruthTable {
    let mut f = TruthTable::never();
    for p in parts {
        f = f.or(p);
    }
    f
}

/// The value of a written macrocell at an assignment of the sixteen inputs.
fn macrocell_value(text: &str, pin: u32, inputs: u16) -> bool {
    let head = format!("\n*N Macrocell for pin {}\n", pin);
    let start = text.find(&head).unwrap() + head.len();
    let rest = &text[start..];
    let end = rest.find("\n\n").unwrap();
    let mut lines = rest[..end].lines();
    assert!(lines.next().unwrap().starts_with("  *N Combinatorial *L"));
    let polarity = lines.next().unwrap();
    let positive = polarity.starts_with("  *N Positive polarity") && polarity.ends_with(" 1");
    assert!(positive || polarity.starts_with("  *N Negative polarity") && polarity.ends_with(" 0"));
    let mut sum = false;
    for line in lines {
        let codes = line.rsplit(' ').next().unwrap();
        assert_eq!(codes.len(), 32);
        let mut holds = true;
        for bit in 0..16 {
            let value = inputs & (1 << bit) != 0;
            holds &= match &codes[2 * bit..2 * bit + 2] {
                "11" => true,
                "10" => !value,
                "01" => value,
                other => panic!("unexpected code {}", other),
            };
        }
        sum |= holds;
    }
    sum == positive
}

#[test]
fn seven_segment_decoder() {
    let mut chip = GAL16V8::new();
    let rin = chip.input(2, "rin").unwrap();
    let bit3 = chip.input(3, "bit3").unwrap();
    let bit2 = chip.input(4, "bit2").unwrap();
    let bit1 = chip.input(5, "bit1").unwrap();
    let bit0 = chip.input(6, "bit0").unwrap();

    let mut d: Vec<TruthTable> = Vec::new();
    for digit in 0..16u32 {
        let lit = |v: &TruthTable, weight: u32| if digit & weight != 0 { v.clone() } else { v.not() };
        d.push(all(&[&lit(&bit3, 8), &lit(&bit2, 4), &lit(&bit1, 2), &lit(&bit0, 1)]));
    }
    let rout = rin.or(&d[0].not());
    d[0] = d[0].and(&rin);

    let lit: [&[usize]; 7] = [
        &[0, 2, 3, 5, 6, 7, 8, 9, 10, 14, 15],
        &[0, 1, 2, 3, 4, 7, 8, 9, 10, 13],
        &[0, 1, 3, 4, 5, 6, 7, 8, 9, 10, 11, 13],
        &[0, 2, 3, 5, 6, 8, 11, 12, 13, 14],
        &[0, 2, 6, 8, 10, 11, 12, 13, 14, 15],
        &[0, 4, 5, 6, 8, 9, 10, 11, 14, 15],
        &[2, 3, 4, 5, 6, 8, 9, 10, 11, 12, 13, 14, 15],
    ];
    chip.combinatorial_output(12, rout).unwrap();
    for (k, digits) in lit.iter().enumerate() {
        let parts: Vec<&TruthTable> = digits.iter().map(|i| &d[*i]).collect();
        chip.combinatorial_output(13 + k as u32, any(&parts)).unwrap();
    }

    let mut text = String::new();
    chip.write(&mut text).unwrap();

    // positions of the inputs in a row: rin 0, bit3 2, bit2 4, bit1 6, bit0 8
    for digit in 0..16u16 {
        for r in [false, true] {
            let mut inputs: u16 = 0;
            if r {
                inputs |= 1 << 0;
            }
            if digit & 8 != 0 {
                inputs |= 1 << 2;
            }
            if digit & 4 != 0 {
                inputs |= 1 << 4;
            }
            if digit & 2 != 0 {
                inputs |= 1 << 6;
            }
            if digit & 1 != 0 {
                inputs |= 1 << 8;
            }
            assert_eq!(macrocell_value(&text, 12, inputs), r || digit != 0);
            for (k, digits) in lit.iter().enumerate() {
                let on = digits.contains(&(digit as usize)) && (digit != 0 || r);
                assert_eq!(
                    macrocell_value(&text, 13 + k as u32, inputs),
                    on,
                    "segment {} of digit {} with rin {}",
                    k,
                    digit,
                    r
                );
            }
        }
    }

    let split = text.len() - 5;
    let mut sum: u16 = 0;
    for c in text[..split].chars() {
        sum = sum.wrapping_add(c as u32 as u16);
    }
    assert_eq!(&text[split..], format!("{:04X}\n", sum));
}
