//! The text of a fuse map: numbers, factor codes and the checksum.

use crate::truthtable::Factor;
use vstd::prelude::*;
use vstd::std_specs::iter::IteratorSpec;
use vstd::string::*;

verus! {

/// The character of a digit below 16, upper case.
pub open spec fn digit(d: int) -> char {
    if d == 0 {
        '0'
    } else if d == 1 {
        '1'
    } else if d == 2 {
        '2'
    } else if d == 3 {
        '3'
    } else if d == 4 {
        '4'
    } else if d == 5 {
        '5'
    } else if d == 6 {
        '6'
    } else if d == 7 {
        '7'
    } else if d == 8 {
        '8'
    } else if d == 9 {
        '9'
    } else if d == 10 {
        'A'
    } else if d == 11 {
        'B'
    } else if d == 12 {
        'C'
    } else if d == 13 {
        'D'
    } else if d == 14 {
        'E'
    } else {
        'F'
    }
}

/// A number below 100 in two decimal digits.
pub open spec fn decimal2(v: nat) -> Seq<char> {
    seq![digit((v / 10 % 10) as int), digit((v % 10) as int)]
}

/// A number below 10000 in four decimal digits, with leading zeros.
pub open spec fn decimal4(v: nat) -> Seq<char> {
    seq![
        digit((v / 1000 % 10) as int),
        digit((v / 100 % 10) as int),
        digit((v / 10 % 10) as int),
        digit((v % 10) as int),
    ]
}

/// A number below 65536 in four upper-case hexadecimal digits.
pub open spec fn hex4(v: nat) -> Seq<char> {
    seq![
        digit((v / 4096 % 16) as int),
        digit((v / 256 % 16) as int),
        digit((v / 16 % 16) as int),
        digit((v % 16) as int),
    ]
}

/// The two fuses of a factor.
pub open spec fn factor_code(f: Factor) -> Seq<char> {
    match f {
        Factor::DontCare => seq!['1', '1'],
        Factor::IsFalse => seq!['1', '0'],
        Factor::IsTrue => seq!['0', '1'],
    }
}

/// The fuses of a row of factors.
pub open spec fn row_codes(row: Seq<Factor>) -> Seq<char>
    decreases row.len(),
{
    if row.len() == 0 {
        Seq::empty()
    } else {
        row_codes(row.drop_last()) + factor_code(row.last())
    }
}

/// The sum of the UTF-16 code units of a character: its code point where
/// that is below 65536, else the sum of its two surrogates.
pub open spec fn code_units(c: char) -> nat {
    let v = c as u32;
    if v < 0x10000 {
        v as nat
    } else {
        (0xD800 + (v - 0x10000) / 0x400 + 0xDC00 + (v - 0x10000) % 0x400) as nat
    }
}

/// The checksum of a text: the sum of the UTF-16 code units of its
/// characters, modulo 65536.
pub open spec fn checksum_of(text: Seq<char>) -> nat
    decreases text.len(),
{
    if text.len() == 0 {
        0
    } else {
        (checksum_of(text.drop_last()) + code_units(text.last())) % 0x10000
    }
}

/// The text of one digit.
fn digit_text(d: u32) -> (s: &'static str)
    requires
        d < 16,
    ensures
        s@ == seq![digit(d as int)],
{
    proof {
        reveal_strlit("0");
        reveal_strlit("1");
        reveal_strlit("2");
        reveal_strlit("3");
        reveal_strlit("4");
        reveal_strlit("5");
        reveal_strlit("6");
        reveal_strlit("7");
        reveal_strlit("8");
        reveal_strlit("9");
        reveal_strlit("A");
        reveal_strlit("B");
        reveal_strlit("C");
        reveal_strlit("D");
        reveal_strlit("E");
        reveal_strlit("F");
    }
    let s = if d == 0 {
        "0"
    } else if d == 1 {
        "1"
    } else if d == 2 {
        "2"
    } else if d == 3 {
        "3"
    } else if d == 4 {
        "4"
    } else if d == 5 {
        "5"
    } else if d == 6 {
        "6"
    } else if d == 7 {
        "7"
    } else if d == 8 {
        "8"
    } else if d == 9 {
        "9"
    } else if d == 10 {
        "A"
    } else if d == 11 {
        "B"
    } else if d == 12 {
        "C"
    } else if d == 13 {
        "D"
    } else if d == 14 {
        "E"
    } else {
        "F"
    };
    assert(s@ =~= seq![digit(d as int)]);
    s
}

/// Appends a number below 100 in two decimal digits.
pub fn push_decimal2(out: &mut String, v: u32)
    requires
        v < 100,
    ensures
        final(out)@ == old(out)@ + decimal2(v as nat),
{
    out.append(digit_text(v / 10 % 10));
    out.append(digit_text(v % 10));
    assert(out@ =~= old(out)@ + decimal2(v as nat));
}

/// Appends a number below 10000 in four decimal digits.
pub fn push_decimal4(out: &mut String, v: u32)
    requires
        v < 10000,
    ensures
        final(out)@ == old(out)@ + decimal4(v as nat),
{
    out.append(digit_text(v / 1000 % 10));
    out.append(digit_text(v / 100 % 10));
    out.append(digit_text(v / 10 % 10));
    out.append(digit_text(v % 10));
    assert(out@ =~= old(out)@ + decimal4(v as nat));
}

/// Appends a number in four upper-case hexadecimal digits.
pub fn push_hex4(out: &mut String, v: u16)
    ensures
        final(out)@ == old(out)@ + hex4(v as nat),
{
    let v: u32 = v as u32;
    out.append(digit_text(v / 4096 % 16));
    out.append(digit_text(v / 256 % 16));
    out.append(digit_text(v / 16 % 16));
    out.append(digit_text(v % 16));
    assert(out@ =~= old(out)@ + hex4(v as nat));
}

/// Appends the fuses of a row of factors.
pub fn push_row_codes(out: &mut String, row: &Vec<Factor>)
    ensures
        final(out)@ == old(out)@ + row_codes(row@),
{
    let mut i: usize = 0;
    proof {
        reveal_strlit("11");
        reveal_strlit("10");
        reveal_strlit("01");
        assert(row@.take(0) =~= Seq::<Factor>::empty());
        assert(out@ =~= old(out)@ + row_codes(row@.take(0)));
    }
    while i < row.len()
        invariant
            i <= row.len(),
            out@ == old(out)@ + row_codes(row@.take(i as int)),
        decreases row.len() - i,
    {
        let ghost before = out@;
        let code = match row[i] {
            Factor::DontCare => "11",
            Factor::IsFalse => "10",
            Factor::IsTrue => "01",
        };
        proof {
            reveal_strlit("11");
            reveal_strlit("10");
            reveal_strlit("01");
            assert(code@ =~= factor_code(row[i as int]));
            let next = row@.take(i + 1);
            assert(next.drop_last() =~= row@.take(i as int));
            assert(next.last() == row[i as int]);
        }
        out.append(code);
        proof {
            assert(out@ =~= old(out)@ + row_codes(row@.take(i + 1)));
        }
        i += 1;
    }
    proof {
        assert(row@.take(i as int) =~= row@);
    }
}

/// The checksum of a text: the sum of the UTF-16 code units of its
/// characters, modulo 65536.
pub fn checksum(text: &str) -> (sum: u16)
    ensures
        sum == checksum_of(text@),
{
    let mut sum: u32 = 0;
    let mut rest = text.chars();
    let ghost mut done: Seq<char> = Seq::empty();
    assert(done + rest.remaining() =~= text@) by {
        broadcast use vstd::string::axiom_spec_iter;

    }
    loop
        invariant
            rest.obeys_prophetic_iter_laws(),
            rest.decrease() is Some,
            done + rest.remaining() == text@,
            sum == checksum_of(done),
            sum < 0x10000,
        ensures
            sum == checksum_of(text@),
        decreases rest.decrease()->0,
    {
        let ghost before = rest;
        let item = rest.next();
        proof {
            vstd::string::next_postcondition(&before, &rest, item);
        }
        match item {
            None => {
                proof {
                    assert(done =~= text@);
                }
                break ;
            },
            Some(c) => {
                proof {
                    let next = done.push(c);
                    assert(next.drop_last() =~= done);
                    assert(next.last() == c);
                    assert(next + rest.remaining() =~= text@);
                    done = next;
                }
                let v: u32 = c as u32;
                let units: u32 = if v < 0x10000 {
                    v
                } else {
                    0xD800 + (v - 0x10000) / 0x400 + 0xDC00 + (v - 0x10000) % 0x400
                };
                sum = (sum + units) % 0x10000;
            },
        }
    }
    sum as u16
}

} // verus!
