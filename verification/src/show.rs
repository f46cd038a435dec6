//! Functions as text.
//!
//! A constant is shown as ` * | 1` or ` * | 0`. A table is shown as a line
//! of its variables' names, a rule, and one line for each row with the value
//! of each variable under its name and the value of the function at the end.

use crate::dev::gal16v8::{Mode, OutputMode};
use crate::logic::{bit, Logic};
use crate::truthtable::{decode_row, names_of, TruthTable};
use crate::var::Var;
use vstd::prelude::*;
use vstd::string::*;
use vstd::utf8::encode_utf8;

verus! {

/// A character `n` times.
pub open spec fn repeated(c: char, n: nat) -> Seq<char> {
    Seq::new(n, |i: int| c)
}

/// The digit of a truth value.
pub open spec fn bit_char(b: bool) -> char {
    if b {
        '1'
    } else {
        '0'
    }
}

/// The width of the column of a variable: the length of its name in bytes.
pub open spec fn column_width(name: Seq<char>) -> nat {
    encode_utf8(name).len()
}

/// The names of the variables, each after a space.
pub open spec fn names_line(names: Seq<Seq<char>>) -> Seq<char>
    decreases names.len(),
{
    if names.len() == 0 {
        Seq::empty()
    } else {
        names_line(names.drop_last()) + seq![' '] + names.last()
    }
}

/// A dash and as many dashes as its column is wide for each variable.
pub open spec fn rule_line(names: Seq<Seq<char>>) -> Seq<char>
    decreases names.len(),
{
    if names.len() == 0 {
        Seq::empty()
    } else {
        rule_line(names.drop_last()) + seq!['-'] + repeated('-', column_width(names.last()))
    }
}

/// The values of the variables at row `x`, each after a space and flush
/// right in its column.
pub open spec fn cells(names: Seq<Seq<char>>, x: nat) -> Seq<char>
    decreases names.len(),
{
    if names.len() == 0 {
        Seq::empty()
    } else {
        let width = column_width(names.last());
        let pad = if width > 1 {
            (width - 1) as nat
        } else {
            0
        };
        cells(names.drop_last(), x) + seq![' '] + repeated(' ', pad) + seq![
            bit_char(bit(x, (names.len() - 1) as nat)),
        ]
    }
}

/// The lines of the rows, each after a line break.
pub open spec fn row_lines(names: Seq<Seq<char>>, rows: Seq<bool>) -> Seq<char>
    decreases rows.len(),
{
    if rows.len() == 0 {
        Seq::empty()
    } else {
        row_lines(names, rows.drop_last()) + seq!['\n'] + cells(names, (rows.len() - 1) as nat)
            + seq![' ', '|', ' '] + seq![bit_char(rows.last())]
    }
}

/// A function as text.
pub open spec fn table_text(f: Logic) -> Seq<char> {
    match f {
        Logic::True => seq![' ', '*', ' ', '|', ' ', '1'],
        Logic::False => seq![' ', '*', ' ', '|', ' ', '0'],
        Logic::Table { vars, rows } => names_line(vars) + seq![' ', '|', '\n'] + rule_line(vars)
            + seq!['-', '+', '-', '-', '-'] + row_lines(vars, rows),
    }
}

/// The configuration of an output as text.
pub open spec fn mode_text(m: Mode) -> Seq<char> {
    match m {
        Mode::Disabled => "disabled"@,
        Mode::Combinatorial(f) => "always-enabled combinatorial\n"@ + table_text(f),
    }
}

/// Appends a space or a dash `n` times.
fn push_repeated(out: &mut String, dash: bool, n: usize)
    ensures
        final(out)@ == old(out)@ + repeated(
            if dash {
                '-'
            } else {
                ' '
            },
            n as nat,
        ),
{
    let ghost c = if dash {
        '-'
    } else {
        ' '
    };
    let mut i: usize = 0;
    proof {
        reveal_strlit("-");
        reveal_strlit(" ");
        assert(out@ =~= old(out)@ + repeated(c, 0));
    }
    while i < n
        invariant
            i <= n,
            c == (if dash {
                '-'
            } else {
                ' '
            }),
            out@ == old(out)@ + repeated(c, i as nat),
        decreases n - i,
    {
        proof {
            reveal_strlit("-");
            reveal_strlit(" ");
        }
        if dash {
            out.append("-");
        } else {
            out.append(" ");
        }
        proof {
            assert(out@ =~= old(out)@ + repeated(c, (i + 1) as nat));
        }
        i += 1;
    }
}

/// Appends the digit of a truth value.
fn push_bit(out: &mut String, b: bool)
    ensures
        final(out)@ == old(out)@ + seq![bit_char(b)],
{
    proof {
        reveal_strlit("1");
        reveal_strlit("0");
    }
    if b {
        out.append("1");
    } else {
        out.append("0");
    }
    assert(out@ =~= old(out)@ + seq![bit_char(b)]);
}

/// Appends the names of the variables, each after a space.
fn push_names(out: &mut String, vars: &Vec<Var>)
    ensures
        final(out)@ == old(out)@ + names_line(names_of(vars@)),
{
    let ghost names = names_of(vars@);
    let mut j: usize = 0;
    proof {
        reveal_strlit(" ");
        assert(names.take(0) =~= Seq::<Seq<char>>::empty());
        assert(out@ =~= old(out)@ + names_line(names.take(0)));
    }
    while j < vars.len()
        invariant
            j <= vars.len(),
            names == names_of(vars@),
            out@ == old(out)@ + names_line(names.take(j as int)),
        decreases vars.len() - j,
    {
        proof {
            reveal_strlit(" ");
            let next = names.take(j + 1);
            assert(next.drop_last() =~= names.take(j as int));
            assert(next.last() == vars[j as int]@);
        }
        out.append(" ");
        out.append(vars[j].as_str());
        proof {
            assert(out@ =~= old(out)@ + names_line(names.take(j + 1)));
        }
        j += 1;
    }
    proof {
        assert(names.take(j as int) =~= names);
    }
}

/// Appends the rule under the names.
fn push_rule(out: &mut String, vars: &Vec<Var>)
    ensures
        final(out)@ == old(out)@ + rule_line(names_of(vars@)),
{
    let ghost names = names_of(vars@);
    let mut j: usize = 0;
    proof {
        assert(names.take(0) =~= Seq::<Seq<char>>::empty());
        assert(out@ =~= old(out)@ + rule_line(names.take(0)));
    }
    while j < vars.len()
        invariant
            j <= vars.len(),
            names == names_of(vars@),
            out@ == old(out)@ + rule_line(names.take(j as int)),
        decreases vars.len() - j,
    {
        proof {
            let next = names.take(j + 1);
            assert(next.drop_last() =~= names.take(j as int));
            assert(next.last() == vars[j as int]@);
        }
        push_repeated(out, true, 1);
        push_repeated(out, true, vars[j].len());
        proof {
            assert(repeated('-', 1) =~= seq!['-']);
            assert(out@ =~= old(out)@ + rule_line(names.take(j + 1)));
        }
        j += 1;
    }
    proof {
        assert(names.take(j as int) =~= names);
    }
}

/// Appends the values of the variables at row `x`.
fn push_cells(out: &mut String, vars: &Vec<Var>, x: usize)
    ensures
        final(out)@ == old(out)@ + cells(names_of(vars@), x as nat),
{
    let ghost names = names_of(vars@);
    let bits = decode_row(x, vars.len());
    let mut j: usize = 0;
    proof {
        assert(names.take(0) =~= Seq::<Seq<char>>::empty());
        assert(out@ =~= old(out)@ + cells(names.take(0), x as nat));
    }
    while j < vars.len()
        invariant
            j <= vars.len(),
            names == names_of(vars@),
            bits.len() == vars.len(),
            forall|i: int| 0 <= i < bits.len() ==> bits[i] == bit(x as nat, i as nat),
            out@ == old(out)@ + cells(names.take(j as int), x as nat),
        decreases vars.len() - j,
    {
        proof {
            let next = names.take(j + 1);
            assert(next.drop_last() =~= names.take(j as int));
            assert(next.last() == vars[j as int]@);
        }
        let width = vars[j].len();
        push_repeated(out, false, 1);
        push_repeated(
            out,
            false,
            if width > 1 {
                width - 1
            } else {
                0
            },
        );
        push_bit(out, bits[j]);
        proof {
            assert(repeated(' ', 1) =~= seq![' ']);
            assert(out@ =~= old(out)@ + cells(names.take(j + 1), x as nat));
        }
        j += 1;
    }
    proof {
        assert(names.take(j as int) =~= names);
    }
}

impl TruthTable {
    /// The function as text.
    pub fn to_text(&self) -> (text: String)
        ensures
            text@ == table_text(self@),
    {
        proof {
            reveal_strlit(" * | 1");
            reveal_strlit(" * | 0");
            reveal_strlit(" |\n");
            reveal_strlit("-+---");
            reveal_strlit("\n");
            reveal_strlit(" | ");
        }
        match self {
            TruthTable::AlwaysTrue => {
                let text = String::from_str(" * | 1");
                assert(text@ =~= table_text(self@));
                text
            },
            TruthTable::AlwaysFalse => {
                let text = String::from_str(" * | 0");
                assert(text@ =~= table_text(self@));
                text
            },
            TruthTable::Explicit { vars, table } => {
                let ghost names = names_of(vars@);
                let mut text = String::new();
                push_names(&mut text, vars);
                text.append(" |\n");
                push_rule(&mut text, vars);
                text.append("-+---");
                let ghost start = text@;
                assert(start =~= names_line(names) + seq![' ', '|', '\n'] + rule_line(names)
                    + seq!['-', '+', '-', '-', '-']);
                let mut i: usize = 0;
                proof {
                    assert(table@.take(0) =~= Seq::<bool>::empty());
                    assert(text@ =~= start + row_lines(names, table@.take(0)));
                }
                while i < table.len()
                    invariant
                        i <= table.len(),
                        names == names_of(vars@),
                        text@ == start + row_lines(names, table@.take(i as int)),
                    decreases table.len() - i,
                {
                    proof {
                        reveal_strlit("\n");
                        reveal_strlit(" | ");
                        let next = table@.take(i + 1);
                        assert(next.drop_last() =~= table@.take(i as int));
                        assert(next.last() == table[i as int]);
                    }
                    text.append("\n");
                    push_cells(&mut text, vars, i);
                    text.append(" | ");
                    push_bit(&mut text, table[i]);
                    proof {
                        assert(text@ =~= start + row_lines(names, table@.take(i + 1)));
                    }
                    i += 1;
                }
                proof {
                    assert(table@.take(i as int) =~= table@);
                }
                text
            },
        }
    }
}

impl OutputMode {
    /// The configuration as text.
    pub fn to_text(&self) -> (text: String)
        ensures
            text@ == mode_text(self@),
    {
        match self {
            OutputMode::Disabled => String::from_str("disabled"),
            OutputMode::Combinatorial { tt } => {
                let mut text = String::from_str("always-enabled combinatorial\n");
                text.append(tt.to_text().as_str());
                text
            },
        }
    }
}

} // verus!
