//! The GAL16V8 in simple mode.
//!
//! The device has sixteen inputs to its AND array and eight outputs. Each
//! output has a macrocell: a fuse that disables the output, a fuse for its
//! polarity, and eight rows of the AND array, each with a fuse that switches
//! the row on and two fuses for each input.

use crate::dev::jedec::{
    checksum, checksum_of, decimal2, decimal4, hex4, push_decimal2, push_decimal4, push_hex4,
    push_row_codes, row_codes,
};
use crate::error::{Error, Failure};
use crate::logic::{lemma_not, Logic};
use crate::minimize::{cover_of, terms_of, Cover};
use crate::truthtable::{Factor, TruthTable};
use crate::var::Var;
use vstd::prelude::*;
use vstd::string::*;

verus! {

/// The fuse that selects the simple mode together with `AC0`.
pub const SYN: u32 = 0x890;

/// The fuse that selects the simple mode together with `SYN`.
pub const AC0: u32 = 0x891;

/// The rows of the AND array that feed one output.
pub const ROWS: usize = 8;

/// The inputs of the AND array.
pub const INPUTS: usize = 16;

/// The fuse addresses of one output.
pub struct Macrocell {
    /// The fuse that disables the output.
    pub enable: u32,
    /// The polarity fuse.
    pub polarity: u32,
    /// The first of the fuses that switch the rows on.
    pub row_disable: u32,
    /// The first fuse of the first row. Each row has 32 fuses.
    pub first_row: u32,
}

/// The position in a row of the input at a pin.
pub open spec fn input_bit(pin: u32) -> Option<u32> {
    if pin == 2 {
        Some(0)
    } else if pin == 19 {
        Some(1)
    } else if pin == 3 {
        Some(2)
    } else if pin == 18 {
        Some(3)
    } else if pin == 4 {
        Some(4)
    } else if pin == 17 {
        Some(5)
    } else if pin == 5 {
        Some(6)
    } else if pin == 16 {
        Some(7)
    } else if pin == 6 {
        Some(8)
    } else if pin == 15 {
        Some(9)
    } else if pin == 7 {
        Some(10)
    } else if pin == 14 {
        Some(11)
    } else if pin == 8 {
        Some(12)
    } else if pin == 13 {
        Some(13)
    } else if pin == 9 {
        Some(14)
    } else if pin == 12 {
        Some(15)
    } else {
        None
    }
}

/// The macrocell of the output at a pin.
pub open spec fn macrocell(pin: u32) -> Option<Macrocell> {
    if pin == 19 {
        Some(Macrocell { enable: 0x848, polarity: 0x800, row_disable: 0x850, first_row: 0x000 })
    } else if pin == 18 {
        Some(Macrocell { enable: 0x849, polarity: 0x801, row_disable: 0x858, first_row: 0x100 })
    } else if pin == 17 {
        Some(Macrocell { enable: 0x84a, polarity: 0x802, row_disable: 0x860, first_row: 0x200 })
    } else if pin == 16 {
        Some(Macrocell { enable: 0x84b, polarity: 0x803, row_disable: 0x868, first_row: 0x300 })
    } else if pin == 15 {
        Some(Macrocell { enable: 0x84c, polarity: 0x804, row_disable: 0x870, first_row: 0x400 })
    } else if pin == 14 {
        Some(Macrocell { enable: 0x84d, polarity: 0x805, row_disable: 0x878, first_row: 0x500 })
    } else if pin == 13 {
        Some(Macrocell { enable: 0x84e, polarity: 0x806, row_disable: 0x880, first_row: 0x600 })
    } else if pin == 12 {
        Some(Macrocell { enable: 0x84f, polarity: 0x807, row_disable: 0x888, first_row: 0x700 })
    } else {
        None
    }
}

/// The position in a row of the input at a pin.
pub fn find_input_bit(pin: u32) -> (bit: Option<u32>)
    ensures
        bit == input_bit(pin),
        bit matches Some(b) ==> b < INPUTS,
{
    if pin == 2 {
        Some(0)
    } else if pin == 19 {
        Some(1)
    } else if pin == 3 {
        Some(2)
    } else if pin == 18 {
        Some(3)
    } else if pin == 4 {
        Some(4)
    } else if pin == 17 {
        Some(5)
    } else if pin == 5 {
        Some(6)
    } else if pin == 16 {
        Some(7)
    } else if pin == 6 {
        Some(8)
    } else if pin == 15 {
        Some(9)
    } else if pin == 7 {
        Some(10)
    } else if pin == 14 {
        Some(11)
    } else if pin == 8 {
        Some(12)
    } else if pin == 13 {
        Some(13)
    } else if pin == 9 {
        Some(14)
    } else if pin == 12 {
        Some(15)
    } else {
        None
    }
}

/// The macrocell of the output at a pin.
pub fn find_macrocell(pin: u32) -> (cell: Option<Macrocell>)
    ensures
        cell == macrocell(pin),
        cell is Some <==> 12 <= pin <= 19,
        cell matches Some(c) ==> c.enable < 10000 && c.polarity < 10000 && c.row_disable + ROWS
            < 10000 && c.first_row + 32 * ROWS < 10000,
{
    if pin == 19 {
        Some(Macrocell { enable: 0x848, polarity: 0x800, row_disable: 0x850, first_row: 0x000 })
    } else if pin == 18 {
        Some(Macrocell { enable: 0x849, polarity: 0x801, row_disable: 0x858, first_row: 0x100 })
    } else if pin == 17 {
        Some(Macrocell { enable: 0x84a, polarity: 0x802, row_disable: 0x860, first_row: 0x200 })
    } else if pin == 16 {
        Some(Macrocell { enable: 0x84b, polarity: 0x803, row_disable: 0x868, first_row: 0x300 })
    } else if pin == 15 {
        Some(Macrocell { enable: 0x84c, polarity: 0x804, row_disable: 0x870, first_row: 0x400 })
    } else if pin == 14 {
        Some(Macrocell { enable: 0x84d, polarity: 0x805, row_disable: 0x878, first_row: 0x500 })
    } else if pin == 13 {
        Some(Macrocell { enable: 0x84e, polarity: 0x806, row_disable: 0x880, first_row: 0x600 })
    } else if pin == 12 {
        Some(Macrocell { enable: 0x84f, polarity: 0x807, row_disable: 0x888, first_row: 0x700 })
    } else {
        None
    }
}

/// How an output is configured.
#[derive(Debug)]
pub enum OutputMode {
    /// Always high impedance.
    Disabled,
    /// Always driven with the value of the function.
    Combinatorial { tt: TruthTable },
}

/// The configuration of an output as a mathematical value.
pub enum Mode {
    Disabled,
    Combinatorial(Logic),
}

impl View for OutputMode {
    type V = Mode;

    open spec fn view(&self) -> Mode {
        match self {
            OutputMode::Disabled => Mode::Disabled,
            OutputMode::Combinatorial { tt } => Mode::Combinatorial(tt@),
        }
    }
}

impl Clone for OutputMode {
    fn clone(&self) -> (copy: OutputMode)
        ensures
            copy@ == self@,
    {
        match self {
            OutputMode::Disabled => OutputMode::Disabled,
            OutputMode::Combinatorial { tt } => OutputMode::Combinatorial { tt: tt.clone() },
        }
    }
}

/// What has been registered with a device: the pin of each named input and
/// the configuration of each configured output.
#[verifier::ext_equal]
pub struct Bindings {
    pub inputs: Map<Seq<char>, u32>,
    pub outputs: Map<u32, Mode>,
}

/// What registering a name for an input pin does: an illegal pin and a name
/// bound to another pin are refused, a name bound to the same pin changes
/// nothing, a new name is bound.
pub open spec fn bind(dev: Bindings, pin: u32, name: Seq<char>) -> Result<Bindings, Failure> {
    if input_bit(pin) is None {
        Err(Failure::IllegalInputPin { pin })
    } else if dev.inputs.contains_key(name) && dev.inputs[name] != pin {
        Err(Failure::ConflictingBinding { name, bound: dev.inputs[name], pin })
    } else {
        Ok(Bindings { inputs: dev.inputs.insert(name, pin), outputs: dev.outputs })
    }
}

/// What configuring an output does: an illegal pin is refused, an
/// unconfigured output is configured, and a configured one is left as it is
/// if it is disabled and is to be disabled, or has a function equivalent to
/// the one it is to have. Anything else is a conflict; a table without
/// variables cannot be compared.
pub open spec fn configure(dev: Bindings, pin: u32, mode: Mode) -> Result<Bindings, Failure> {
    if macrocell(pin) is None {
        Err(Failure::IllegalOutputPin { pin })
    } else if !dev.outputs.contains_key(pin) {
        Ok(Bindings { inputs: dev.inputs, outputs: dev.outputs.insert(pin, mode) })
    } else {
        match (dev.outputs[pin], mode) {
            (Mode::Disabled, Mode::Disabled) => Ok(dev),
            (Mode::Combinatorial(f), Mode::Combinatorial(g)) => {
                if f.degenerate() || g.degenerate() {
                    Err(Failure::IllFormedFunction)
                } else if g.equivalent(f) {
                    Ok(dev)
                } else {
                    Err(
                        Failure::ConflictingConfiguration {
                            pin,
                            current: dev.outputs[pin],
                            requested: mode,
                        },
                    )
                }
            },
            _ => Err(
                Failure::ConflictingConfiguration {
                    pin,
                    current: dev.outputs[pin],
                    requested: mode,
                },
            ),
        }
    }
}

/// Registering a name once more for the pin that it is bound to changes
/// nothing.
pub proof fn lemma_bind_again(dev: Bindings, pin: u32, name: Seq<char>)
    requires
        input_bit(pin) is Some,
        dev.inputs.contains_key(name),
        dev.inputs[name] == pin,
    ensures
        bind(dev, pin, name) == Ok::<Bindings, Failure>(dev),
{
    assert(dev.inputs.insert(name, pin) =~= dev.inputs);
    assert(Bindings { inputs: dev.inputs.insert(name, pin), outputs: dev.outputs } =~= dev);
}

/// After a name has been registered for a pin, registering it for the same
/// pin succeeds and changes nothing, and registering it for any other input
/// pin fails as a conflicting binding.
pub proof fn lemma_bind_then_bind(dev: Bindings, pin: u32, other: u32, name: Seq<char>)
    requires
        bind(dev, pin, name) is Ok,
        input_bit(other) is Some,
    ensures
        other == pin ==> bind(bind(dev, pin, name)->Ok_0, other, name) == bind(dev, pin, name),
        other != pin ==> bind(bind(dev, pin, name)->Ok_0, other, name) == Err::<
            Bindings,
            Failure,
        >(Failure::ConflictingBinding { name, bound: pin, pin: other }),
{
    let after = bind(dev, pin, name)->Ok_0;
    if other == pin {
        lemma_bind_again(after, pin, name);
    }
}

/// On an output that has a function, a function equal to it is accepted and
/// changes nothing, whatever its variables and their order; a function that
/// differs from it is refused as a conflicting configuration.
pub proof fn lemma_configure_again(dev: Bindings, pin: u32, f: Logic, g: Logic)
    requires
        macrocell(pin) is Some,
        dev.outputs.contains_key(pin),
        dev.outputs[pin] == Mode::Combinatorial(f),
        !f.degenerate(),
        !g.degenerate(),
    ensures
        g.equivalent(f) ==> configure(dev, pin, Mode::Combinatorial(g)) == Ok::<Bindings, Failure>(
            dev,
        ),
        !g.equivalent(f) ==> configure(dev, pin, Mode::Combinatorial(g)) == Err::<
            Bindings,
            Failure,
        >(
            Failure::ConflictingConfiguration {
                pin,
                current: Mode::Combinatorial(f),
                requested: Mode::Combinatorial(g),
            },
        ),
{
}

/// A GAL16V8 with the inputs and outputs registered so far.
pub struct GAL16V8 {
    inputs: Vec<(Var, u32)>,
    outputs: Vec<Option<OutputMode>>,
}

/// The pin of each name in a list of bindings; of two bindings of a name
/// the later one counts.
pub closed spec fn inputs_map(s: Seq<(Var, u32)>) -> Map<Seq<char>, u32>
    decreases s.len(),
{
    if s.len() == 0 {
        Map::empty()
    } else {
        inputs_map(s.drop_last()).insert(s.last().0@, s.last().1)
    }
}

/// The configuration of each configured output, slot `i` being pin `12 + i`.
pub closed spec fn outputs_map(s: Seq<Option<OutputMode>>) -> Map<u32, Mode> {
    Map::new(
        |pin: u32| 12 <= pin && pin - 12 < s.len() && s[pin - 12] is Some,
        |pin: u32| s[pin - 12]->0@,
    )
}

proof fn lemma_inputs_map(s: Seq<(Var, u32)>)
    requires
        forall|i: int, j: int| 0 <= i < j < s.len() ==> (#[trigger] s[i]).0@ != (#[trigger] s[j]).0@,
    ensures
        forall|name: Seq<char>| #[trigger]
            inputs_map(s).contains_key(name) <==> exists|i: int|
                0 <= i < s.len() && (#[trigger] s[i]).0@ == name,
        forall|i: int|
            0 <= i < s.len() ==> inputs_map(s).contains_key((#[trigger] s[i]).0@) && inputs_map(
                s,
            )[s[i].0@] == s[i].1,
    decreases s.len(),
{
    if s.len() > 0 {
        let front = s.drop_last();
        assert forall|i: int, j: int| 0 <= i < j < front.len() implies (#[trigger] front[i]).0@
            != (#[trigger] front[j]).0@ by {
            assert(front[i] == s[i] && front[j] == s[j]);
        }
        lemma_inputs_map(front);
        let last = s.last();
        assert forall|name: Seq<char>| #[trigger]
            inputs_map(s).contains_key(name) <==> exists|i: int|
                0 <= i < s.len() && (#[trigger] s[i]).0@ == name by {
            if inputs_map(s).contains_key(name) {
                if name == last.0@ {
                    assert(s[s.len() - 1].0@ == name);
                } else {
                    assert(inputs_map(front).contains_key(name));
                    let i = choose|i: int| 0 <= i < front.len() && (#[trigger] front[i]).0@ == name;
                    assert(s[i].0@ == name);
                }
            }
            if exists|i: int| 0 <= i < s.len() && (#[trigger] s[i]).0@ == name {
                let i = choose|i: int| 0 <= i < s.len() && (#[trigger] s[i]).0@ == name;
                if i < front.len() {
                    assert(front[i].0@ == name);
                }
            }
        }
        assert forall|i: int| 0 <= i < s.len() implies inputs_map(s).contains_key(
            (#[trigger] s[i]).0@,
        ) && inputs_map(s)[s[i].0@] == s[i].1 by {
            if i < front.len() {
                assert(front[i] == s[i]);
                assert(s[i].0@ != s[s.len() - 1].0@);
            }
        }
    }
}

impl View for GAL16V8 {
    type V = Bindings;

    closed spec fn view(&self) -> Bindings {
        Bindings { inputs: inputs_map(self.inputs@), outputs: outputs_map(self.outputs@) }
    }
}

impl GAL16V8 {
    /// The device is in order: it names no input twice, binds names to
    /// input pins only, and holds well-formed functions only. A new device
    /// is in order, and every registration leaves it so.
    pub closed spec fn wf(&self) -> bool {
        &&& self.outputs@.len() == ROWS
        &&& forall|i: int|
            0 <= i < self.outputs@.len() ==> ((#[trigger] self.outputs@[i]) matches Some(
                OutputMode::Combinatorial { tt },
            ) ==> tt@.wf())
        &&& forall|i: int, j: int|
            0 <= i < j < self.inputs@.len() ==> (#[trigger] self.inputs@[i]).0@
                != (#[trigger] self.inputs@[j]).0@
        &&& forall|i: int|
            0 <= i < self.inputs@.len() ==> input_bit((#[trigger] self.inputs@[i]).1) is Some
    }

    /// A device with nothing registered.
    pub fn new() -> (dev: GAL16V8)
        ensures
            dev.wf(),
            dev@.inputs == Map::<Seq<char>, u32>::empty(),
            dev@.outputs == Map::<u32, Mode>::empty(),
    {
        let mut outputs: Vec<Option<OutputMode>> = Vec::new();
        let mut i: usize = 0;
        while i < ROWS
            invariant
                i <= ROWS,
                outputs.len() == i,
                forall|k: int| 0 <= k < i ==> outputs[k] is None,
            decreases ROWS - i,
        {
            outputs.push(None);
            i += 1;
        }
        let dev = GAL16V8 { inputs: Vec::new(), outputs };
        assert(dev@.outputs =~= Map::<u32, Mode>::empty());
        dev
    }

    /// The pin that a variable is bound to.
    fn bound_pin(&self, v: &Var) -> (pin: Option<u32>)
        requires
            self.wf(),
        ensures
            pin is Some <==> self@.inputs.contains_key(v@),
            pin matches Some(p) ==> self@.inputs[v@] == p && input_bit(p) is Some,
    {
        proof {
            lemma_inputs_map(self.inputs@);
        }
        let mut i: usize = 0;
        while i < self.inputs.len()
            invariant
                self.wf(),
                i <= self.inputs.len(),
                forall|k: int| 0 <= k < i ==> (#[trigger] self.inputs@[k]).0@ != v@,
            decreases self.inputs.len() - i,
        {
            if self.inputs[i].0.same(v) {
                proof {
                    lemma_inputs_map(self.inputs@);
                    assert(self.inputs@[i as int].0@ == v@);
                }
                return Some(self.inputs[i].1);
            }
            i += 1;
        }
        None
    }

    /// The configuration of the output at `pin`, if it has one.
    pub fn output(&self, pin: u32) -> (mode: Option<&OutputMode>)
        requires
            self.wf(),
        ensures
            mode is Some <==> self@.outputs.contains_key(pin),
            mode matches Some(m) ==> m@ == self@.outputs[pin],
            mode matches Some(OutputMode::Combinatorial { tt }) ==> tt@.wf(),
    {
        if pin < 12 || pin > 19 {
            return None;
        }
        match &self.outputs[(pin - 12) as usize] {
            Some(m) => Some(m),
            None => None,
        }
    }

    /// The pin that `name` is bound to, if it is bound.
    pub fn input_pin(&self, name: &str) -> (pin: Option<u32>)
        requires
            self.wf(),
        ensures
            pin is Some <==> self@.inputs.contains_key(name@),
            pin matches Some(p) ==> self@.inputs[name@] == p && input_bit(p) is Some,
    {
        self.bound_pin(&Var::from(name))
    }

    /// Registers `name` as the input at `pin` and gives the function that is
    /// the value of that input.
    pub fn input(&mut self, pin: u32, name: &str) -> (res: Result<TruthTable, Error>)
        requires
            old(self).wf(),
        ensures
            final(self).wf(),
            match bind(old(self)@, pin, name@) {
                Ok(dev) => res matches Ok(t) && t@ == Logic::variable(name@) && final(self)@ == dev,
                Err(f) => res matches Err(e) && e@ == f && final(self)@ == old(self)@,
            },
    {
        let v = Var::from(name);
        if find_input_bit(pin).is_none() {
            return Err(Error::IllegalInputPin { pin });
        }
        match self.bound_pin(&v) {
            Some(bound) => {
                if bound != pin {
                    return Err(Error::ConflictingBinding { name: v, bound, pin });
                }
                assert(self@.inputs.insert(name@, pin) =~= self@.inputs);
            },
            None => {
                let ghost before = self.inputs@;
                proof {
                    lemma_inputs_map(before);
                }
                self.inputs.push((v, pin));
                proof {
                    assert(self.inputs@.drop_last() =~= before);
                    assert forall|i: int, j: int| 0 <= i < j < self.inputs@.len() implies (
                    #[trigger] self.inputs@[i]).0@ != (#[trigger] self.inputs@[j]).0@ by {
                        assert(self.inputs@[i] == before[i]);
                        if j < before.len() {
                            assert(self.inputs@[j] == before[j]);
                        }
                    }
                }
            },
        }
        Ok(TruthTable::from(name))
    }

    /// Configures the output at `pin` as always disabled.
    pub fn disable_output(&mut self, pin: u32) -> (res: Result<(), Error>)
        requires
            old(self).wf(),
        ensures
            final(self).wf(),
            match configure(old(self)@, pin, Mode::Disabled) {
                Ok(dev) => res is Ok && final(self)@ == dev,
                Err(f) => res matches Err(e) && e@ == f && final(self)@ == old(self)@,
            },
    {
        if find_macrocell(pin).is_none() {
            return Err(Error::IllegalOutputPin { pin });
        }
        let slot = (pin - 12) as usize;
        match &self.outputs[slot] {
            None => {},
            Some(OutputMode::Disabled) => {
                return Ok(());
            },
            Some(current) => {
                return Err(
                    Error::ConflictingConfiguration {
                        pin,
                        current: current.clone(),
                        requested: OutputMode::Disabled,
                    },
                );
            },
        }
        let ghost before = self.outputs@;
        self.outputs.set(slot, Some(OutputMode::Disabled));
        proof {
            assert(outputs_map(self.outputs@) =~= outputs_map(before).insert(pin, Mode::Disabled));
        }
        Ok(())
    }

    /// Configures the output at `pin` as always driven with the value of a
    /// function.
    pub fn combinatorial_output(&mut self, pin: u32, tt: TruthTable) -> (res: Result<(), Error>)
        requires
            old(self).wf(),
            tt@.wf(),
            old(self)@.outputs.contains_key(pin) ==> (old(self)@.outputs[pin] matches Mode::Combinatorial(
                f,
            ) ==> tt@.fits_with(f)),
        ensures
            final(self).wf(),
            match configure(old(self)@, pin, Mode::Combinatorial(tt@)) {
                Ok(dev) => res is Ok && final(self)@ == dev,
                Err(f) => res matches Err(e) && e@ == f && final(self)@ == old(self)@,
            },
    {
        if find_macrocell(pin).is_none() {
            return Err(Error::IllegalOutputPin { pin });
        }
        let slot = (pin - 12) as usize;
        match &self.outputs[slot] {
            None => {},
            Some(OutputMode::Combinatorial { tt: current }) => {
                return match tt.equals(current) {
                    Err(e) => Err(e),
                    Ok(true) => Ok(()),
                    Ok(false) => Err(
                        Error::ConflictingConfiguration {
                            pin,
                            current: OutputMode::Combinatorial { tt: current.clone() },
                            requested: OutputMode::Combinatorial { tt },
                        },
                    ),
                };
            },
            Some(current) => {
                return Err(
                    Error::ConflictingConfiguration {
                        pin,
                        current: current.clone(),
                        requested: OutputMode::Combinatorial { tt },
                    },
                );
            },
        }
        let ghost before = self.outputs@;
        let ghost f = tt@;
        self.outputs.set(slot, Some(OutputMode::Combinatorial { tt }));
        proof {
            assert(outputs_map(self.outputs@) =~= outputs_map(before).insert(
                pin,
                Mode::Combinatorial(f),
            ));
        }
        Ok(())
    }
}

/// The cover that is written for a function: that of the function or, where
/// it has fewer terms, that of its complement, inverted.
pub open spec fn chosen_cover(f: Logic) -> Cover {
    let plain = cover_of(f);
    let inverse = cover_of(f.not());
    if inverse.terms.len() < plain.terms.len() {
        Cover { invert: !inverse.invert, terms: inverse.terms }
    } else {
        plain
    }
}

/// A row with the factors of a term from position `i` on put where the
/// inputs of their variables are, or the first of their variables that is no
/// input.
pub open spec fn place_factors(
    term: Seq<Factor>,
    names: Seq<Seq<char>>,
    inputs: Map<Seq<char>, u32>,
    i: int,
    row: Seq<Factor>,
) -> Result<Seq<Factor>, Seq<char>>
    decreases term.len() - i,
{
    if i < 0 || i >= term.len() {
        Ok(row)
    } else if term[i] == Factor::DontCare {
        place_factors(term, names, inputs, i + 1, row)
    } else if !inputs.contains_key(names[i]) {
        Err(names[i])
    } else {
        place_factors(
            term,
            names,
            inputs,
            i + 1,
            row.update(input_bit(inputs[names[i]])->0 as int, term[i]),
        )
    }
}

/// The row of the AND array for a term: don't-care at every input but those
/// of the term's variables.
pub open spec fn fuse_row(
    term: Seq<Factor>,
    names: Seq<Seq<char>>,
    inputs: Map<Seq<char>, u32>,
) -> Result<Seq<Factor>, Seq<char>> {
    place_factors(term, names, inputs, 0, Seq::new(INPUTS as nat, |i: int| Factor::DontCare))
}

/// The first lines of a fuse map.
pub open spec fn header() -> Seq<char> {
    "\x02\n\n*N GAL16V8 fuse layout\n  *F0 *G0 *QF2194\n\n"@
}

/// The lines that select the simple mode.
pub open spec fn simple_mode() -> Seq<char> {
    "*N Simple mode\n  *L"@ + decimal4(SYN as nat) + " 1 *L"@ + decimal4(AC0 as nat) + " 0\n"@
}

/// The last lines of a fuse map before its checksum.
pub open spec fn trailer() -> Seq<char> {
    "\n*N End of image.\n\n\x03"@
}

/// The comment that names the macrocell of a pin.
pub open spec fn macrocell_head(pin: u32) -> Seq<char> {
    "\n*N Macrocell for pin "@ + decimal2(pin as nat) + "\n"@
}

/// The line of an output that was not configured.
pub open spec fn unused_text(cell: Macrocell) -> Seq<char> {
    "  *N Unused *L"@ + decimal4(cell.enable as nat) + " 0\n"@
}

/// The line of a disabled output.
pub open spec fn disabled_text(cell: Macrocell) -> Seq<char> {
    "  *N Disabled *L"@ + decimal4(cell.enable as nat) + " 1\n"@
}

/// The first line of a combinatorial output.
pub open spec fn combinatorial_text(cell: Macrocell) -> Seq<char> {
    "  *N Combinatorial *L"@ + decimal4(cell.enable as nat) + " 0\n"@
}

/// The polarity line of a combinatorial output.
pub open spec fn polarity_text(cell: Macrocell, invert: bool) -> Seq<char> {
    if invert {
        "  *N Negative polarity *L"@ + decimal4(cell.polarity as nat) + " 0\n"@
    } else {
        "  *N Positive polarity *L"@ + decimal4(cell.polarity as nat) + " 1\n"@
    }
}

/// The line of row `i` of a macrocell: the fuse that switches the row on,
/// then the fuses of the row.
pub open spec fn row_text(cell: Macrocell, i: nat, row: Seq<Factor>) -> Seq<char> {
    "  *L"@ + decimal4((cell.row_disable + i) as nat) + " 1 *L"@ + decimal4(
        (cell.first_row + 32 * i) as nat,
    ) + " "@ + row_codes(row) + "\n"@
}

/// A text with the lines of the terms from the one at `k` on, or the first
/// variable of those terms that is no input.
#[verifier::opaque]
pub open spec fn rows_from(
    cell: Macrocell,
    terms: Seq<Seq<Factor>>,
    names: Seq<Seq<char>>,
    inputs: Map<Seq<char>, u32>,
    k: int,
    text: Seq<char>,
) -> Result<Seq<char>, Seq<char>>
    decreases terms.len() - k,
{
    if k < 0 || k >= terms.len() {
        Ok(text)
    } else {
        match fuse_row(terms[k], names, inputs) {
            Err(name) => Err(name),
            Ok(row) => rows_from(
                cell,
                terms,
                names,
                inputs,
                k + 1,
                text + row_text(cell, k as nat, row),
            ),
        }
    }
}

/// The lines of the output at a pin.
pub open spec fn block_text(dev: Bindings, pin: u32) -> Result<Seq<char>, Failure> {
    let cell = macrocell(pin)->0;
    let head = macrocell_head(pin);
    if !dev.outputs.contains_key(pin) {
        Ok(head + unused_text(cell))
    } else {
        match dev.outputs[pin] {
            Mode::Disabled => Ok(head + disabled_text(cell)),
            Mode::Combinatorial(f) => {
                let cover = chosen_cover(f);
                if f.degenerate() {
                    Err(Failure::IllFormedFunction)
                } else if cover.terms.len() >= ROWS {
                    Err(
                        Failure::CapacityExceeded {
                            pin,
                            needed: cover.terms.len(),
                            available: ROWS as nat,
                        },
                    )
                } else {
                    match rows_from(
                        cell,
                        cover.terms,
                        f.names(),
                        dev.inputs,
                        0,
                        head + combinatorial_text(cell) + polarity_text(cell, cover.invert),
                    ) {
                        Err(name) => Err(Failure::UnboundVariable { pin, name }),
                        Ok(text) => Ok(text),
                    }
                }
            },
        }
    }
}

/// A text with the lines of the outputs from the one at `pin` up to pin 19,
/// or the failure of the first of them that cannot be written.
pub open spec fn blocks_from(dev: Bindings, pin: int, text: Seq<char>) -> Result<
    Seq<char>,
    Failure,
>
    decreases 20 - pin,
{
    if pin < 12 || pin > 19 {
        Ok(text)
    } else {
        match block_text(dev, pin as u32) {
            Err(f) => Err(f),
            Ok(block) => blocks_from(dev, pin + 1, text + block),
        }
    }
}

/// The fuse map without its checksum.
pub open spec fn body_text(dev: Bindings) -> Result<Seq<char>, Failure> {
    match blocks_from(dev, 12, header() + simple_mode()) {
        Err(f) => Err(f),
        Ok(text) => Ok(text + trailer()),
    }
}

/// The fuse map of a device: the header, the simple mode, the outputs from
/// pin 12 to pin 19, the trailer, and the checksum of all that in four
/// hexadecimal digits.
pub open spec fn document(dev: Bindings) -> Result<Seq<char>, Failure> {
    match body_text(dev) {
        Err(f) => Err(f),
        Ok(body) => Ok(body + hex4(checksum_of(body)) + "\n"@),
    }
}

proof fn lemma_rows_step(
    cell: Macrocell,
    terms: Seq<Seq<Factor>>,
    names: Seq<Seq<char>>,
    inputs: Map<Seq<char>, u32>,
    k: int,
    text: Seq<char>,
)
    requires
        0 <= k < terms.len(),
    ensures
        fuse_row(terms[k], names, inputs) matches Err(name) ==> rows_from(
            cell,
            terms,
            names,
            inputs,
            k,
            text,
        ) == Err::<Seq<char>, Seq<char>>(name),
        fuse_row(terms[k], names, inputs) matches Ok(row) ==> rows_from(
            cell,
            terms,
            names,
            inputs,
            k,
            text,
        ) == rows_from(cell, terms, names, inputs, k + 1, text + row_text(cell, k as nat, row)),
{
    reveal(rows_from);
}

proof fn lemma_rows_end(
    cell: Macrocell,
    terms: Seq<Seq<Factor>>,
    names: Seq<Seq<char>>,
    inputs: Map<Seq<char>, u32>,
    text: Seq<char>,
)
    ensures
        rows_from(cell, terms, names, inputs, terms.len() as int, text) == Ok::<
            Seq<char>,
            Seq<char>,
        >(text),
{
    reveal(rows_from);
}

proof fn lemma_blocks_fail(dev: Bindings, from: int, pin: int, text: Seq<char>)
    requires
        12 <= from <= pin <= 19,
        block_text(dev, pin as u32) is Err,
    ensures
        blocks_from(dev, from, text) is Err,
    decreases pin - from,
{
    if from < pin {
        match block_text(dev, from as u32) {
            Err(f) => {},
            Ok(block) => {
                lemma_blocks_fail(dev, from + 1, pin, text + block);
            },
        }
    }
}

/// A function whose cover has as many terms as an output has rows, or more,
/// cannot be written: the last row of an output is never used.
pub proof fn lemma_too_many_terms(dev: Bindings, pin: u32, f: Logic)
    requires
        12 <= pin <= 19,
        dev.outputs.contains_key(pin),
        dev.outputs[pin] == Mode::Combinatorial(f),
        !f.degenerate(),
        chosen_cover(f).terms.len() >= ROWS,
    ensures
        block_text(dev, pin) == Err::<Seq<char>, Failure>(
            Failure::CapacityExceeded {
                pin,
                needed: chosen_cover(f).terms.len(),
                available: ROWS as nat,
            },
        ),
        document(dev) is Err,
{
    lemma_blocks_fail(dev, 12, pin as int, header() + simple_mode());
}

/// The line of row `i` of a macrocell.
fn row_string(cell: &Macrocell, i: usize, row: &Vec<Factor>) -> (s: String)
    requires
        i < ROWS,
        cell.row_disable + ROWS < 10000,
        cell.first_row + 32 * ROWS < 10000,
    ensures
        s@ == row_text(*cell, i as nat, row@),
{
    let mut s = String::from_str("  *L");
    push_decimal4(&mut s, cell.row_disable + i as u32);
    s.append(" 1 *L");
    push_decimal4(&mut s, cell.first_row + 32 * (i as u32));
    s.append(" ");
    push_row_codes(&mut s, row);
    s.append("\n");
    s
}

/// A line made of a text, a fuse address and another text.
fn fuse_line(before: &str, fuse: u32, after: &str) -> (s: String)
    requires
        fuse < 10000,
    ensures
        s@ == before@ + decimal4(fuse as nat) + after@,
{
    let mut s = String::from_str(before);
    push_decimal4(&mut s, fuse);
    s.append(after);
    s
}

impl GAL16V8 {
    /// The row of the AND array for a term of the function of an output.
    fn fuse_row_of(&self, pin: u32, tt: &TruthTable, term: &Vec<Factor>) -> (res: Result<
        Vec<Factor>,
        Error,
    >)
        requires
            self.wf(),
            term.len() == tt@.names().len(),
        ensures
            match fuse_row(term@, tt@.names(), self@.inputs) {
                Ok(row) => res matches Ok(r) && r@ == row,
                Err(name) => res matches Err(e) && e@ == (Failure::UnboundVariable { pin, name }),
            },
    {
        let ghost names = tt@.names();
        let ghost inputs = self@.inputs;
        let mut row: Vec<Factor> = Vec::new();
        let mut k: usize = 0;
        while k < INPUTS
            invariant
                k <= INPUTS,
                row.len() == k,
                forall|q: int| 0 <= q < k ==> row[q] == Factor::DontCare,
            decreases INPUTS - k,
        {
            row.push(Factor::DontCare);
            k += 1;
        }
        assert(row@ =~= Seq::new(INPUTS as nat, |i: int| Factor::DontCare));
        let mut i: usize = 0;
        while i < term.len()
            invariant
                self.wf(),
                names == tt@.names(),
                inputs == self@.inputs,
                term.len() == names.len(),
                i <= term.len(),
                row.len() == INPUTS,
                place_factors(term@, names, inputs, i as int, row@) == fuse_row(
                    term@,
                    names,
                    inputs,
                ),
            decreases term.len() - i,
        {
            match term[i] {
                Factor::DontCare => {},
                factor => {
                    let v = tt.var(i);
                    match self.bound_pin(v) {
                        None => {
                            return Err(Error::UnboundVariable { pin, name: v.clone() });
                        },
                        Some(p) => {
                            let bit = find_input_bit(p).unwrap();
                            row.set(bit as usize, factor);
                        },
                    }
                },
            }
            i += 1;
        }
        Ok(row)
    }

    /// Appends the lines of the terms of the function of an output.
    fn push_rows(
        &self,
        out: &mut String,
        pin: u32,
        cell: &Macrocell,
        tt: &TruthTable,
        terms: &Vec<Vec<Factor>>,
    ) -> (res: Result<(), Error>)
        requires
            self.wf(),
            terms.len() < ROWS,
            cell.row_disable + ROWS < 10000,
            cell.first_row + 32 * ROWS < 10000,
            forall|q: int| 0 <= q < terms.len() ==> (#[trigger] terms[q]).len() == tt@.names().len(),
        ensures
            match rows_from(*cell, terms_of(terms@), tt@.names(), self@.inputs, 0, old(out)@) {
                Ok(text) => res is Ok && final(out)@ == text,
                Err(name) => res matches Err(e) && e@ == (Failure::UnboundVariable { pin, name }),
            },
    {
        let ghost names = tt@.names();
        let ghost inputs = self@.inputs;
        let ghost all = terms_of(terms@);
        let ghost start = out@;
        let mut k: usize = 0;
        while k < terms.len()
            invariant
                self.wf(),
                names == tt@.names(),
                inputs == self@.inputs,
                all == terms_of(terms@),
                start == old(out)@,
                k <= terms.len(),
                terms.len() < ROWS,
                cell.row_disable + ROWS < 10000,
                cell.first_row + 32 * ROWS < 10000,
                forall|q: int| 0 <= q < terms.len() ==> (#[trigger] terms[q]).len() == names.len(),
                rows_from(*cell, all, names, inputs, k as int, out@) == rows_from(
                    *cell,
                    all,
                    names,
                    inputs,
                    0,
                    start,
                ),
            decreases terms.len() - k,
        {
            assert(all[k as int] == terms[k as int]@);
            proof {
                lemma_rows_step(*cell, all, names, inputs, k as int, out@);
            }
            let row = match self.fuse_row_of(pin, tt, &terms[k]) {
                Err(e) => {
                    return Err(e);
                },
                Ok(row) => row,
            };
            out.append(row_string(cell, k, &row).as_str());
            k += 1;
        }
        proof {
            lemma_rows_end(*cell, all, names, inputs, out@);
        }
        Ok(())
    }

    /// The lines of the output at a pin.
    fn block(&self, pin: u32) -> (res: Result<String, Error>)
        requires
            self.wf(),
            12 <= pin <= 19,
        ensures
            match block_text(self@, pin) {
                Ok(text) => res matches Ok(s) && s@ == text,
                Err(f) => res matches Err(e) && e@ == f,
            },
    {
        let cell = find_macrocell(pin).unwrap();
        let slot = (pin - 12) as usize;
        let mut s = String::from_str("\n*N Macrocell for pin ");
        push_decimal2(&mut s, pin);
        s.append("\n");
        match &self.outputs[slot] {
            None => {
                s.append(fuse_line("  *N Unused *L", cell.enable, " 0\n").as_str());
                Ok(s)
            },
            Some(OutputMode::Disabled) => {
                s.append(fuse_line("  *N Disabled *L", cell.enable, " 1\n").as_str());
                Ok(s)
            },
            Some(OutputMode::Combinatorial { tt }) => {
                if tt.is_degenerate() {
                    return Err(Error::IllFormedFunction);
                }
                proof {
                    lemma_not(tt@);
                }
                let plain = tt.dnf();
                let mut inverse = tt.not().dnf();
                inverse.invert = !inverse.invert;
                let cover = if inverse.terms.len() < plain.terms.len() {
                    inverse
                } else {
                    plain
                };
                assert(cover@ == chosen_cover(tt@));
                if cover.terms.len() >= ROWS {
                    return Err(
                        Error::CapacityExceeded {
                            pin,
                            needed: cover.terms.len(),
                            available: ROWS,
                        },
                    );
                }
                s.append(fuse_line("  *N Combinatorial *L", cell.enable, " 0\n").as_str());
                if cover.invert {
                    s.append(
                        fuse_line("  *N Negative polarity *L", cell.polarity, " 0\n").as_str(),
                    );
                } else {
                    s.append(
                        fuse_line("  *N Positive polarity *L", cell.polarity, " 1\n").as_str(),
                    );
                }
                assert forall|q: int| 0 <= q < cover.terms@.len() implies (
                #[trigger] cover.terms@[q]).len() == tt@.names().len() by {
                    assert(cover@.terms[q] == cover.terms@[q]@);
                }
                match self.push_rows(&mut s, pin, &cell, tt, &cover.terms) {
                    Err(e) => {
                        return Err(e);
                    },
                    Ok(()) => {},
                }
                Ok(s)
            },
        }
    }

    /// Appends the fuse map of the device to `out`. Nothing is appended
    /// where an output cannot be written.
    pub fn write(&self, out: &mut String) -> (res: Result<(), Error>)
        requires
            self.wf(),
        ensures
            match document(self@) {
                Ok(text) => res is Ok && final(out)@ == old(out)@ + text,
                Err(f) => res matches Err(e) && e@ == f && final(out)@ == old(out)@,
            },
    {
        let mut body = String::from_str("\x02\n\n*N GAL16V8 fuse layout\n  *F0 *G0 *QF2194\n\n");
        let mut mode = String::from_str("*N Simple mode\n  *L");
        push_decimal4(&mut mode, SYN);
        mode.append(" 1 *L");
        push_decimal4(&mut mode, AC0);
        mode.append(" 0\n");
        body.append(mode.as_str());
        let ghost start = body@;
        let mut pin: u32 = 12;
        while pin <= 19
            invariant
                self.wf(),
                12 <= pin <= 20,
                start == header() + simple_mode(),
                blocks_from(self@, pin as int, body@) == blocks_from(self@, 12, start),
            decreases 20 - pin,
        {
            let block = match self.block(pin) {
                Err(e) => {
                    return Err(e);
                },
                Ok(block) => block,
            };
            body.append(block.as_str());
            pin += 1;
        }
        body.append("\n*N End of image.\n\n\x03");
        let sum = checksum(body.as_str());
        push_hex4(&mut body, sum);
        body.append("\n");
        out.append(body.as_str());
        Ok(())
    }
}

} // verus!
