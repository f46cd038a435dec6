//! The meaning of a boolean function.
//!
//! A function is a constant or a table over an ordered list of distinct
//! names. Row `x` of the table is the value of the function where the
//! variable at position `i` is true exactly when bit `i` of `x` is set.
//! An assignment gives every name a truth value; a function is evaluated at an
//! assignment by looking up the row that the assignment selects.

use crate::names::{joint_names, lemma_joint_names, lemma_names_within_len, names_within};
use vstd::arithmetic::power2::{lemma2_to64, lemma_pow2_strictly_increases, lemma_pow2_unfold, pow2};
use vstd::prelude::*;

verus! {

/// Bit `i` of `x`, the least significant bit being bit 0.
pub open spec fn bit(x: nat, i: nat) -> bool
    decreases i,
{
    if i == 0 {
        x % 2 == 1
    } else {
        bit(x / 2, (i - 1) as nat)
    }
}

/// The row that an assignment selects in a table over `names`.
pub open spec fn row_of(names: Seq<Seq<char>>, env: spec_fn(Seq<char>) -> bool) -> nat
    decreases names.len(),
{
    if names.len() == 0 {
        0
    } else {
        (if env(names[0]) {
            1nat
        } else {
            0nat
        }) + 2 * row_of(names.drop_first(), env)
    }
}

/// The assignment that row `x` of a table over `names` stands for: the name
/// at position `i` is true when bit `i` of `x` is set, any other name is
/// false.
pub open spec fn env_of(names: Seq<Seq<char>>, x: nat) -> spec_fn(Seq<char>) -> bool {
    |name: Seq<char>|
        exists|i: int| 0 <= i < names.len() && #[trigger] names[i] == name && bit(x, i as nat)
}

/// Two assignments give the same value to every name of the list.
pub open spec fn agree_on(
    names: Seq<Seq<char>>,
    e1: spec_fn(Seq<char>) -> bool,
    e2: spec_fn(Seq<char>) -> bool,
) -> bool {
    forall|i: int| 0 <= i < names.len() ==> e1(#[trigger] names[i]) == e2(names[i])
}

/// How many entries of a table are true.
pub open spec fn count_true(rows: Seq<bool>) -> nat
    decreases rows.len(),
{
    if rows.len() == 0 {
        0
    } else {
        count_true(rows.drop_last()) + if rows.last() {
            1nat
        } else {
            0nat
        }
    }
}

/// A binary boolean operator.
#[derive(Clone, Copy, Debug, PartialEq, Eq)]
pub enum BoolOp {
    And,
    Or,
    Xor,
}

impl BoolOp {
    /// The operator applied to two truth values.
    pub open spec fn apply(self, a: bool, b: bool) -> bool {
        match self {
            BoolOp::And => a && b,
            BoolOp::Or => a || b,
            BoolOp::Xor => a != b,
        }
    }

    /// Applies the operator to two truth values.
    pub fn of(self, a: bool, b: bool) -> (r: bool)
        ensures
            r == self.apply(a, b),
    {
        match self {
            BoolOp::And => a && b,
            BoolOp::Or => a || b,
            BoolOp::Xor => a != b,
        }
    }
}

/// A boolean function as a mathematical value.
pub enum Logic {
    True,
    False,
    Table { vars: Seq<Seq<char>>, rows: Seq<bool> },
}

impl Logic {
    /// The function that is the value of one variable.
    pub open spec fn variable(name: Seq<char>) -> Logic {
        Logic::Table { vars: seq![name], rows: seq![false, true] }
    }

    /// The names of the variables, in table order. A constant has none.
    pub open spec fn names(self) -> Seq<Seq<char>> {
        match self {
            Logic::Table { vars, .. } => vars,
            _ => Seq::empty(),
        }
    }

    /// A table names no variable twice and has one row for each assignment
    /// of its variables.
    pub open spec fn wf(self) -> bool {
        match self {
            Logic::Table { vars, rows } => vars.no_duplicates() && rows.len() == pow2(vars.len()),
            _ => true,
        }
    }

    /// A table without variables.
    pub open spec fn degenerate(self) -> bool {
        self is Table && self.names().len() == 0
    }

    /// Well formed, and a table has at least one variable.
    pub open spec fn valid(self) -> bool {
        self.wf() && !self.degenerate()
    }

    /// The value of the function at an assignment.
    pub open spec fn eval(self, env: spec_fn(Seq<char>) -> bool) -> bool {
        match self {
            Logic::True => true,
            Logic::False => false,
            Logic::Table { vars, rows } => rows[row_of(vars, env) as int],
        }
    }

    /// Both functions have the same value at every assignment.
    pub open spec fn equivalent(self, other: Logic) -> bool {
        forall|env: spec_fn(Seq<char>) -> bool| #[trigger] self.eval(env) == other.eval(env)
    }

    /// The function is true wherever `other` is not, over the same variables.
    pub open spec fn not(self) -> Logic {
        match self {
            Logic::True => Logic::False,
            Logic::False => Logic::True,
            Logic::Table { vars, rows } => Logic::Table {
                vars,
                rows: Seq::new(rows.len(), |x: int| !rows[x]),
            },
        }
    }

    /// Both functions joined by an operator: a table over the joint names of
    /// both, whose row `x` joins the values of both at the assignment that
    /// `x` stands for. Two constants give a constant.
    pub open spec fn combine(self, other: Logic, op: BoolOp) -> Logic {
        let joint = joint_names(self.names(), other.names());
        if joint.len() == 0 {
            if op.apply(self.eval(env_of(joint, 0)), other.eval(env_of(joint, 0))) {
                Logic::True
            } else {
                Logic::False
            }
        } else {
            Logic::Table {
                vars: joint,
                rows: Seq::new(
                    pow2(joint.len()),
                    |x: int|
                        op.apply(
                            self.eval(env_of(joint, x as nat)),
                            other.eval(env_of(joint, x as nat)),
                        ),
                ),
            }
        }
    }

    pub open spec fn and(self, other: Logic) -> Logic {
        self.combine(other, BoolOp::And)
    }

    pub open spec fn or(self, other: Logic) -> Logic {
        self.combine(other, BoolOp::Or)
    }

    pub open spec fn xor(self, other: Logic) -> Logic {
        self.combine(other, BoolOp::Xor)
    }

    /// The number of true rows of a table; 0 for a constant.
    pub open spec fn true_rows(self) -> nat {
        match self {
            Logic::Table { rows, .. } => count_true(rows),
            _ => 0,
        }
    }

    /// Whether two functions can be joined on this machine: the table over
    /// their joint names must have a length that fits in `usize`.
    pub open spec fn fits_with(self, other: Logic) -> bool {
        pow2(joint_names(self.names(), other.names()).len()) <= usize::MAX
    }
}

/// A row lies within the table.
pub proof fn lemma_row_bound(names: Seq<Seq<char>>, env: spec_fn(Seq<char>) -> bool)
    ensures
        row_of(names, env) < pow2(names.len()),
    decreases names.len(),
{
    if names.len() == 0 {
        lemma2_to64();
    } else {
        lemma_row_bound(names.drop_first(), env);
        lemma_pow2_unfold(names.len());
    }
}

/// Bit `i` of the selected row is the value given to the name at position `i`.
pub proof fn lemma_row_bit(names: Seq<Seq<char>>, env: spec_fn(Seq<char>) -> bool, i: int)
    requires
        0 <= i < names.len(),
    ensures
        bit(row_of(names, env), i as nat) == env(names[i]),
    decreases names.len(),
{
    if i > 0 {
        let tail = names.drop_first();
        lemma_row_bit(tail, env, i - 1);
        assert(tail[i - 1] == names[i]);
        assert(row_of(names, env) / 2 == row_of(tail, env));
    }
}

/// An assignment whose values are the bits of `x` selects row `x`.
pub proof fn lemma_row_from_bits(names: Seq<Seq<char>>, env: spec_fn(Seq<char>) -> bool, x: nat)
    requires
        x < pow2(names.len()),
        forall|i: int| 0 <= i < names.len() ==> env(#[trigger] names[i]) == bit(x, i as nat),
    ensures
        row_of(names, env) == x,
    decreases names.len(),
{
    if names.len() == 0 {
        lemma2_to64();
    } else {
        lemma_pow2_unfold(names.len());
        let tail = names.drop_first();
        assert forall|j: int| 0 <= j < tail.len() implies env(#[trigger] tail[j]) == bit(
            x / 2,
            j as nat,
        ) by {
            assert(tail[j] == names[j + 1]);
            assert(bit(x, (j + 1) as nat) == bit(x / 2, j as nat));
        }
        lemma_row_from_bits(tail, env, x / 2);
        assert(env(names[0]) == bit(x, 0));
    }
}

/// Selected rows depend only on the values given to the names of the table.
pub proof fn lemma_row_agree(
    names: Seq<Seq<char>>,
    e1: spec_fn(Seq<char>) -> bool,
    e2: spec_fn(Seq<char>) -> bool,
)
    requires
        agree_on(names, e1, e2),
    ensures
        row_of(names, e1) == row_of(names, e2),
    decreases names.len(),
{
    if names.len() > 0 {
        let tail = names.drop_first();
        assert forall|j: int| 0 <= j < tail.len() implies e1(#[trigger] tail[j]) == e2(tail[j]) by {
            assert(tail[j] == names[j + 1]);
        }
        lemma_row_agree(tail, e1, e2);
        assert(e1(names[0]) == e2(names[0]));
    }
}

/// The assignment of row `x` gives the name at position `i` bit `i` of `x`.
pub proof fn lemma_env_of_at(names: Seq<Seq<char>>, x: nat, i: int)
    requires
        names.no_duplicates(),
        0 <= i < names.len(),
    ensures
        env_of(names, x)(names[i]) == bit(x, i as nat),
{
    if env_of(names, x)(names[i]) {
        let k = choose|k: int| 0 <= k < names.len() && #[trigger] names[k] == names[i] && bit(x, k as nat);
        assert(k == i);
    }
}

/// The assignment of row `x` selects row `x`.
pub proof fn lemma_row_of_env_of(names: Seq<Seq<char>>, x: nat)
    requires
        names.no_duplicates(),
        x < pow2(names.len()),
    ensures
        row_of(names, env_of(names, x)) == x,
{
    let env = env_of(names, x);
    assert forall|i: int| 0 <= i < names.len() implies env(#[trigger] names[i]) == bit(
        x,
        i as nat,
    ) by {
        lemma_env_of_at(names, x, i);
    }
    lemma_row_from_bits(names, env, x);
}

/// The assignment of the row that `env` selects agrees with `env` on the
/// names of the table.
pub proof fn lemma_env_of_row(names: Seq<Seq<char>>, env: spec_fn(Seq<char>) -> bool)
    requires
        names.no_duplicates(),
    ensures
        agree_on(names, env_of(names, row_of(names, env)), env),
{
    let x = row_of(names, env);
    assert forall|i: int| 0 <= i < names.len() implies env_of(names, x)(#[trigger] names[i])
        == env(names[i]) by {
        lemma_env_of_at(names, x, i);
        lemma_row_bit(names, env, i);
    }
}

/// Assignments that agree on a list agree on every list within it.
pub proof fn lemma_agree_within(
    a: Seq<Seq<char>>,
    b: Seq<Seq<char>>,
    e1: spec_fn(Seq<char>) -> bool,
    e2: spec_fn(Seq<char>) -> bool,
)
    requires
        names_within(a, b),
        agree_on(b, e1, e2),
    ensures
        agree_on(a, e1, e2),
{
    assert forall|i: int| 0 <= i < a.len() implies e1(#[trigger] a[i]) == e2(a[i]) by {
        assert(b.contains(a[i]));
        let k = choose|k: int| 0 <= k < b.len() && b[k] == a[i];
        assert(e1(b[k]) == e2(b[k]));
    }
}

/// The value of a function depends only on the values given to its own
/// variables.
pub proof fn lemma_eval_agree(
    f: Logic,
    e1: spec_fn(Seq<char>) -> bool,
    e2: spec_fn(Seq<char>) -> bool,
)
    requires
        agree_on(f.names(), e1, e2),
    ensures
        f.eval(e1) == f.eval(e2),
{
    lemma_row_agree(f.names(), e1, e2);
}

/// Row `x` of a well-formed table is its value at the assignment of row `x`.
pub proof fn lemma_eval_row(f: Logic, x: nat)
    requires
        f.wf(),
        f is Table,
        x < pow2(f.names().len()),
    ensures
        f.eval(env_of(f.names(), x)) == f->rows[x as int],
{
    lemma_row_of_env_of(f.names(), x);
}

/// The complement is well formed and has the opposite value everywhere.
pub proof fn lemma_not(f: Logic)
    requires
        f.wf(),
    ensures
        f.not().wf(),
        f.not().names() == f.names(),
        f.not().degenerate() == f.degenerate(),
        forall|env: spec_fn(Seq<char>) -> bool| #[trigger] f.not().eval(env) == !f.eval(env),
{
    assert forall|env: spec_fn(Seq<char>) -> bool| #[trigger] f.not().eval(env) == !f.eval(env) by {
        lemma_row_bound(f.names(), env);
    }
}

/// The value of a combination at one assignment.
pub proof fn lemma_combine_eval(l: Logic, r: Logic, op: BoolOp, env: spec_fn(Seq<char>) -> bool)
    requires
        l.valid(),
        r.valid(),
    ensures
        l.combine(r, op).eval(env) == op.apply(l.eval(env), r.eval(env)),
{
    let joint = joint_names(l.names(), r.names());
    lemma_joint_names(l.names(), r.names());
    if joint.len() > 0 {
        let x = row_of(joint, env);
        lemma_row_bound(joint, env);
        lemma_env_of_row(joint, env);
        lemma_agree_within(l.names(), joint, env_of(joint, x), env);
        lemma_agree_within(r.names(), joint, env_of(joint, x), env);
        lemma_eval_agree(l, env_of(joint, x), env);
        lemma_eval_agree(r, env_of(joint, x), env);
    }
}

/// A combination of valid functions is valid, its variables are the joint
/// names of both, and its value everywhere is the operator applied to the
/// values of both.
pub proof fn lemma_combine(l: Logic, r: Logic, op: BoolOp)
    requires
        l.valid(),
        r.valid(),
    ensures
        l.combine(r, op).valid(),
        l.combine(r, op).names() == joint_names(l.names(), r.names()),
        forall|env: spec_fn(Seq<char>) -> bool| #[trigger]
            l.combine(r, op).eval(env) == op.apply(l.eval(env), r.eval(env)),
{
    lemma_joint_names(l.names(), r.names());
    assert forall|env: spec_fn(Seq<char>) -> bool| #[trigger]
        l.combine(r, op).eval(env) == op.apply(l.eval(env), r.eval(env)) by {
        lemma_combine_eval(l, r, op, env);
    }
}

/// Whether two functions can be joined does not depend on their order.
pub proof fn lemma_fits_symmetric(a: Logic, b: Logic)
    ensures
        a.fits_with(b) == b.fits_with(a),
{
    let ab = joint_names(a.names(), b.names());
    let ba = joint_names(b.names(), a.names());
    lemma_joint_names(a.names(), b.names());
    lemma_joint_names(b.names(), a.names());
    assert forall|i: int| 0 <= i < ab.len() implies ba.contains(#[trigger] ab[i]) by {
        assert(ab.contains(ab[i]));
    }
    assert forall|i: int| 0 <= i < ba.len() implies ab.contains(#[trigger] ba[i]) by {
        assert(ba.contains(ba[i]));
    }
    lemma_names_within_len(ab, ba);
    lemma_names_within_len(ba, ab);
}

/// Two functions with no more than 31 variables between them can be joined
/// on every machine.
pub proof fn lemma_few_variables_fit(a: Logic, b: Logic)
    requires
        a.names().len() + b.names().len() <= 31,
    ensures
        a.fits_with(b),
{
    let joint = joint_names(a.names(), b.names());
    lemma_joint_names(a.names(), b.names());
    lemma2_to64();
    if joint.len() < 31 {
        lemma_pow2_strictly_increases(joint.len(), 31);
    }
}

} // verus!
