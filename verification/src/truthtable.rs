//! Boolean functions as truth tables.

use crate::error::{Error, Failure};
use crate::logic::{
    bit, env_of, lemma_agree_within, lemma_combine, lemma_env_of_at, lemma_env_of_row,
    lemma_eval_agree, lemma_row_bound, row_of, BoolOp, Logic,
};
use crate::names::{insert_name, insert_names, joint_names, lemma_joint_names, names_within};
use crate::var::Var;
use vstd::arithmetic::power2::{lemma2_to64, lemma_pow2_strictly_increases, lemma_pow2_unfold, pow2};
use vstd::prelude::*;

verus! {

/// What a product term asks of one variable.
#[derive(Clone, Copy, Debug, PartialEq, Eq, Structural, PartialOrd, Ord)]
pub enum Factor {
    DontCare,
    IsFalse,
    IsTrue,
}

/// A sum of products. With `invert` the function is the complement of the
/// sum.
#[derive(Clone, Debug)]
pub struct Product {
    pub invert: bool,
    pub terms: Vec<Vec<Factor>>,
}

/// A boolean function: a constant, or a table with one row for each
/// assignment of its variables. Bit `i` of a row's index is the value of
/// `vars[i]`.
#[derive(Debug)]
pub enum TruthTable {
    AlwaysTrue,
    AlwaysFalse,
    Explicit { vars: Vec<Var>, table: Vec<bool> },
}

/// The names of a list of variables.
pub open spec fn names_of(vars: Seq<Var>) -> Seq<Seq<char>> {
    Seq::new(vars.len(), |i: int| vars[i]@)
}

/// Each entry of `pos` is the place in `joint` of the name at the same place
/// in `names`.
pub open spec fn placed(names: Seq<Seq<char>>, pos: Seq<usize>, joint: Seq<Seq<char>>) -> bool {
    &&& pos.len() == names.len()
    &&& forall|j: int|
        0 <= j < names.len() ==> (#[trigger] pos[j]) < joint.len() && joint[pos[j] as int]
            == names[j]
}

impl View for TruthTable {
    type V = Logic;

    open spec fn view(&self) -> Logic {
        match self {
            TruthTable::AlwaysTrue => Logic::True,
            TruthTable::AlwaysFalse => Logic::False,
            TruthTable::Explicit { vars, table } => Logic::Table {
                vars: names_of(vars@),
                rows: table@,
            },
        }
    }
}

proof fn lemma_pow2_le(a: nat, b: nat)
    requires
        a <= b,
    ensures
        pow2(a) <= pow2(b),
{
    if a < b {
        lemma_pow2_strictly_increases(a, b);
    }
}

/// The number of rows of a table over `n` variables, where that number fits
/// in `usize`.
fn checked_table_len(n: usize) -> (len: Option<usize>)
    ensures
        len is Some <==> pow2(n as nat) <= usize::MAX,
        len matches Some(l) ==> l == pow2(n as nat),
{
    let mut len: usize = 1;
    let mut i: usize = 0;
    proof {
        lemma2_to64();
    }
    while i < n
        invariant
            i <= n,
            len == pow2(i as nat),
        decreases n - i,
    {
        proof {
            lemma_pow2_unfold((i + 1) as nat);
            lemma_pow2_le((i + 1) as nat, n as nat);
        }
        if len > usize::MAX / 2 {
            return None;
        }
        len = len * 2;
        i += 1;
    }
    Some(len)
}

/// The number of rows of a table over `n` variables.
fn table_len(n: usize) -> (len: usize)
    requires
        pow2(n as nat) <= usize::MAX,
    ensures
        len == pow2(n as nat),
{
    match checked_table_len(n) {
        Some(len) => len,
        None => vstd::pervasive::unreached(),
    }
}

/// The lowest `m` bits of `x`, lowest first.
pub(crate) fn decode_row(x: usize, m: usize) -> (bits: Vec<bool>)
    ensures
        bits.len() == m,
        forall|i: int| 0 <= i < m ==> bits[i] == bit(x as nat, i as nat),
{
    let mut bits: Vec<bool> = Vec::new();
    let mut rest: usize = x;
    let mut i: usize = 0;
    while i < m
        invariant
            i <= m,
            bits.len() == i,
            forall|k: int| 0 <= k < i ==> bits[k] == bit(x as nat, k as nat),
            forall|k: nat| #[trigger] bit(rest as nat, k) == bit(x as nat, k + i as nat),
        decreases m - i,
    {
        proof {
            assert(bit(rest as nat, 0) == bit(x as nat, 0 + i as nat));
            assert forall|k: nat| #[trigger] bit((rest / 2) as nat, k) == bit(
                x as nat,
                k + (i + 1) as nat,
            ) by {
                assert(bit(rest as nat, k + 1) == bit((rest / 2) as nat, k));
                assert(k + 1 + i as nat == k + (i + 1) as nat);
            }
        }
        bits.push(rest % 2 == 1);
        rest = rest / 2;
        i += 1;
    }
    bits
}

/// A copy of a list of variables.
fn clone_vars(vars: &Vec<Var>) -> (copy: Vec<Var>)
    ensures
        names_of(copy@) == names_of(vars@),
{
    let mut copy: Vec<Var> = Vec::new();
    let mut i: usize = 0;
    while i < vars.len()
        invariant
            i <= vars.len(),
            copy.len() == i,
            forall|k: int| 0 <= k < i ==> copy[k]@ == vars[k]@,
        decreases vars.len() - i,
    {
        copy.push(vars[i].clone());
        i += 1;
    }
    assert(names_of(copy@) =~= names_of(vars@));
    copy
}

/// A copy of the rows of a table.
fn clone_rows(rows: &Vec<bool>) -> (copy: Vec<bool>)
    ensures
        copy@ == rows@,
{
    let mut copy: Vec<bool> = Vec::new();
    let mut i: usize = 0;
    while i < rows.len()
        invariant
            i <= rows.len(),
            copy.len() == i,
            forall|k: int| 0 <= k < i ==> copy[k] == rows[k],
        decreases rows.len() - i,
    {
        copy.push(rows[i]);
        i += 1;
    }
    assert(copy@ =~= rows@);
    copy
}

impl Clone for TruthTable {
    fn clone(&self) -> (copy: TruthTable)
        ensures
            copy@ == self@,
    {
        match self {
            TruthTable::AlwaysTrue => TruthTable::AlwaysTrue,
            TruthTable::AlwaysFalse => TruthTable::AlwaysFalse,
            TruthTable::Explicit { vars, table } => TruthTable::Explicit {
                vars: clone_vars(vars),
                table: clone_rows(table),
            },
        }
    }
}

/// Puts a variable in its place in an ascending list, unless it is there.
fn insert_var(joint: &mut Vec<Var>, v: &Var)
    ensures
        names_of(final(joint)@) == insert_name(names_of(old(joint)@), v@),
{
    let ghost before = names_of(joint@);
    let mut i: usize = joint.len();
    proof {
        assert(before.take(i as int) =~= before);
        assert(insert_name(before, v@) + before.skip(i as int) =~= insert_name(before, v@));
    }
    while i > 0 && v.precedes(&joint[i - 1])
        invariant
            i <= joint.len(),
            names_of(joint@) == before,
            insert_name(before, v@) == insert_name(before.take(i as int), v@) + before.skip(
                i as int,
            ),
        decreases i,
    {
        proof {
            let head = before.take(i as int);
            assert(head.last() == before[i - 1]);
            assert(before[i - 1] == joint[i - 1]@);
            assert(head.drop_last() =~= before.take(i - 1));
            assert(insert_name(head, v@) == insert_name(before.take(i - 1), v@).push(
                before[i - 1],
            ));
            assert(insert_name(before.take(i - 1), v@).push(before[i - 1]) + before.skip(i as int)
                =~= insert_name(before.take(i - 1), v@) + before.skip(i - 1));
        }
        i -= 1;
    }
    let ghost head = before.take(i as int);
    if i > 0 {
        assert(head.last() == before[i - 1]);
        assert(before[i - 1] == joint[i - 1]@);
        if joint[i - 1].same(v) {
            proof {
                assert(insert_name(head, v@) == head);
                assert(head + before.skip(i as int) =~= before);
            }
            return ;
        }
    }
    proof {
        assert(insert_name(head, v@) == head.push(v@));
    }
    joint.insert(i, v.clone());
    proof {
        assert(names_of(joint@) =~= head.push(v@) + before.skip(i as int));
    }
}

/// Puts each variable of `vars` in its place in an ascending list.
fn insert_vars(joint: &mut Vec<Var>, vars: &Vec<Var>)
    ensures
        names_of(final(joint)@) == insert_names(names_of(old(joint)@), names_of(vars@)),
{
    let ghost before = names_of(joint@);
    let ghost all = names_of(vars@);
    let mut i: usize = 0;
    proof {
        assert(all.take(0) =~= Seq::<Seq<char>>::empty());
    }
    while i < vars.len()
        invariant
            i <= vars.len(),
            all == names_of(vars@),
            names_of(joint@) == insert_names(before, all.take(i as int)),
        decreases vars.len() - i,
    {
        proof {
            let next = all.take(i + 1);
            assert(next.drop_last() =~= all.take(i as int));
            assert(next.last() == vars[i as int]@);
        }
        insert_var(joint, &vars[i]);
        i += 1;
    }
    proof {
        assert(all.take(i as int) =~= all);
    }
}

/// Where each variable of `vars` stands in `joint`.
fn positions(vars: &Vec<Var>, joint: &Vec<Var>) -> (pos: Vec<usize>)
    requires
        names_within(names_of(vars@), names_of(joint@)),
    ensures
        placed(names_of(vars@), pos@, names_of(joint@)),
{
    let mut pos: Vec<usize> = Vec::new();
    let mut j: usize = 0;
    while j < vars.len()
        invariant
            j <= vars.len(),
            names_within(names_of(vars@), names_of(joint@)),
            pos.len() == j,
            forall|q: int|
                0 <= q < j ==> (#[trigger] pos[q]) < joint.len() && joint[pos[q] as int]@
                    == vars[q]@,
        decreases vars.len() - j,
    {
        let mut k: usize = 0;
        while k < joint.len() && !joint[k].same(&vars[j])
            invariant
                k <= joint.len(),
                j < vars.len(),
                forall|q: int| 0 <= q < k ==> joint[q]@ != vars[j as int]@,
            decreases joint.len() - k,
        {
            k += 1;
        }
        proof {
            let name = names_of(vars@)[j as int];
            assert(names_of(joint@).contains(name));
            let w = choose|w: int| 0 <= w < joint.len() && names_of(joint@)[w] == name;
            assert(joint[w]@ == vars[j as int]@);
        }
        pos.push(k);
        j += 1;
    }
    pos
}

impl TruthTable {
    /// The function that is true everywhere.
    pub fn always() -> (t: TruthTable)
        ensures
            t@ == Logic::True,
    {
        TruthTable::AlwaysTrue
    }

    /// The function that is false everywhere.
    pub fn never() -> (t: TruthTable)
        ensures
            t@ == Logic::False,
    {
        TruthTable::AlwaysFalse
    }

    /// The function that is the value of the variable `name`.
    pub fn from(name: &str) -> (t: TruthTable)
        ensures
            t@ == Logic::variable(name@),
            t@.valid(),
    {
        proof {
            lemma2_to64();
        }
        let mut vars: Vec<Var> = Vec::new();
        vars.push(Var::from(name));
        let mut table: Vec<bool> = Vec::new();
        table.push(false);
        table.push(true);
        proof {
            assert(names_of(vars@) =~= seq![name@]);
            assert(table@ =~= seq![false, true]);
        }
        TruthTable::Explicit { vars, table }
    }

    /// The variable at position `i` of a table.
    pub fn var(&self, i: usize) -> (v: &Var)
        requires
            self is Explicit,
            i < self@.names().len(),
        ensures
            v@ == self@.names()[i as int],
    {
        match self {
            TruthTable::Explicit { vars, .. } => &vars[i],
            _ => vstd::pervasive::unreached(),
        }
    }

    /// The number of true rows of a table; 0 for a constant.
    pub fn true_rows(&self) -> (n: usize)
        ensures
            n == self@.true_rows(),
    {
        match self {
            TruthTable::AlwaysTrue => 0,
            TruthTable::AlwaysFalse => 0,
            TruthTable::Explicit { table, .. } => {
                let mut n: usize = 0;
                let mut i: usize = 0;
                proof {
                    assert(table@.take(0) =~= Seq::<bool>::empty());
                }
                while i < table.len()
                    invariant
                        i <= table.len(),
                        n <= i,
                        n == crate::logic::count_true(table@.take(i as int)),
                    decreases table.len() - i,
                {
                    proof {
                        let next = table@.take(i + 1);
                        assert(next.drop_last() =~= table@.take(i as int));
                        assert(next.last() == table[i as int]);
                    }
                    if table[i] {
                        n += 1;
                    }
                    i += 1;
                }
                proof {
                    assert(table@.take(i as int) =~= table@);
                }
                n
            },
        }
    }

    /// The complement: the same variables, every row negated.
    pub fn not(&self) -> (t: TruthTable)
        ensures
            t@ == self@.not(),
            self@.valid() ==> t@.valid(),
    {
        match self {
            TruthTable::AlwaysTrue => TruthTable::AlwaysFalse,
            TruthTable::AlwaysFalse => TruthTable::AlwaysTrue,
            TruthTable::Explicit { vars, table } => {
                let mut rows: Vec<bool> = Vec::new();
                let mut i: usize = 0;
                while i < table.len()
                    invariant
                        i <= table.len(),
                        rows.len() == i,
                        forall|k: int| 0 <= k < i ==> rows[k] == !table[k],
                    decreases table.len() - i,
                {
                    rows.push(!table[i]);
                    i += 1;
                }
                proof {
                    assert(rows@ =~= Seq::new(table@.len(), |x: int| !table@[x]));
                }
                TruthTable::Explicit { vars: clone_vars(vars), table: rows }
            },
        }
    }

    /// Where each of the function's variables stands in `joint`.
    fn positions_in(&self, joint: &Vec<Var>) -> (pos: Vec<usize>)
        requires
            names_within(self@.names(), names_of(joint@)),
        ensures
            placed(self@.names(), pos@, names_of(joint@)),
    {
        match self {
            TruthTable::Explicit { vars, .. } => positions(vars, joint),
            _ => Vec::new(),
        }
    }

    /// The value of the function at the assignment of row `x` of a table over
    /// `joint`, given the bits of `x`.
    fn value_at(
        &self,
        bits: &Vec<bool>,
        pos: &Vec<usize>,
        Ghost(joint): Ghost<Seq<Seq<char>>>,
        Ghost(x): Ghost<nat>,
    ) -> (v: bool)
        requires
            self@.wf(),
            joint.no_duplicates(),
            bits.len() == joint.len(),
            forall|i: int| 0 <= i < bits.len() ==> bits[i] == bit(x, i as nat),
            placed(self@.names(), pos@, joint),
        ensures
            v == self@.eval(env_of(joint, x)),
    {
        match self {
            TruthTable::AlwaysTrue => true,
            TruthTable::AlwaysFalse => false,
            TruthTable::Explicit { vars, table } => {
                let ghost names = names_of(vars@);
                let ghost env = env_of(joint, x);
                let mut idx: usize = 0;
                let mut j: usize = vars.len();
                proof {
                    assert(names.skip(j as int) =~= Seq::<Seq<char>>::empty());
                }
                while j > 0
                    invariant
                        j <= vars.len(),
                        names == names_of(vars@),
                        env == env_of(joint, x),
                        table.len() == pow2(names.len()),
                        joint.no_duplicates(),
                        bits.len() == joint.len(),
                        forall|i: int| 0 <= i < bits.len() ==> bits[i] == bit(x, i as nat),
                        placed(names, pos@, joint),
                        idx == row_of(names.skip(j as int), env),
                    decreases j,
                {
                    j -= 1;
                    let b = bits[pos[j]];
                    proof {
                        lemma_env_of_at(joint, x, pos[j as int] as int);
                        let tail = names.skip(j as int);
                        assert(tail.drop_first() =~= names.skip(j + 1));
                        assert(tail[0] == names[j as int]);
                        lemma_row_bound(tail, env);
                        lemma_pow2_le(tail.len(), names.len());
                    }
                    idx = 2 * idx + if b {
                        1
                    } else {
                        0
                    };
                }
                proof {
                    assert(names.skip(0) =~= names);
                    lemma_row_bound(names, env);
                }
                table[idx]
            },
        }
    }
}

/// The variables of both functions, each once, in ascending order of name.
fn joint_vars(l: &TruthTable, r: &TruthTable) -> (joint: Vec<Var>)
    ensures
        names_of(joint@) == joint_names(l@.names(), r@.names()),
{
    let mut joint: Vec<Var> = Vec::new();
    proof {
        assert(names_of(joint@) =~= Seq::<Seq<char>>::empty());
    }
    match l {
        TruthTable::Explicit { vars, .. } => {
            insert_vars(&mut joint, vars);
        },
        _ => {},
    }
    match r {
        TruthTable::Explicit { vars, .. } => {
            insert_vars(&mut joint, vars);
        },
        _ => {},
    }
    joint
}

/// Joins two functions by an operator, row by row over their joint variables.
fn bitop(l: &TruthTable, r: &TruthTable, op: BoolOp) -> (out: TruthTable)
    requires
        l@.valid(),
        r@.valid(),
        l@.fits_with(r@),
    ensures
        out@ == l@.combine(r@, op),
{
    let joint = joint_vars(l, r);
    let ghost names = names_of(joint@);
    proof {
        lemma_joint_names(l@.names(), r@.names());
    }
    if joint.len() == 0 {
        let lv = matches!(l, TruthTable::AlwaysTrue);
        let rv = matches!(r, TruthTable::AlwaysTrue);
        return if op.of(lv, rv) {
            TruthTable::AlwaysTrue
        } else {
            TruthTable::AlwaysFalse
        };
    }
    let lpos = l.positions_in(&joint);
    let rpos = r.positions_in(&joint);
    let rows = table_len(joint.len());
    let mut table: Vec<bool> = Vec::with_capacity(rows);
    let mut x: usize = 0;
    while x < rows
        invariant
            x <= rows,
            rows == pow2(names.len()),
            names == names_of(joint@),
            names.no_duplicates(),
            l@.valid(),
            r@.valid(),
            placed(l@.names(), lpos@, names),
            placed(r@.names(), rpos@, names),
            table.len() == x,
            forall|y: int|
                0 <= y < x ==> table[y] == op.apply(
                    l@.eval(env_of(names, y as nat)),
                    r@.eval(env_of(names, y as nat)),
                ),
        decreases rows - x,
    {
        let bits = decode_row(x, joint.len());
        let lv = l.value_at(&bits, &lpos, Ghost(names), Ghost(x as nat));
        let rv = r.value_at(&bits, &rpos, Ghost(names), Ghost(x as nat));
        table.push(op.of(lv, rv));
        x += 1;
    }
    proof {
        assert(table@ =~= Seq::new(
            pow2(names.len()),
            |x: int|
                op.apply(l@.eval(env_of(names, x as nat)), r@.eval(env_of(names, x as nat))),
        ));
    }
    TruthTable::Explicit { vars: joint, table }
}

/// Whether two valid functions have the same value at every assignment.
pub(crate) fn agrees(l: &TruthTable, r: &TruthTable) -> (same: bool)
    requires
        l@.valid(),
        r@.valid(),
        l@.fits_with(r@),
    ensures
        same == l@.equivalent(r@),
{
    let joint = joint_vars(l, r);
    let ghost names = names_of(joint@);
    let ghost none = env_of(names, 0);
    proof {
        lemma_joint_names(l@.names(), r@.names());
    }
    if joint.len() == 0 {
        let lv = matches!(l, TruthTable::AlwaysTrue);
        let rv = matches!(r, TruthTable::AlwaysTrue);
        proof {
            assert(l@.eval(none) == lv && r@.eval(none) == rv);
        }
        return lv == rv;
    }
    let lpos = l.positions_in(&joint);
    let rpos = r.positions_in(&joint);
    let rows = table_len(joint.len());
    let mut x: usize = 0;
    while x < rows
        invariant
            x <= rows,
            rows == pow2(names.len()),
            names == names_of(joint@),
            names.no_duplicates(),
            l@.valid(),
            r@.valid(),
            placed(l@.names(), lpos@, names),
            placed(r@.names(), rpos@, names),
            forall|y: nat|
                y < x ==> l@.eval(#[trigger] env_of(names, y)) == r@.eval(env_of(names, y)),
        decreases rows - x,
    {
        let bits = decode_row(x, joint.len());
        let lv = l.value_at(&bits, &lpos, Ghost(names), Ghost(x as nat));
        let rv = r.value_at(&bits, &rpos, Ghost(names), Ghost(x as nat));
        if lv != rv {
            proof {
                let env = env_of(names, x as nat);
                assert(l@.eval(env) != r@.eval(env));
            }
            return false;
        }
        x += 1;
    }
    proof {
        assert forall|env: spec_fn(Seq<char>) -> bool| #[trigger] l@.eval(env) == r@.eval(env) by {
            let y = row_of(names, env);
            lemma_row_bound(names, env);
            lemma_env_of_row(names, env);
            lemma_agree_within(l@.names(), names, env_of(names, y), env);
            lemma_agree_within(r@.names(), names, env_of(names, y), env);
            lemma_eval_agree(l@, env_of(names, y), env);
            lemma_eval_agree(r@, env_of(names, y), env);
            assert(l@.eval(env_of(names, y)) == r@.eval(env_of(names, y)));
        }
    }
    true
}

impl TruthTable {
    /// The function that is true where both are.
    pub fn and(&self, that: &TruthTable) -> (t: TruthTable)
        requires
            self@.valid(),
            that@.valid(),
            self@.fits_with(that@),
        ensures
            t@ == self@.and(that@),
            t@.valid(),
    {
        proof {
            lemma_combine(self@, that@, BoolOp::And);
        }
        bitop(self, that, BoolOp::And)
    }

    /// The function that is true where either is.
    pub fn or(&self, that: &TruthTable) -> (t: TruthTable)
        requires
            self@.valid(),
            that@.valid(),
            self@.fits_with(that@),
        ensures
            t@ == self@.or(that@),
            t@.valid(),
    {
        proof {
            lemma_combine(self@, that@, BoolOp::Or);
        }
        bitop(self, that, BoolOp::Or)
    }

    /// The function that is true where exactly one is.
    pub fn xor(&self, that: &TruthTable) -> (t: TruthTable)
        requires
            self@.valid(),
            that@.valid(),
            self@.fits_with(that@),
        ensures
            t@ == self@.xor(that@),
            t@.valid(),
    {
        proof {
            lemma_combine(self@, that@, BoolOp::Xor);
        }
        bitop(self, that, BoolOp::Xor)
    }

    /// Whether both functions have the same value at every assignment of
    /// their variables, whatever the order in which each lists them. A table
    /// without variables on either side is an error.
    pub fn equals(&self, that: &TruthTable) -> (res: Result<bool, Error>)
        requires
            self@.wf(),
            that@.wf(),
            self@.fits_with(that@),
        ensures
            res is Err <==> (self@.degenerate() || that@.degenerate()),
            res matches Err(e) ==> e@ == Failure::IllFormedFunction,
            res matches Ok(same) ==> same == self@.equivalent(that@),
    {
        if self.is_degenerate() || that.is_degenerate() {
            return Err(Error::IllFormedFunction);
        }
        Ok(agrees(self, that))
    }

    /// Whether the table over the joint variables of both functions has a
    /// length that fits in `usize`, so that they can be joined and compared.
    pub fn fits_with(&self, that: &TruthTable) -> (fits: bool)
        ensures
            fits == self@.fits_with(that@),
    {
        let joint = joint_vars(self, that);
        checked_table_len(joint.len()).is_some()
    }

    /// Whether a table names no variable twice and has one row for each
    /// assignment of its variables. A constant is well formed.
    pub fn is_well_formed(&self) -> (ok: bool)
        ensures
            ok == self@.wf(),
    {
        match self {
            TruthTable::Explicit { vars, table } => {
                let ghost names = names_of(vars@);
                let mut j: usize = 0;
                while j < vars.len()
                    invariant
                        j <= vars.len(),
                        names == names_of(vars@),
                        self@.names() == names,
                        self is Explicit,
                        forall|p: int, q: int| 0 <= p < q < j ==> names[p] != names[q],
                    decreases vars.len() - j,
                {
                    let mut i: usize = 0;
                    while i < j
                        invariant
                            i <= j,
                            j < vars.len(),
                            names == names_of(vars@),
                            self@.names() == names,
                            self is Explicit,
                            forall|p: int| 0 <= p < i ==> names[p] != names[j as int],
                        decreases j - i,
                    {
                        if vars[i].same(&vars[j]) {
                            assert(names[i as int] == names[j as int]);
                            return false;
                        }
                        i += 1;
                    }
                    j += 1;
                }
                assert(names.no_duplicates());
                assert(self@.wf() == (table@.len() == pow2(names.len())));
                let rows = table.len();
                match checked_table_len(vars.len()) {
                    Some(len) => len == rows,
                    None => false,
                }
            },
            _ => true,
        }
    }

    /// Whether this is a table without variables.
    pub fn is_degenerate(&self) -> (d: bool)
        ensures
            d == self@.degenerate(),
    {
        match self {
            TruthTable::Explicit { vars, .. } => vars.len() == 0,
            _ => false,
        }
    }
}

} // verus!
