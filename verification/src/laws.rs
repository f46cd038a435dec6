//! Laws of the algebra of functions.
//!
//! Equality of functions is equality of their values at every assignment,
//! which is what `TruthTable::equals` decides. The laws below hold of the
//! functions that the operations of `TruthTable` compute.

use crate::logic::{
    env_of, lemma_agree_within, lemma_combine, lemma_env_of_row, lemma_eval_agree, lemma_not,
    lemma_row_bound, row_of, BoolOp, Logic,
};
use crate::names::names_within;
use vstd::arithmetic::power2::{lemma2_to64, pow2};
use vstd::prelude::*;

verus! {

/// The complement of the complement of a function is the function.
pub proof fn lemma_double_negation(f: Logic)
    requires
        f.wf(),
    ensures
        f.not().not() == f,
        f.not().not().equivalent(f),
{
    match f {
        Logic::Table { vars, rows } => {
            assert(f.not().not()->rows =~= rows);
        },
        _ => {},
    }
}

/// Joining two functions gives the same function in either order.
pub proof fn lemma_commutes(f: Logic, g: Logic, op: BoolOp)
    requires
        f.valid(),
        g.valid(),
    ensures
        f.combine(g, op).equivalent(g.combine(f, op)),
{
    lemma_combine(f, g, op);
    lemma_combine(g, f, op);
}

/// A function or its complement is true everywhere.
pub proof fn lemma_excluded_middle(f: Logic)
    requires
        f.valid(),
    ensures
        f.or(f.not()).equivalent(Logic::True),
{
    lemma_not(f);
    lemma_combine(f, f.not(), BoolOp::Or);
}

/// A function and its complement is true nowhere.
pub proof fn lemma_contradiction(f: Logic)
    requires
        f.valid(),
    ensures
        f.and(f.not()).equivalent(Logic::False),
{
    lemma_not(f);
    lemma_combine(f, f.not(), BoolOp::And);
}

/// De Morgan's laws: the complement of a conjunction is the disjunction of
/// the complements, and the complement of a disjunction is the conjunction
/// of the complements.
pub proof fn lemma_de_morgan(f: Logic, g: Logic)
    requires
        f.valid(),
        g.valid(),
    ensures
        f.and(g).not().equivalent(f.not().or(g.not())),
        f.or(g).not().equivalent(f.not().and(g.not())),
{
    lemma_not(f);
    lemma_not(g);
    lemma_combine(f, g, BoolOp::And);
    lemma_combine(f, g, BoolOp::Or);
    lemma_combine(f.not(), g.not(), BoolOp::Or);
    lemma_combine(f.not(), g.not(), BoolOp::And);
    lemma_not(f.and(g));
    lemma_not(f.or(g));
}

/// Equality does not depend on how the variables are listed: the table of a
/// function over any list that holds its variables, in any order, is equal
/// to the function.
pub proof fn lemma_realigned(f: Logic, names: Seq<Seq<char>>)
    requires
        f.valid(),
        names.no_duplicates(),
        names.len() > 0,
        names_within(f.names(), names),
    ensures
        (Logic::Table {
            vars: names,
            rows: Seq::new(pow2(names.len()), |x: int| f.eval(env_of(names, x as nat))),
        }).valid(),
        (Logic::Table {
            vars: names,
            rows: Seq::new(pow2(names.len()), |x: int| f.eval(env_of(names, x as nat))),
        }).equivalent(f),
{
    let g = Logic::Table {
        vars: names,
        rows: Seq::new(pow2(names.len()), |x: int| f.eval(env_of(names, x as nat))),
    };
    assert forall|env: spec_fn(Seq<char>) -> bool| #[trigger] g.eval(env) == f.eval(env) by {
        let x = row_of(names, env);
        lemma_row_bound(names, env);
        lemma_env_of_row(names, env);
        lemma_agree_within(f.names(), names, env_of(names, x), env);
        lemma_eval_agree(f, env_of(names, x), env);
    }
}

/// A table over two variables is equal to the table over the same variables
/// in the other order whose two middle rows are exchanged.
pub proof fn lemma_swapped_variables(a: Seq<char>, b: Seq<char>, rows: Seq<bool>)
    requires
        a != b,
        rows.len() == 4,
    ensures
        (Logic::Table { vars: seq![a, b], rows }).valid(),
        (Logic::Table { vars: seq![b, a], rows: seq![rows[0], rows[2], rows[1], rows[3]] }).valid(),
        (Logic::Table { vars: seq![a, b], rows }).equivalent(
            Logic::Table { vars: seq![b, a], rows: seq![rows[0], rows[2], rows[1], rows[3]] },
        ),
{
    lemma2_to64();
    let f = Logic::Table { vars: seq![a, b], rows };
    let g = Logic::Table { vars: seq![b, a], rows: seq![rows[0], rows[2], rows[1], rows[3]] };
    assert forall|env: spec_fn(Seq<char>) -> bool| #[trigger] f.eval(env) == g.eval(env) by {
        lemma_row_of_pair(a, b, env);
        lemma_row_of_pair(b, a, env);
    }
}

proof fn lemma_row_of_pair(a: Seq<char>, b: Seq<char>, env: spec_fn(Seq<char>) -> bool)
    ensures
        row_of(seq![a, b], env) == (if env(a) {
            1nat
        } else {
            0nat
        }) + 2 * (if env(b) {
            1nat
        } else {
            0nat
        }),
{
    let names = seq![a, b];
    let tail = names.drop_first();
    assert(tail =~= seq![b]);
    assert(tail.drop_first().len() == 0);
    assert(row_of(tail.drop_first(), env) == 0);
    assert(row_of(tail, env) == (if env(b) {
        1nat
    } else {
        0nat
    }));
}

} // verus!
