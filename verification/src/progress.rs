//! Why the greedy search ends.
//!
//! What is covered is measured by the rows of the function's table at which
//! it is true. While something is left uncovered, the term that holds at one
//! uncovered row alone is admissible and is worth more than any term that
//! adds nothing, so the best term adds a row; and there are only so many
//! rows.

use crate::logic::{
    agree_on, bit, count_true, env_of, lemma_agree_within, lemma_combine, lemma_env_of_row,
    lemma_eval_agree, lemma_eval_row, lemma_row_agree, lemma_row_bit, lemma_row_bound,
    lemma_row_from_bits, lemma_row_of_env_of, row_of, BoolOp, Logic,
};
use crate::minimize::{
    admissible, candidates, factor_holds, lemma_candidates_complete, lemma_joint_within,
    lemma_term_logic, score, term_holds, term_logic,
};
use crate::names::{lemma_joint_names, names_within};
use crate::truthtable::Factor;
use vstd::arithmetic::power2::pow2;
use vstd::prelude::*;
use vstd::set_lib::{lemma_int_range, lemma_len_subset, lemma_map_size, set_int_range};

verus! {

/// The rows of a table over `names` at whose assignments the function is
/// true.
pub open spec fn true_set(f: Logic, names: Seq<Seq<char>>) -> Set<int> {
    Set::new(|x: int| 0 <= x < pow2(names.len()) && f.eval(env_of(names, x as nat)))
}

/// The term that holds at the assignment of row `x` and nowhere else.
pub open spec fn minterm(n: nat, x: nat) -> Seq<Factor> {
    Seq::new(
        n,
        |i: int|
            if bit(x, i as nat) {
                Factor::IsTrue
            } else {
                Factor::IsFalse
            },
    )
}

/// The number of true entries of a table is the number of rows that are true.
pub proof fn lemma_count_true_set(rows: Seq<bool>)
    ensures
        Set::new(|x: int| 0 <= x < rows.len() && rows[x]).finite(),
        count_true(rows) == Set::new(|x: int| 0 <= x < rows.len() && rows[x]).len(),
    decreases rows.len(),
{
    let s = Set::new(|x: int| 0 <= x < rows.len() && rows[x]);
    if rows.len() == 0 {
        assert(s =~= Set::<int>::empty());
    } else {
        let front = rows.drop_last();
        let fs = Set::new(|x: int| 0 <= x < front.len() && front[x]);
        lemma_count_true_set(front);
        if rows.last() {
            assert(s =~= fs.insert(rows.len() - 1));
        } else {
            assert(s =~= fs);
        }
    }
}

/// The true rows over a list of names are finitely many.
pub proof fn lemma_true_set_finite(f: Logic, names: Seq<Seq<char>>)
    ensures
        true_set(f, names).finite(),
        true_set(f, names).len() <= pow2(names.len()),
{
    lemma_int_range(0, pow2(names.len()) as int);
    assert(true_set(f, names).subset_of(set_int_range(0, pow2(names.len()) as int)));
    lemma_len_subset(true_set(f, names), set_int_range(0, pow2(names.len()) as int));
}

/// The number of true rows of a table is the number of rows over its own
/// variables at which it is true.
pub proof fn lemma_true_rows_set(f: Logic)
    requires
        f.wf(),
        f is Table,
    ensures
        f.true_rows() == true_set(f, f.names()).len(),
{
    let rows = f->rows;
    lemma_count_true_set(rows);
    assert(Set::new(|x: int| 0 <= x < rows.len() && rows[x]) =~= true_set(f, f.names())) by {
        assert forall|x: int| 0 <= x < rows.len() implies rows[x] == f.eval(
            env_of(f.names(), x as nat),
        ) by {
            lemma_eval_row(f, x as nat);
        }
    }
}

/// A function is true at no more rows over a list of names than over a
/// longer list that holds those names and the function's variables.
pub proof fn lemma_count_within(f: Logic, a: Seq<Seq<char>>, b: Seq<Seq<char>>)
    requires
        a.no_duplicates(),
        b.no_duplicates(),
        names_within(a, b),
        names_within(f.names(), b),
    ensures
        true_set(f, a).len() <= true_set(f, b).len(),
{
    let x = true_set(f, a);
    let y = true_set(f, b);
    let g = |r: int| row_of(b, env_of(a, r as nat)) as int;
    lemma_true_set_finite(f, a);
    lemma_true_set_finite(f, b);
    assert forall|r: int| x.contains(r) implies y.contains(#[trigger] g(r)) by {
        let env = env_of(a, r as nat);
        lemma_row_bound(b, env);
        lemma_env_of_row(b, env);
        lemma_agree_within(f.names(), b, env_of(b, row_of(b, env)), env);
        lemma_eval_agree(f, env_of(b, row_of(b, env)), env);
    }
    assert forall|r1: int, r2: int|
        x.contains(r1) && x.contains(r2) && #[trigger] g(r1) == #[trigger] g(r2) implies r1
        == r2 by {
        let e1 = env_of(a, r1 as nat);
        let e2 = env_of(a, r2 as nat);
        let back = env_of(b, row_of(b, e1));
        lemma_env_of_row(b, e1);
        lemma_env_of_row(b, e2);
        lemma_agree_within(a, b, back, e1);
        lemma_agree_within(a, b, back, e2);
        assert(agree_on(a, e1, e2));
        lemma_row_agree(a, e1, e2);
        lemma_row_of_env_of(a, r1 as nat);
        lemma_row_of_env_of(a, r2 as nat);
    }
    assert(vstd::relations::injective_on(g, x));
    lemma_map_size(x, x.map(g), g);
    assert(x.map(g).subset_of(y)) by {
        assert forall|v: int| x.map(g).contains(v) implies y.contains(v) by {
            let r = choose|r: int| x.contains(r) && v == g(r);
            assert(y.contains(g(r)));
        }
    }
    lemma_len_subset(x.map(g), y);
}

/// A term true only where something is covered already is worth no more
/// than what is covered.
pub proof fn lemma_no_gain_bound(names: Seq<Seq<char>>, covered: Logic, k: Logic)
    requires
        names.no_duplicates(),
        covered.valid(),
        k.valid(),
        names_within(covered.names(), names),
        names_within(k.names(), names),
        forall|env: spec_fn(Seq<char>) -> bool| #[trigger] k.eval(env) ==> covered.eval(env),
    ensures
        covered.or(k).true_rows() <= true_set(covered, names).len(),
{
    let f = covered.or(k);
    lemma_combine(covered, k, BoolOp::Or);
    lemma_joint_within(covered.names(), k.names(), names);
    if f is Table {
        lemma_true_rows_set(f);
        lemma_joint_names(covered.names(), k.names());
        lemma_count_within(f, f.names(), names);
        assert(true_set(f, names) =~= true_set(covered, names)) by {
            assert forall|x: int| true_set(f, names).contains(x) == true_set(
                covered,
                names,
            ).contains(x) by {
                let env = env_of(names, x as nat);
                assert(f.eval(env) == (covered.eval(env) || k.eval(env)));
            }
        }
    }
}

/// A term that names every variable and holds at an uncovered row is worth
/// more than what is covered.
pub proof fn lemma_full_term_score(names: Seq<Seq<char>>, covered: Logic, k: Logic, x: nat)
    requires
        names.no_duplicates(),
        names.len() > 0,
        covered.valid(),
        k.valid(),
        names_within(covered.names(), names),
        names_within(k.names(), names),
        names_within(names, k.names()),
        x < pow2(names.len()),
        k.eval(env_of(names, x)),
        !covered.eval(env_of(names, x)),
    ensures
        covered.or(k).true_rows() > true_set(covered, names).len(),
{
    let f = covered.or(k);
    lemma_combine(covered, k, BoolOp::Or);
    lemma_joint_names(covered.names(), k.names());
    let joint = f.names();
    assert(joint.contains(names[0])) by {
        assert(k.names().contains(names[0]));
    }
    assert(f is Table);
    lemma_true_rows_set(f);
    assert forall|i: int| 0 <= i < names.len() implies joint.contains(#[trigger] names[i]) by {
        assert(k.names().contains(names[i]));
    }
    lemma_count_within(f, names, joint);
    lemma_true_set_finite(f, names);
    let cs = true_set(covered, names);
    let fs = true_set(f, names);
    assert(cs.subset_of(fs)) by {
        assert forall|r: int| cs.contains(r) implies fs.contains(r) by {
            let env = env_of(names, r as nat);
            assert(f.eval(env) == (covered.eval(env) || k.eval(env)));
        }
    }
    assert(fs.contains(x as int)) by {
        let env = env_of(names, x);
        assert(f.eval(env) == (covered.eval(env) || k.eval(env)));
    }
    cs.lemma_subset_not_in_lt(fs, x as int);
}

/// The minterm of row `x` holds at an assignment exactly when the
/// assignment selects row `x`.
pub proof fn lemma_minterm(names: Seq<Seq<char>>, x: nat, env: spec_fn(Seq<char>) -> bool)
    requires
        x < pow2(names.len()),
    ensures
        term_holds(minterm(names.len(), x), names, env) == (row_of(names, env) == x),
{
    let m = minterm(names.len(), x);
    if term_holds(m, names, env) {
        assert forall|i: int| 0 <= i < names.len() implies env(#[trigger] names[i]) == bit(
            x,
            i as nat,
        ) by {
            assert(factor_holds(m[i], env(names[i])));
        }
        lemma_row_from_bits(names, env, x);
    }
    if row_of(names, env) == x {
        assert forall|i: int| 0 <= i < m.len() implies factor_holds(
            #[trigger] m[i],
            env(names[i]),
        ) by {
            lemma_row_bit(names, env, i);
        }
    }
}

/// Joining a term that holds somewhere uncovered covers more rows.
pub proof fn lemma_cover_grows(
    names: Seq<Seq<char>>,
    covered: Logic,
    k: Logic,
    env: spec_fn(Seq<char>) -> bool,
)
    requires
        names.no_duplicates(),
        covered.valid(),
        k.valid(),
        names_within(covered.names(), names),
        names_within(k.names(), names),
        k.eval(env),
        !covered.eval(env),
    ensures
        true_set(covered, names).len() < true_set(covered.or(k), names).len(),
        true_set(covered.or(k), names).len() <= pow2(names.len()),
{
    let f = covered.or(k);
    lemma_combine(covered, k, BoolOp::Or);
    lemma_joint_within(covered.names(), k.names(), names);
    lemma_true_set_finite(f, names);
    let x = row_of(names, env);
    let back = env_of(names, x);
    lemma_row_bound(names, env);
    lemma_env_of_row(names, env);
    lemma_agree_within(covered.names(), names, back, env);
    lemma_agree_within(f.names(), names, back, env);
    lemma_eval_agree(covered, back, env);
    lemma_eval_agree(f, back, env);
    let cs = true_set(covered, names);
    let fs = true_set(f, names);
    assert(cs.subset_of(fs)) by {
        assert forall|r: int| cs.contains(r) implies fs.contains(r) by {
            let e = env_of(names, r as nat);
            assert(f.eval(e) == (covered.eval(e) || k.eval(e)));
        }
    }
    assert(f.eval(env) == (covered.eval(env) || k.eval(env)));
    assert(fs.contains(x as int));
    cs.lemma_subset_not_in_lt(fs, x as int);
}

/// Where something of a function is left uncovered, some admissible
/// candidate is worth more than what is covered.
pub proof fn lemma_some_candidate_gains(target: Logic, covered: Logic) -> (k: int)
    requires
        target.valid(),
        target is Table,
        covered.valid(),
        names_within(covered.names(), target.names()),
        forall|env: spec_fn(Seq<char>) -> bool| #[trigger] covered.eval(env) ==> target.eval(env),
        !covered.equivalent(target),
    ensures
        0 <= k < candidates(target.names().len()).len(),
        admissible(target, candidates(target.names().len())[k]),
        score(covered, target.names(), candidates(target.names().len())[k]) > true_set(
            covered,
            target.names(),
        ).len(),
{
    let names = target.names();
    let env0 = choose|env: spec_fn(Seq<char>) -> bool|
        #[trigger] covered.eval(env) != target.eval(env);
    let x = row_of(names, env0);
    let back = env_of(names, x);
    lemma_row_bound(names, env0);
    lemma_env_of_row(names, env0);
    lemma_agree_within(covered.names(), names, back, env0);
    lemma_eval_agree(covered, back, env0);
    lemma_eval_agree(target, back, env0);
    let m = minterm(names.len(), x);
    let k = lemma_candidates_complete(names.len(), m);
    lemma_term_logic(m, names);
    let ml = term_logic(m, names);
    assert forall|env: spec_fn(Seq<char>) -> bool| #[trigger]
        term_holds(m, names, env) implies target.eval(env) by {
        lemma_minterm(names, x, env);
    }
    assert forall|i: int| 0 <= i < names.len() implies ml.names().contains(
        #[trigger] names[i],
    ) by {
        assert(m[i] != Factor::DontCare);
    }
    lemma_minterm(names, x, back);
    lemma_row_of_env_of(names, x);
    lemma_full_term_score(names, covered, ml, x);
    k
}

} // verus!
