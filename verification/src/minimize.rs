//! Minimisation: a function as a sum of products.
//!
//! The cover of a function is found greedily. Starting from nothing covered,
//! every product term over the function's variables is tried in a fixed
//! order; of those that are true only where the function is, the first one
//! that leaves the most rows covered is taken, until the cover is the
//! function.

use crate::logic::{lemma_combine, lemma_not, row_of, BoolOp, Logic};
use crate::names::{joint_names, lemma_joint_names, lemma_names_within_len, names_within};
use crate::progress::{
    lemma_cover_grows, lemma_no_gain_bound, lemma_some_candidate_gains, lemma_true_set_finite,
    true_set,
};
use crate::truthtable::{agrees, names_of, Factor, Product, TruthTable};
use crate::var::Var;
use itertools::structs::MultiProduct;
use itertools::Itertools;
use vstd::arithmetic::power2::{lemma2_to64, lemma_pow2_strictly_increases, pow2};
use vstd::prelude::*;

verus! {

/// `itertools::structs::MultiProduct`, the iterator over a product of
/// lists. Nothing is known of what is inside one but the terms that it has
/// yet to yield.
#[verifier::external_type_specification]
#[verifier::external_body]
#[verifier::reject_recursive_types(I)]
pub struct ExMultiProduct<I>(itertools::structs::MultiProduct<I>) where
    I: Iterator + Clone,
    I::Item: Clone,
;

/// The terms that an iterator over a product has yet to yield, in order.
pub uninterp spec fn pending(it: MultiProduct<std::vec::IntoIter<Factor>>) -> Seq<Seq<Factor>>;

/// The views of a list of terms.
pub open spec fn terms_of(terms: Seq<Vec<Factor>>) -> Seq<Seq<Factor>> {
    Seq::new(terms.len(), |k: int| terms[k]@)
}

/// `Itertools::multi_cartesian_product` on the lists: an iterator that
/// yields every way to take one item from each list in turn, the item from
/// the last list changing fastest. Without lists it yields one empty term;
/// with an empty list among them it yields nothing.
#[verifier::external_body]
fn cartesian_product(lists: Vec<Vec<Factor>>) -> (it: MultiProduct<std::vec::IntoIter<Factor>>)
    ensures
        pending(it) == product_of(terms_of(lists@)),
{
    lists.into_iter().multi_cartesian_product()
}

/// `next` on an iterator over a product: the first of the terms that are
/// left, or `None` when none is left.
#[verifier::external_body]
fn next_product(it: &mut MultiProduct<std::vec::IntoIter<Factor>>) -> (item: Option<Vec<Factor>>)
    ensures
        match item {
            Some(term) => pending(*old(it)).len() > 0 && term@ == pending(*old(it))[0] && pending(
                *final(it),
            ) == pending(*old(it)).drop_first(),
            None => pending(*old(it)).len() == 0 && pending(*final(it)).len() == 0,
        },
{
    it.next()
}

/// A sum of products as a mathematical value.
pub struct Cover {
    pub invert: bool,
    pub terms: Seq<Seq<Factor>>,
}

impl View for Product {
    type V = Cover;

    open spec fn view(&self) -> Cover {
        Cover { invert: self.invert, terms: terms_of(self.terms@) }
    }
}

/// Whether a variable with the given value meets a factor.
pub open spec fn factor_holds(f: Factor, value: bool) -> bool {
    match f {
        Factor::DontCare => true,
        Factor::IsFalse => !value,
        Factor::IsTrue => value,
    }
}

/// Whether an assignment meets every factor of a term. Factor `i` is about
/// the variable `names[i]`.
pub open spec fn term_holds(
    term: Seq<Factor>,
    names: Seq<Seq<char>>,
    env: spec_fn(Seq<char>) -> bool,
) -> bool {
    forall|i: int| 0 <= i < term.len() ==> factor_holds(#[trigger] term[i], env(names[i]))
}

/// Whether an assignment meets at least one of the terms.
pub open spec fn sum_holds(
    terms: Seq<Seq<Factor>>,
    names: Seq<Seq<char>>,
    env: spec_fn(Seq<char>) -> bool,
) -> bool {
    exists|k: int| 0 <= k < terms.len() && term_holds(#[trigger] terms[k], names, env)
}

impl Cover {
    /// The value of the cover at an assignment: that of the sum of its
    /// terms, complemented if `invert` is set.
    pub open spec fn eval(self, names: Seq<Seq<char>>, env: spec_fn(Seq<char>) -> bool) -> bool {
        self.invert != sum_holds(self.terms, names, env)
    }
}

/// The function of one factor.
pub open spec fn factor_logic(f: Factor, name: Seq<char>) -> Logic {
    match f {
        Factor::DontCare => Logic::True,
        Factor::IsFalse => Logic::variable(name).not(),
        Factor::IsTrue => Logic::variable(name),
    }
}

/// The function of a term: the conjunction of its factors other than
/// don't-care, joined from the first to the last.
pub open spec fn term_logic(term: Seq<Factor>, names: Seq<Seq<char>>) -> Logic
    decreases term.len(),
{
    if term.len() == 0 {
        Logic::True
    } else {
        let rest = term_logic(term.drop_last(), names);
        if term.last() == Factor::DontCare {
            rest
        } else {
            rest.and(factor_logic(term.last(), names[term.len() - 1]))
        }
    }
}

/// The function of a sum of terms, joined from the first to the last.
pub open spec fn covered_by(terms: Seq<Seq<Factor>>, names: Seq<Seq<char>>) -> Logic
    decreases terms.len(),
{
    if terms.len() == 0 {
        Logic::False
    } else {
        covered_by(terms.drop_last(), names).or(term_logic(terms.last(), names))
    }
}

/// All ways to take one item from each list in turn, in lexicographic order:
/// the item taken from the last list changes fastest.
pub open spec fn product_of(lists: Seq<Seq<Factor>>) -> Seq<Seq<Factor>>
    decreases lists.len(),
{
    if lists.len() == 0 {
        seq![Seq::empty()]
    } else {
        let rest = product_of(lists.drop_first());
        Seq::new(
            lists[0].len() * rest.len(),
            |k: int| seq![lists[0][k / (rest.len() as int)]] + rest[k % (rest.len() as int)],
        )
    }
}

/// The three factors in the order in which they are tried.
pub open spec fn factors() -> Seq<Factor> {
    seq![Factor::DontCare, Factor::IsFalse, Factor::IsTrue]
}

/// The terms over `n` variables in the order in which they are tried.
pub open spec fn candidates(n: nat) -> Seq<Seq<Factor>> {
    product_of(Seq::new(n, |i: int| factors()))
}

/// A term is admissible for a function if it is true only where the function
/// is.
pub open spec fn admissible(target: Logic, term: Seq<Factor>) -> bool {
    forall|env: spec_fn(Seq<char>) -> bool| #[trigger]
        term_holds(term, target.names(), env) ==> target.eval(env)
}

/// What a term is worth: the number of true rows of what is covered joined
/// with the term.
pub open spec fn score(covered: Logic, names: Seq<Seq<char>>, term: Seq<Factor>) -> nat {
    covered.or(term_logic(term, names)).true_rows()
}

/// The term is the first of the admissible candidates with the highest
/// score.
pub open spec fn is_best(target: Logic, covered: Logic, term: Seq<Factor>) -> bool {
    let names = target.names();
    let all = candidates(names.len());
    exists|k: int|
        {
            &&& 0 <= k < all.len()
            &&& #[trigger] all[k] == term
            &&& admissible(target, term)
            &&& forall|j: int|
                0 <= j < all.len() && admissible(target, #[trigger] all[j]) ==> score(
                    covered,
                    names,
                    all[j],
                ) <= score(covered, names, term)
            &&& forall|j: int|
                0 <= j < k && admissible(target, #[trigger] all[j]) ==> score(
                    covered,
                    names,
                    all[j],
                ) < score(covered, names, term)
        }
}

/// The terms are what the greedy search finds for the function: each is the
/// best term for what the terms before it leave uncovered, and together they
/// cover the function.
pub open spec fn is_greedy_cover(target: Logic, terms: Seq<Seq<Factor>>) -> bool {
    let names = target.names();
    &&& forall|j: int|
        0 <= j < terms.len() ==> {
            &&& !covered_by(#[trigger] terms.take(j), names).equivalent(target)
            &&& is_best(target, covered_by(terms.take(j), names), terms[j])
        }
    &&& covered_by(terms, names).equivalent(target)
}

/// The cover of a function: no terms for a constant, with `invert` telling
/// which constant it is; for a table the terms of its greedy cover, not
/// inverted.
pub open spec fn cover_of(f: Logic) -> Cover {
    match f {
        Logic::True => Cover { invert: true, terms: Seq::empty() },
        Logic::False => Cover { invert: false, terms: Seq::empty() },
        Logic::Table { .. } => Cover {
            invert: false,
            terms: choose|terms: Seq<Seq<Factor>>| is_greedy_cover(f, terms),
        },
    }
}

/// There is one best term at most.
pub proof fn lemma_best_unique(target: Logic, covered: Logic, a: Seq<Factor>, b: Seq<Factor>)
    requires
        is_best(target, covered, a),
        is_best(target, covered, b),
    ensures
        a == b,
{
    let names = target.names();
    let all = candidates(names.len());
    let ka = choose|k: int|
        {
            &&& 0 <= k < all.len()
            &&& #[trigger] all[k] == a
            &&& admissible(target, a)
            &&& forall|j: int|
                0 <= j < all.len() && admissible(target, #[trigger] all[j]) ==> score(
                    covered,
                    names,
                    all[j],
                ) <= score(covered, names, a)
            &&& forall|j: int|
                0 <= j < k && admissible(target, #[trigger] all[j]) ==> score(
                    covered,
                    names,
                    all[j],
                ) < score(covered, names, a)
        };
    let kb = choose|k: int|
        {
            &&& 0 <= k < all.len()
            &&& #[trigger] all[k] == b
            &&& admissible(target, b)
            &&& forall|j: int|
                0 <= j < all.len() && admissible(target, #[trigger] all[j]) ==> score(
                    covered,
                    names,
                    all[j],
                ) <= score(covered, names, b)
            &&& forall|j: int|
                0 <= j < k && admissible(target, #[trigger] all[j]) ==> score(
                    covered,
                    names,
                    all[j],
                ) < score(covered, names, b)
        };
    if ka < kb {
        assert(admissible(target, all[ka]));
        assert(admissible(target, all[kb]));
        assert(false);
    }
    if kb < ka {
        assert(admissible(target, all[ka]));
        assert(admissible(target, all[kb]));
        assert(false);
    }
}

proof fn lemma_greedy_prefix(target: Logic, a: Seq<Seq<Factor>>, b: Seq<Seq<Factor>>, j: int)
    requires
        is_greedy_cover(target, a),
        is_greedy_cover(target, b),
        0 <= j <= a.len(),
    ensures
        j <= b.len(),
        a.take(j) == b.take(j),
    decreases j,
{
    let names = target.names();
    if j == 0 {
        assert(a.take(0) =~= b.take(0));
    } else {
        lemma_greedy_prefix(target, a, b, j - 1);
        let covered = covered_by(a.take(j - 1), names);
        assert(!covered.equivalent(target) && is_best(target, covered, a[j - 1]));
        if b.len() == j - 1 {
            assert(b.take(j - 1) =~= b);
            assert(false);
        }
        assert(is_best(target, covered_by(b.take(j - 1), names), b[j - 1]));
        lemma_best_unique(target, covered, a[j - 1], b[j - 1]);
        assert(a.take(j) =~= a.take(j - 1).push(a[j - 1]));
        assert(b.take(j) =~= b.take(j - 1).push(b[j - 1]));
    }
}

/// A function has one greedy cover at most.
pub proof fn lemma_greedy_unique(target: Logic, a: Seq<Seq<Factor>>, b: Seq<Seq<Factor>>)
    requires
        is_greedy_cover(target, a),
        is_greedy_cover(target, b),
    ensures
        a == b,
{
    lemma_greedy_prefix(target, a, b, a.len() as int);
    lemma_greedy_prefix(target, b, a, b.len() as int);
    assert(a.take(a.len() as int) =~= a);
    assert(b.take(a.len() as int) =~= b);
}

/// The greedy cover of a table is the table: its terms have one factor for
/// each variable, none of them holds where the function is false, and one of
/// them holds wherever the function is true.
pub proof fn lemma_greedy_cover(target: Logic, terms: Seq<Seq<Factor>>)
    requires
        target.valid(),
        target is Table,
        is_greedy_cover(target, terms),
    ensures
        forall|k: int| 0 <= k < terms.len() ==> (#[trigger] terms[k]).len() == target.names().len(),
        forall|k: int| 0 <= k < terms.len() ==> admissible(target, #[trigger] terms[k]),
        forall|env: spec_fn(Seq<char>) -> bool| #[trigger]
            sum_holds(terms, target.names(), env) == target.eval(env),
{
    let names = target.names();
    let all = candidates(names.len());
    lemma_product_lengths(Seq::new(names.len(), |i: int| factors()));
    assert forall|k: int| 0 <= k < terms.len() implies (#[trigger] terms[k]).len() == names.len()
        && admissible(target, terms[k]) by {
        let covered = covered_by(terms.take(k), names);
        assert(is_best(target, covered, terms[k]));
    }
    lemma_covered_by(terms, names);
    assert forall|env: spec_fn(Seq<char>) -> bool| #[trigger]
        sum_holds(terms, names, env) == target.eval(env) by {
        assert(covered_by(terms, names).eval(env) == target.eval(env));
    }
}

/// A variable is a valid function whose value is the value of its name.
pub proof fn lemma_variable(name: Seq<char>)
    ensures
        Logic::variable(name).valid(),
        Logic::variable(name).names() == seq![name],
        forall|env: spec_fn(Seq<char>) -> bool| #[trigger]
            Logic::variable(name).eval(env) == env(name),
{
    lemma2_to64();
    let names = seq![name];
    assert forall|env: spec_fn(Seq<char>) -> bool| #[trigger]
        Logic::variable(name).eval(env) == env(name) by {
        assert(names.drop_first().len() == 0);
        assert(row_of(names.drop_first(), env) == 0);
        assert(names[0] == name);
    }
}

/// The function of one factor other than don't-care is valid, has the
/// factor's variable alone, and is true where the factor holds.
pub proof fn lemma_factor_logic(f: Factor, name: Seq<char>)
    requires
        f != Factor::DontCare,
    ensures
        factor_logic(f, name).valid(),
        factor_logic(f, name).names() == seq![name],
        forall|env: spec_fn(Seq<char>) -> bool| #[trigger]
            factor_logic(f, name).eval(env) == factor_holds(f, env(name)),
{
    lemma_variable(name);
    lemma_not(Logic::variable(name));
}

/// The function of a term is valid, has only variables of the term, namely
/// all those whose factor is not don't-care, and is true exactly where the
/// term holds.
pub proof fn lemma_term_logic(term: Seq<Factor>, names: Seq<Seq<char>>)
    requires
        term.len() <= names.len(),
    ensures
        term_logic(term, names).valid(),
        names_within(term_logic(term, names).names(), names),
        forall|i: int|
            0 <= i < term.len() && #[trigger] term[i] != Factor::DontCare ==> term_logic(
                term,
                names,
            ).names().contains(names[i]),
        forall|env: spec_fn(Seq<char>) -> bool| #[trigger]
            term_logic(term, names).eval(env) == term_holds(term, names, env),
    decreases term.len(),
{
    let tl = term_logic(term, names);
    if term.len() > 0 {
        let front = term.drop_last();
        let k = term.len() - 1;
        let rest = term_logic(front, names);
        lemma_term_logic(front, names);
        assert forall|i: int| 0 <= i < k implies front[i] == term[i] by {}
        if term.last() == Factor::DontCare {
            assert forall|env: spec_fn(Seq<char>) -> bool| #[trigger]
                tl.eval(env) == term_holds(term, names, env) by {
                if term_holds(front, names, env) {
                    assert forall|i: int| 0 <= i < term.len() implies factor_holds(
                        #[trigger] term[i],
                        env(names[i]),
                    ) by {
                        if i < k {
                            assert(factor_holds(front[i], env(names[i])));
                        }
                    }
                }
                if term_holds(term, names, env) {
                    assert forall|i: int| 0 <= i < front.len() implies factor_holds(
                        #[trigger] front[i],
                        env(names[i]),
                    ) by {
                        assert(factor_holds(term[i], env(names[i])));
                    }
                }
            }
            assert forall|i: int|
                0 <= i < term.len() && #[trigger] term[i] != Factor::DontCare implies tl.names().contains(
                names[i],
            ) by {
                assert(front[i] != Factor::DontCare);
            }
        } else {
            let lit = factor_logic(term.last(), names[k]);
            lemma_factor_logic(term.last(), names[k]);
            lemma_combine(rest, lit, BoolOp::And);
            lemma_joint_names(rest.names(), lit.names());
            assert(lit.names()[0] == names[k]);
            assert(lit.names().contains(names[k]));
            assert forall|i: int| 0 <= i < tl.names().len() implies names.contains(
                #[trigger] tl.names()[i],
            ) by {
                let y = tl.names()[i];
                assert(tl.names().contains(y));
                if rest.names().contains(y) {
                    let w = choose|w: int| 0 <= w < rest.names().len() && rest.names()[w] == y;
                    assert(names.contains(rest.names()[w]));
                } else {
                    assert(lit.names().contains(y));
                    let w = choose|w: int| 0 <= w < lit.names().len() && lit.names()[w] == y;
                    assert(y == names[k]);
                }
            }
            assert forall|i: int|
                0 <= i < term.len() && #[trigger] term[i] != Factor::DontCare implies tl.names().contains(
                names[i],
            ) by {
                if i < k {
                    assert(front[i] != Factor::DontCare);
                    assert(rest.names().contains(names[i]));
                }
            }
            assert forall|env: spec_fn(Seq<char>) -> bool| #[trigger]
                tl.eval(env) == term_holds(term, names, env) by {
                assert(tl.eval(env) == (rest.eval(env) && lit.eval(env)));
                assert(lit.eval(env) == factor_holds(term[k], env(names[k])));
                if term_holds(front, names, env) && lit.eval(env) {
                    assert forall|i: int| 0 <= i < term.len() implies factor_holds(
                        #[trigger] term[i],
                        env(names[i]),
                    ) by {
                        if i < k {
                            assert(factor_holds(front[i], env(names[i])));
                        }
                    }
                }
                if term_holds(term, names, env) {
                    assert forall|i: int| 0 <= i < front.len() implies factor_holds(
                        #[trigger] front[i],
                        env(names[i]),
                    ) by {
                        assert(factor_holds(term[i], env(names[i])));
                    }
                    assert(factor_holds(term[k], env(names[k])));
                }
            }
        }
    } else {
        assert forall|env: spec_fn(Seq<char>) -> bool| #[trigger]
            tl.eval(env) == term_holds(term, names, env) by {}
    }
}

/// The function of a sum of terms is valid, has only variables of the
/// terms, and is true exactly where one of the terms holds.
pub proof fn lemma_covered_by(terms: Seq<Seq<Factor>>, names: Seq<Seq<char>>)
    requires
        forall|k: int| 0 <= k < terms.len() ==> (#[trigger] terms[k]).len() == names.len(),
    ensures
        covered_by(terms, names).valid(),
        names_within(covered_by(terms, names).names(), names),
        forall|env: spec_fn(Seq<char>) -> bool| #[trigger]
            covered_by(terms, names).eval(env) == sum_holds(terms, names, env),
    decreases terms.len(),
{
    let c = covered_by(terms, names);
    if terms.len() > 0 {
        let front = terms.drop_last();
        let rest = covered_by(front, names);
        let tl = term_logic(terms.last(), names);
        assert forall|k: int| 0 <= k < front.len() implies (#[trigger] front[k]).len()
            == names.len() by {
            assert(front[k] == terms[k]);
        }
        lemma_covered_by(front, names);
        lemma_term_logic(terms.last(), names);
        lemma_combine(rest, tl, BoolOp::Or);
        lemma_joint_within(rest.names(), tl.names(), names);
        assert forall|env: spec_fn(Seq<char>) -> bool| #[trigger]
            c.eval(env) == sum_holds(terms, names, env) by {
            assert(c.eval(env) == (rest.eval(env) || tl.eval(env)));
            if sum_holds(front, names, env) {
                let k = choose|k: int|
                    0 <= k < front.len() && term_holds(#[trigger] front[k], names, env);
                assert(term_holds(terms[k], names, env));
            }
            if tl.eval(env) {
                assert(term_holds(terms[terms.len() - 1], names, env));
            }
            if sum_holds(terms, names, env) {
                let k = choose|k: int|
                    0 <= k < terms.len() && term_holds(#[trigger] terms[k], names, env);
                if k < front.len() {
                    assert(term_holds(front[k], names, env));
                }
            }
        }
    } else {
        assert forall|env: spec_fn(Seq<char>) -> bool| #[trigger]
            c.eval(env) == sum_holds(terms, names, env) by {}
    }
}

/// The joint names of two lists within a third lie within it.
pub proof fn lemma_joint_within(a: Seq<Seq<char>>, b: Seq<Seq<char>>, names: Seq<Seq<char>>)
    requires
        names_within(a, names),
        names_within(b, names),
    ensures
        names_within(joint_names(a, b), names),
{
    lemma_joint_names(a, b);
    let j = joint_names(a, b);
    assert forall|i: int| 0 <= i < j.len() implies names.contains(#[trigger] j[i]) by {
        let y = j[i];
        assert(j.contains(y));
        if a.contains(y) {
            let w = choose|w: int| 0 <= w < a.len() && a[w] == y;
            assert(names.contains(a[w]));
        } else {
            let w = choose|w: int| 0 <= w < b.len() && b[w] == y;
            assert(names.contains(b[w]));
        }
    }
}

/// Two functions whose variables are among those of a table that fits on
/// this machine can be joined on it.
pub proof fn lemma_fits_within(a: Logic, b: Logic, names: Seq<Seq<char>>)
    requires
        names_within(a.names(), names),
        names_within(b.names(), names),
        pow2(names.len()) <= usize::MAX,
    ensures
        a.fits_with(b),
        names_within(joint_names(a.names(), b.names()), names),
{
    lemma_joint_names(a.names(), b.names());
    lemma_joint_within(a.names(), b.names(), names);
    let j = joint_names(a.names(), b.names());
    lemma_names_within_len(j, names);
    if j.len() < names.len() {
        lemma_pow2_strictly_increases(j.len(), names.len());
    }
}

/// Every candidate has one factor for each variable.
pub proof fn lemma_product_lengths(lists: Seq<Seq<Factor>>)
    ensures
        forall|k: int|
            0 <= k < product_of(lists).len() ==> (#[trigger] product_of(lists)[k]).len()
                == lists.len(),
    decreases lists.len(),
{
    if lists.len() > 0 {
        let rest = product_of(lists.drop_first());
        lemma_product_lengths(lists.drop_first());
        let r = rest.len() as int;
        let c = lists[0].len() as int;
        assert forall|k: int| 0 <= k < product_of(lists).len() implies (#[trigger] product_of(
            lists,
        )[k]).len() == lists.len() by {
            assert(r > 0) by (nonlinear_arith)
                requires
                    0 <= k < c * r,
                    0 <= r,
            ;
            assert(0 <= k % r < r);
            assert(rest[k % r].len() == lists.len() - 1);
        }
    }
}

/// Every term over `n` variables is among the candidates.
pub proof fn lemma_candidates_complete(n: nat, term: Seq<Factor>) -> (k: int)
    requires
        term.len() == n,
    ensures
        0 <= k < candidates(n).len(),
        candidates(n)[k] == term,
    decreases n,
{
    let lists = Seq::new(n, |i: int| factors());
    if n == 0 {
        assert(term =~= Seq::<Factor>::empty());
        0
    } else {
        assert(lists.drop_first() =~= Seq::new((n - 1) as nat, |i: int| factors()));
        let rest = candidates((n - 1) as nat);
        let r = lemma_candidates_complete((n - 1) as nat, term.drop_first());
        let d: int = match term[0] {
            Factor::DontCare => 0,
            Factor::IsFalse => 1,
            Factor::IsTrue => 2,
        };
        let len = rest.len() as int;
        let k = d * len + r;
        vstd::arithmetic::div_mod::lemma_fundamental_div_mod_converse(k, len, d, r);
        assert(lists[0] == factors());
        assert(0 <= k < 3 * len) by (nonlinear_arith)
            requires
                0 <= d <= 2,
                0 <= r < len,
                k == d * len + r,
        ;
        assert(factors()[d] == term[0]);
        assert(seq![term[0]] + term.drop_first() =~= term);
        k
    }
}

/// The list of factors to choose from for each of `n` variables.
fn factor_lists(n: usize) -> (lists: Vec<Vec<Factor>>)
    ensures
        terms_of(lists@) == Seq::new(n as nat, |i: int| factors()),
{
    let mut lists: Vec<Vec<Factor>> = Vec::new();
    let mut i: usize = 0;
    while i < n
        invariant
            i <= n,
            lists.len() == i,
            forall|k: int| 0 <= k < i ==> (#[trigger] lists[k])@ == factors(),
        decreases n - i,
    {
        let mut list: Vec<Factor> = Vec::new();
        list.push(Factor::DontCare);
        list.push(Factor::IsFalse);
        list.push(Factor::IsTrue);
        assert(list@ =~= factors());
        lists.push(list);
        i += 1;
    }
    assert(terms_of(lists@) =~= Seq::new(n as nat, |i: int| factors()));
    lists
}

/// The table of a term over the given variables.
fn term_table(vars: &Vec<Var>, term: &Vec<Factor>) -> (t: TruthTable)
    requires
        term.len() == vars.len(),
        pow2(vars.len() as nat) <= usize::MAX,
    ensures
        t@ == term_logic(term@, names_of(vars@)),
{
    let ghost names = names_of(vars@);
    let mut t = TruthTable::always();
    let mut i: usize = 0;
    while i < term.len()
        invariant
            i <= term.len(),
            term.len() == vars.len(),
            names == names_of(vars@),
            pow2(names.len()) <= usize::MAX,
            t@ == term_logic(term@.take(i as int), names),
        decreases term.len() - i,
    {
        proof {
            let next = term@.take(i + 1);
            assert(next.drop_last() =~= term@.take(i as int));
            assert(next.last() == term[i as int]);
            lemma_term_logic(term@.take(i as int), names);
            if term[i as int] != Factor::DontCare {
                let lit = factor_logic(term[i as int], names[i as int]);
                lemma_factor_logic(term[i as int], names[i as int]);
                assert(lit.names()[0] == names[i as int]);
                assert(names.contains(names[i as int]));
                lemma_fits_within(t@, lit, names);
            }
            lemma_variable(names[i as int]);
        }
        match term[i] {
            Factor::DontCare => {},
            Factor::IsFalse => {
                let lit = TruthTable::from(vars[i].as_str()).not();
                t = t.and(&lit);
            },
            Factor::IsTrue => {
                let lit = TruthTable::from(vars[i].as_str());
                t = t.and(&lit);
            },
        }
        i += 1;
    }
    proof {
        assert(term@.take(i as int) =~= term@);
    }
    t
}

/// The best term for what is left uncovered of a function, with its table.
fn best_term(target: &TruthTable, negated: &TruthTable, covered: &TruthTable) -> (best: (
    Vec<Factor>,
    TruthTable,
))
    requires
        target@.valid(),
        target is Explicit,
        negated@ == target@.not(),
        covered@.valid(),
        names_within(covered@.names(), target@.names()),
        forall|env: spec_fn(Seq<char>) -> bool| #[trigger]
            covered@.eval(env) ==> target@.eval(env),
        !covered@.equivalent(target@),
    ensures
        is_best(target@, covered@, best.0@),
        best.0.len() == target@.names().len(),
        best.1@ == term_logic(best.0@, target@.names()),
        exists|env: spec_fn(Seq<char>) -> bool| #[trigger]
            best.1@.eval(env) && !covered@.eval(env),
{
    let ghost names = target@.names();
    let n = target.var_count();
    let never = TruthTable::never();
    let mut it = cartesian_product(factor_lists(n));
    let ghost all = pending(it);
    let mut best: Option<(Vec<Factor>, TruthTable)> = None;
    let mut best_score: usize = 0;
    let ghost mut at: int = 0;
    let ghost mut seen: int = 0;
    proof {
        lemma_not(target@);
        lemma_product_lengths(Seq::new(n as nat, |i: int| factors()));
        assert(all.skip(0) =~= all);
    }
    loop
        invariant
            target@.valid(),
            target is Explicit,
            names == target@.names(),
            n == names.len(),
            pow2(names.len()) <= usize::MAX,
            negated@ == target@.not(),
            negated@.valid(),
            negated@.names() == names,
            never@ == Logic::False,
            covered@.valid(),
            names_within(covered@.names(), names),
            all == candidates(n as nat),
            forall|k: int| 0 <= k < all.len() ==> (#[trigger] all[k]).len() == n,
            0 <= seen <= all.len(),
            pending(it) == all.skip(seen),
            best is None ==> best_score == 0,
            best is None ==> forall|j: int|
                0 <= j < seen && admissible(target@, #[trigger] all[j]) ==> score(
                    covered@,
                    names,
                    all[j],
                ) == 0,
            best matches Some(b) ==> {
                &&& 0 <= at < seen
                &&& b.0@ == all[at]
                &&& b.1@ == term_logic(all[at], names)
                &&& admissible(target@, all[at])
                &&& best_score == score(covered@, names, all[at])
                &&& best_score > 0
                &&& forall|j: int|
                    0 <= j < seen && admissible(target@, #[trigger] all[j]) ==> score(
                        covered@,
                        names,
                        all[j],
                    ) <= best_score
                &&& forall|j: int|
                    0 <= j < at && admissible(target@, #[trigger] all[j]) ==> score(
                        covered@,
                        names,
                        all[j],
                    ) < best_score
            },
        ensures
            seen == all.len(),
        decreases pending(it).len(),
    {
        let item = next_product(&mut it);
        match item {
            None => {
                break ;
            },
            Some(term) => {
                proof {
                    assert(all.skip(seen)[0] == all[seen]);
                    assert(all.skip(seen).drop_first() =~= all.skip(seen + 1));
                    lemma_term_logic(term@, names);
                    lemma_fits_within(term_logic(term@, names), negated@, names);
                }
                let table = term_table(target.vars(), &term);
                let outside = table.and(negated);
                proof {
                    lemma_not(target@);
                    lemma_combine(table@, negated@, BoolOp::And);
                    lemma_joint_within(table@.names(), negated@.names(), names);
                    lemma_fits_within(outside@, never@, names);
                    lemma_fits_within(covered@, table@, names);
                }
                let fine = agrees(&outside, &never);
                proof {
                    if fine {
                        assert forall|env: spec_fn(Seq<char>) -> bool| #[trigger]
                            term_holds(term@, names, env) implies target@.eval(env) by {
                            assert(outside@.eval(env) == never@.eval(env));
                            assert(table@.eval(env) == term_holds(term@, names, env));
                            assert(negated@.eval(env) == !target@.eval(env));
                        }
                    } else {
                        let env = choose|env: spec_fn(Seq<char>) -> bool|
                            #[trigger] outside@.eval(env) != never@.eval(env);
                        assert(table@.eval(env) == term_holds(term@, names, env));
                        assert(negated@.eval(env) == !target@.eval(env));
                        assert(term_holds(term@, names, env) && !target@.eval(env));
                    }
                    assert(fine == admissible(target@, term@));
                }
                if fine {
                    let worth = covered.or(&table).true_rows();
                    if worth > best_score {
                        best = Some((term, table));
                        best_score = worth;
                        proof {
                            at = seen;
                        }
                    }
                }
                proof {
                    seen = seen + 1;
                }
            },
        }
    }
    proof {
        let k = lemma_some_candidate_gains(target@, covered@);
        if best is Some {
            let ghost b = best->0;
            if !(exists|env: spec_fn(Seq<char>) -> bool| #[trigger]
                b.1@.eval(env) && !covered@.eval(env)) {
                lemma_term_logic(all[at], names);
                assert forall|env: spec_fn(Seq<char>) -> bool| #[trigger]
                    b.1@.eval(env) implies covered@.eval(env) by {}
                lemma_no_gain_bound(names, covered@, b.1@);
                assert(false);
            }
        }
    }
    match best {
        Some(b) => b,
        None => vstd::pervasive::unreached(),
    }
}

/// The terms of the greedy cover of a table.
fn greedy_terms(target: &TruthTable) -> (terms: Vec<Vec<Factor>>)
    requires
        target@.valid(),
        target is Explicit,
    ensures
        is_greedy_cover(target@, terms_of(terms@)),
        forall|k: int| 0 <= k < terms.len() ==> (#[trigger] terms[k]).len() == target@.names().len(),
        forall|k: int| 0 <= k < terms.len() ==> admissible(target@, #[trigger] terms_of(terms@)[k]),
{
    let ghost names = target@.names();
    let n = target.var_count();
    let negated = target.not();
    let mut terms: Vec<Vec<Factor>> = Vec::new();
    let mut covered = TruthTable::never();
    proof {
        assert(terms_of(terms@) =~= Seq::<Seq<Factor>>::empty());
        lemma_true_set_finite(covered@, names);
    }
    loop
        invariant
            target@.valid(),
            target is Explicit,
            names == target@.names(),
            pow2(names.len()) <= usize::MAX,
            negated@ == target@.not(),
            covered@ == covered_by(terms_of(terms@), names),
            covered@.valid(),
            names_within(covered@.names(), names),
            forall|env: spec_fn(Seq<char>) -> bool| #[trigger]
                covered@.eval(env) ==> target@.eval(env),
            forall|k: int| 0 <= k < terms.len() ==> (#[trigger] terms[k]).len() == names.len(),
            forall|k: int|
                0 <= k < terms.len() ==> admissible(target@, #[trigger] terms_of(terms@)[k]),
            forall|j: int|
                0 <= j < terms.len() ==> {
                    &&& !covered_by(#[trigger] terms_of(terms@).take(j), names).equivalent(
                        target@,
                    )
                    &&& is_best(
                        target@,
                        covered_by(terms_of(terms@).take(j), names),
                        terms_of(terms@)[j],
                    )
                },
            true_set(covered@, names).len() <= pow2(names.len()),
        ensures
            covered@.equivalent(target@),
        decreases pow2(names.len()) - true_set(covered@, names).len(),
    {
        proof {
            lemma_fits_within(covered@, target@, names);
        }
        if agrees(&covered, target) {
            break ;
        }
        let (term, table) = best_term(target, &negated, &covered);
        let ghost before = terms_of(terms@);
        let ghost was = covered@;
        proof {
            lemma_term_logic(term@, names);
            lemma_fits_within(covered@, table@, names);
            lemma_combine(covered@, table@, BoolOp::Or);
            lemma_joint_within(covered@.names(), table@.names(), names);
            let env = choose|env: spec_fn(Seq<char>) -> bool|
                #[trigger] table@.eval(env) && !covered@.eval(env);
            lemma_cover_grows(names, covered@, table@, env);
        }
        covered = covered.or(&table);
        terms.push(term);
        proof {
            let after = terms_of(terms@);
            assert(after.drop_last() =~= before);
            assert(after.last() == term@);
            assert(after.take(before.len() as int) =~= before);
            assert forall|j: int| 0 <= j < before.len() implies #[trigger] after.take(j)
                =~= before.take(j) by {}
            assert forall|k: int| 0 <= k < before.len() implies after[k] == before[k] by {}
            assert(is_best(target@, was, term@));
            assert forall|env: spec_fn(Seq<char>) -> bool| #[trigger]
                covered@.eval(env) implies target@.eval(env) by {
                assert(covered@.eval(env) == (was.eval(env) || table@.eval(env)));
                assert(table@.eval(env) == term_holds(term@, names, env));
            }
        }
    }
    proof {
        assert(terms_of(terms@).take(terms.len() as int) =~= terms_of(terms@));
    }
    terms
}

impl TruthTable {
    /// The number of variables of a table.
    fn var_count(&self) -> (n: usize)
        requires
            self is Explicit,
        ensures
            n == self@.names().len(),
            self@.wf() ==> pow2(n as nat) <= usize::MAX,
    {
        match self {
            TruthTable::Explicit { vars, table } => {
                let rows = table.len();
                assert(self@.wf() ==> rows == pow2(vars.len() as nat));
                vars.len()
            },
            _ => 0,
        }
    }

    /// The variables of a table.
    fn vars(&self) -> (vars: &Vec<Var>)
        requires
            self is Explicit,
        ensures
            names_of(vars@) == self@.names(),
    {
        match self {
            TruthTable::Explicit { vars, .. } => vars,
            _ => vstd::pervasive::unreached(),
        }
    }

    /// The function as a sum of products, found greedily.
    ///
    /// A constant has no terms, and `invert` tells which constant it is. For
    /// a table the sum is never inverted; its terms have one factor for each
    /// variable, in the table's order of variables.
    pub fn dnf(&self) -> (p: Product)
        requires
            self@.valid(),
        ensures
            p@ == cover_of(self@),
            self@ is Table ==> is_greedy_cover(self@, p@.terms),
            forall|k: int|
                0 <= k < p@.terms.len() ==> (#[trigger] p@.terms[k]).len() == self@.names().len(),
            forall|k: int| 0 <= k < p@.terms.len() ==> admissible(self@, #[trigger] p@.terms[k]),
            forall|env: spec_fn(Seq<char>) -> bool| #[trigger]
                p@.eval(self@.names(), env) == self@.eval(env),
    {
        match self {
            TruthTable::AlwaysTrue => {
                let p = Product { invert: true, terms: Vec::new() };
                assert(p@.terms =~= Seq::<Seq<Factor>>::empty());
                p
            },
            TruthTable::AlwaysFalse => {
                let p = Product { invert: false, terms: Vec::new() };
                assert(p@.terms =~= Seq::<Seq<Factor>>::empty());
                p
            },
            TruthTable::Explicit { .. } => {
                let terms = greedy_terms(self);
                proof {
                    lemma_covered_by(terms_of(terms@), self@.names());
                    assert forall|env: spec_fn(Seq<char>) -> bool|
                        sum_holds(terms_of(terms@), self@.names(), env) == #[trigger] self@.eval(
                            env,
                        ) by {
                        assert(covered_by(terms_of(terms@), self@.names()).eval(env)
                            == self@.eval(env));
                    }
                    lemma_greedy_unique(self@, terms_of(terms@), cover_of(self@).terms);
                }
                Product { invert: false, terms }
            },
        }
    }
}

} // verus!
