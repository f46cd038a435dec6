//! Ordered sets of names.
//!
//! The variables of a combined function are the names of both operands,
//! each once, in ascending order. This module defines that list and shows
//! what it holds.

use crate::var::{
    lemma_name_lt_connected, lemma_name_lt_irreflexive, lemma_name_lt_transitive, name_lt,
};
use vstd::prelude::*;

verus! {

/// Each name comes strictly before all later ones.
pub open spec fn ascending(s: Seq<Seq<char>>) -> bool {
    forall|i: int, j: int| 0 <= i < j < s.len() ==> name_lt(#[trigger] s[i], #[trigger] s[j])
}

/// An ascending list with `x` put in its place, unless it is there already.
pub open spec fn insert_name(s: Seq<Seq<char>>, x: Seq<char>) -> Seq<Seq<char>>
    decreases s.len(),
{
    if s.len() == 0 {
        seq![x]
    } else if name_lt(x, s.last()) {
        insert_name(s.drop_last(), x).push(s.last())
    } else if s.last() == x {
        s
    } else {
        s.push(x)
    }
}

/// An ascending list with each name of `xs` put in its place.
pub open spec fn insert_names(acc: Seq<Seq<char>>, xs: Seq<Seq<char>>) -> Seq<Seq<char>>
    decreases xs.len(),
{
    if xs.len() == 0 {
        acc
    } else {
        insert_name(insert_names(acc, xs.drop_last()), xs.last())
    }
}

/// The names of `a` and of `b`, each once, in ascending order.
pub open spec fn joint_names(a: Seq<Seq<char>>, b: Seq<Seq<char>>) -> Seq<Seq<char>> {
    insert_names(insert_names(Seq::empty(), a), b)
}

/// Every name of `a` is a name of `b`.
pub open spec fn names_within(a: Seq<Seq<char>>, b: Seq<Seq<char>>) -> bool {
    forall|i: int| 0 <= i < a.len() ==> b.contains(#[trigger] a[i])
}

/// An ascending list names nothing twice.
pub proof fn lemma_ascending_distinct(s: Seq<Seq<char>>)
    requires
        ascending(s),
    ensures
        s.no_duplicates(),
{
    assert forall|i: int, j: int| 0 <= i < s.len() && 0 <= j < s.len() && i != j implies s[i]
        != s[j] by {
        lemma_name_lt_irreflexive(s[i]);
        if i < j {
            assert(name_lt(s[i], s[j]));
        } else {
            assert(name_lt(s[j], s[i]));
        }
    }
}

/// Putting a name in its place keeps the list ascending and adds that name
/// and no other.
pub proof fn lemma_insert_name(s: Seq<Seq<char>>, x: Seq<char>)
    requires
        ascending(s),
    ensures
        ascending(insert_name(s, x)),
        forall|y: Seq<char>| #[trigger]
            insert_name(s, x).contains(y) <==> (s.contains(y) || y == x),
        s.len() <= insert_name(s, x).len() <= s.len() + 1,
    decreases s.len(),
{
    let r = insert_name(s, x);
    if s.len() == 0 {
        assert(r[0] == x);
        assert forall|y: Seq<char>| r.contains(y) <==> (s.contains(y) || y == x) by {
            if y == x {
                assert(r[0] == y);
            }
        }
    } else if name_lt(x, s.last()) {
        let front = s.drop_last();
        let last = s.last();
        assert forall|i: int, j: int| 0 <= i < j < front.len() implies name_lt(
            #[trigger] front[i],
            #[trigger] front[j],
        ) by {
            assert(front[i] == s[i] && front[j] == s[j]);
        }
        lemma_insert_name(front, x);
        let inner = insert_name(front, x);
        assert forall|i: int, j: int| 0 <= i < j < r.len() implies name_lt(
            #[trigger] r[i],
            #[trigger] r[j],
        ) by {
            if j < inner.len() {
                assert(r[i] == inner[i] && r[j] == inner[j]);
            } else {
                assert(r[j] == last);
                assert(r[i] == inner[i]);
                assert(inner.contains(inner[i]));
                if inner[i] != x {
                    assert(front.contains(inner[i]));
                    let k = choose|k: int| 0 <= k < front.len() && front[k] == inner[i];
                    assert(s[k] == inner[i]);
                    assert(name_lt(s[k], s[s.len() - 1]));
                }
            }
        }
        assert forall|y: Seq<char>| r.contains(y) <==> (s.contains(y) || y == x) by {
            if r.contains(y) {
                let k = choose|k: int| 0 <= k < r.len() && r[k] == y;
                if k < inner.len() {
                    assert(inner[k] == y);
                    assert(inner.contains(y));
                    if y != x {
                        assert(front.contains(y));
                        let m = choose|m: int| 0 <= m < front.len() && front[m] == y;
                        assert(s[m] == y);
                    }
                } else {
                    assert(s[s.len() - 1] == y);
                }
            }
            if s.contains(y) {
                let k = choose|k: int| 0 <= k < s.len() && s[k] == y;
                if k < front.len() {
                    assert(front[k] == y);
                    assert(front.contains(y));
                    assert(inner.contains(y));
                    let m = choose|m: int| 0 <= m < inner.len() && inner[m] == y;
                    assert(r[m] == y);
                } else {
                    assert(r[r.len() - 1] == y);
                }
            }
            if y == x {
                assert(inner.contains(x));
                let m = choose|m: int| 0 <= m < inner.len() && inner[m] == x;
                assert(r[m] == y);
            }
        }
    } else if s.last() == x {
        assert(s[s.len() - 1] == x);
    } else {
        if !name_lt(s.last(), x) {
            lemma_name_lt_connected(s.last(), x);
        }
        assert forall|i: int, j: int| 0 <= i < j < r.len() implies name_lt(
            #[trigger] r[i],
            #[trigger] r[j],
        ) by {
            if j < s.len() {
                assert(r[i] == s[i] && r[j] == s[j]);
            } else {
                assert(r[i] == s[i]);
                if i < s.len() - 1 {
                    assert(name_lt(s[i], s[s.len() - 1]));
                    lemma_name_lt_transitive(s[i], s.last(), x);
                }
            }
        }
        assert forall|y: Seq<char>| r.contains(y) <==> (s.contains(y) || y == x) by {
            if r.contains(y) {
                let k = choose|k: int| 0 <= k < r.len() && r[k] == y;
                if k < s.len() {
                    assert(s[k] == y);
                }
            }
            if s.contains(y) {
                let k = choose|k: int| 0 <= k < s.len() && s[k] == y;
                assert(r[k] == y);
            }
            if y == x {
                assert(r[r.len() - 1] == y);
            }
        }
    }
}

/// Putting several names in their places keeps the list ascending and adds
/// those names and no others.
pub proof fn lemma_insert_names(acc: Seq<Seq<char>>, xs: Seq<Seq<char>>)
    requires
        ascending(acc),
    ensures
        ascending(insert_names(acc, xs)),
        forall|y: Seq<char>| #[trigger]
            insert_names(acc, xs).contains(y) <==> (acc.contains(y) || xs.contains(y)),
        acc.len() <= insert_names(acc, xs).len() <= acc.len() + xs.len(),
    decreases xs.len(),
{
    let r = insert_names(acc, xs);
    if xs.len() > 0 {
        let front = xs.drop_last();
        lemma_insert_names(acc, front);
        let inner = insert_names(acc, front);
        lemma_insert_name(inner, xs.last());
        assert forall|y: Seq<char>| r.contains(y) <==> (acc.contains(y) || xs.contains(y)) by {
            if front.contains(y) {
                let k = choose|k: int| 0 <= k < front.len() && front[k] == y;
                assert(xs[k] == y);
            }
            if xs.contains(y) {
                let k = choose|k: int| 0 <= k < xs.len() && xs[k] == y;
                if k < front.len() {
                    assert(front[k] == y);
                }
            }
            if y == xs.last() {
                assert(xs[xs.len() - 1] == y);
            }
        }
    }
}

/// The joint names of two lists are ascending, name nothing twice, and are
/// the names of either list.
pub proof fn lemma_joint_names(a: Seq<Seq<char>>, b: Seq<Seq<char>>)
    ensures
        ascending(joint_names(a, b)),
        joint_names(a, b).no_duplicates(),
        forall|y: Seq<char>| #[trigger]
            joint_names(a, b).contains(y) <==> (a.contains(y) || b.contains(y)),
        names_within(a, joint_names(a, b)),
        names_within(b, joint_names(a, b)),
        joint_names(a, b).len() <= a.len() + b.len(),
        joint_names(a, b).len() == 0 <==> (a.len() == 0 && b.len() == 0),
{
    let empty = Seq::<Seq<char>>::empty();
    lemma_insert_names(empty, a);
    lemma_insert_names(insert_names(empty, a), b);
    lemma_ascending_distinct(joint_names(a, b));
    let j = joint_names(a, b);
    assert forall|i: int| 0 <= i < a.len() implies j.contains(#[trigger] a[i]) by {
        assert(a.contains(a[i]));
    }
    assert forall|i: int| 0 <= i < b.len() implies j.contains(#[trigger] b[i]) by {
        assert(b.contains(b[i]));
    }
    if a.len() > 0 {
        assert(j.contains(a[0]));
    }
    if b.len() > 0 {
        assert(j.contains(b[0]));
    }
    if j.len() > 0 {
        assert(j.contains(j[0]));
    }
}

/// A list without repetition whose names all belong to another list is no
/// longer than that list.
pub proof fn lemma_names_within_len(a: Seq<Seq<char>>, b: Seq<Seq<char>>)
    requires
        a.no_duplicates(),
        names_within(a, b),
    ensures
        a.len() <= b.len(),
{
    a.unique_seq_to_set();
    b.lemma_cardinality_of_set();
    assert(a.to_set().subset_of(b.to_set())) by {
        assert forall|y: Seq<char>| a.to_set().contains(y) implies b.to_set().contains(y) by {
            let k = choose|k: int| 0 <= k < a.len() && a[k] == y;
            assert(b.contains(a[k]));
        }
    }
    vstd::set_lib::lemma_len_subset(a.to_set(), b.to_set());
}

} // verus!
