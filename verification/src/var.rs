//! Variable names.
//!
//! A variable is an interned string. Two variables are the same variable when
//! their names are the same text, and variables are ordered by name.

use internship::IStr;
use vstd::prelude::*;

verus! {

/// `internship::IStr`, a handle to an interned string. Nothing is known of
/// what is inside a handle but the text that it holds.
#[verifier::external_type_specification]
#[verifier::external_body]
pub struct ExInternedStr(internship::IStr);

/// The text that an interned string holds.
pub uninterp spec fn interned_text(s: IStr) -> Seq<char>;

/// `IStr::new` interns a string slice: the handle it returns holds the text
/// of the slice.
pub assume_specification[ IStr::new ](src: &str) -> (s: IStr)
    ensures
        interned_text(s) == src@,
;

/// `IStr::as_str` hands out the text that the handle holds.
pub assume_specification<'a>[ IStr::as_str ](s: &'a IStr) -> (t: &'a str)
    ensures
        t@ == interned_text(*s),
;

/// Cloning an interned string gives a handle to the same text.
pub assume_specification[ <IStr as Clone>::clone ](s: &IStr) -> (c: IStr)
    ensures
        interned_text(c) == interned_text(*s),
;

/// `==` on two interned strings. Within a thread every text is interned
/// once, so two handles are equal exactly when they hold the same text.
#[verifier::external_body]
fn same_interned(a: &IStr, b: &IStr) -> (same: bool)
    ensures
        same == (interned_text(*a) == interned_text(*b)),
{
    a == b
}

/// `<` on string slices: std orders them lexicographically by their bytes,
/// which is the lexicographic order of their code points.
#[verifier::external_body]
fn text_precedes(a: &str, b: &str) -> (before: bool)
    ensures
        before == name_lt(a@, b@),
{
    a < b
}

/// The strict order on names: lexicographic by code point, a proper prefix
/// first.
pub open spec fn name_lt(a: Seq<char>, b: Seq<char>) -> bool
    decreases a.len(),
{
    if b.len() == 0 {
        false
    } else if a.len() == 0 {
        true
    } else if a[0] != b[0] {
        (a[0] as u32) < (b[0] as u32)
    } else {
        name_lt(a.drop_first(), b.drop_first())
    }
}

/// No name precedes itself.
pub proof fn lemma_name_lt_irreflexive(a: Seq<char>)
    ensures
        !name_lt(a, a),
    decreases a.len(),
{
    if a.len() > 0 {
        lemma_name_lt_irreflexive(a.drop_first());
    }
}

/// The order on names is transitive.
pub proof fn lemma_name_lt_transitive(a: Seq<char>, b: Seq<char>, c: Seq<char>)
    requires
        name_lt(a, b),
        name_lt(b, c),
    ensures
        name_lt(a, c),
    decreases a.len(),
{
    if a.len() > 0 && a[0] == b[0] && b[0] == c[0] {
        lemma_name_lt_transitive(a.drop_first(), b.drop_first(), c.drop_first());
    }
}

/// Of two different names one precedes the other.
pub proof fn lemma_name_lt_connected(a: Seq<char>, b: Seq<char>)
    requires
        !name_lt(a, b),
        !name_lt(b, a),
    ensures
        a == b,
    decreases a.len(),
{
    if a.len() > 0 && b.len() > 0 {
        vstd::utf8::char_u32_cast(a[0], a[0] as u32);
        vstd::utf8::char_u32_cast(b[0], b[0] as u32);
        lemma_name_lt_connected(a.drop_first(), b.drop_first());
        assert(a =~= seq![a[0]] + a.drop_first());
        assert(b =~= seq![b[0]] + b.drop_first());
    } else {
        assert(a =~= b);
    }
}

/// A named logic variable.
#[derive(Debug, PartialEq, Eq, Hash, PartialOrd, Ord)]
pub struct Var {
    pub name: IStr,
}

impl View for Var {
    type V = Seq<char>;

    open spec fn view(&self) -> Seq<char> {
        interned_text(self.name)
    }
}

impl Clone for Var {
    fn clone(&self) -> (copy: Var)
        ensures
            copy@ == self@,
    {
        Var { name: self.name.clone() }
    }
}

impl Var {
    /// The variable with the given name.
    pub fn from(name: &str) -> (v: Var)
        ensures
            v@ == name@,
    {
        Var { name: IStr::new(name) }
    }

    /// The name as a string slice.
    pub fn as_str(&self) -> (text: &str)
        ensures
            text@ == self@,
    {
        self.name.as_str()
    }

    /// The length of the name in bytes.
    pub fn len(&self) -> (n: usize)
        ensures
            n == vstd::utf8::encode_utf8(self@).len(),
    {
        self.name.as_str().as_bytes().len()
    }

    /// Whether both are the same variable.
    pub fn same(&self, other: &Var) -> (same: bool)
        ensures
            same == (self@ == other@),
    {
        same_interned(&self.name, &other.name)
    }

    /// Whether this variable comes before the other in the order of names.
    pub fn precedes(&self, other: &Var) -> (before: bool)
        ensures
            before == name_lt(self@, other@),
    {
        text_precedes(self.name.as_str(), other.name.as_str())
    }
}

} // verus!
