//! Stylesheets: rules, selectors, declarations and values.
use vstd::prelude::*;

verus! {

#[derive(PartialEq, Eq, Structural, Clone, Copy, Debug)]
pub enum Unit {
    Px,
}

/// A property value: a keyword, or a length in whole pixels.
#[derive(PartialEq, Eq, Debug)]
pub enum Value {
    Keyword(String),
    Length(i32, Unit),
}

impl Clone for Value {
    fn clone(&self) -> (r: Value)
        ensures
            r == *self,
    {
        match self {
            Value::Keyword(s) => Value::Keyword(s.clone()),
            Value::Length(n, u) => Value::Length(*n, *u),
        }
    }
}

/// The length of a value in pixels; a keyword counts as zero.
pub open spec fn px_of(v: Value) -> int {
    match v {
        Value::Length(n, Unit::Px) => n as int,
        _ => 0,
    }
}

/// Whether a value is the keyword `auto`.
pub open spec fn is_auto_value(v: Value) -> bool {
    match v {
        Value::Keyword(s) => s@ == "auto"@,
        _ => false,
    }
}

/// Whether two string slices hold the same characters.
pub fn str_eq(a: &str, b: &str) -> (r: bool)
    ensures
        r == (a@ == b@),
{
    let n = a.unicode_len();
    if n != b.unicode_len() {
        return false;
    }
    let mut i: usize = 0;
    while i < n
        invariant
            n == a@.len(),
            n == b@.len(),
            i <= n,
            forall|k: int| 0 <= k < i ==> a@[k] == b@[k],
        decreases n - i,
    {
        if a.get_char(i) != b.get_char(i) {
            return false;
        }
        i = i + 1;
    }
    assert(a@ =~= b@);
    true
}

impl Value {
    /// The length of this value in pixels; a keyword counts as zero.
    pub fn to_px(&self) -> (r: i64)
        ensures
            r as int == px_of(*self),
    {
        match self {
            Value::Length(n, Unit::Px) => *n as i64,
            _ => 0,
        }
    }

    /// Whether this value is the keyword `auto`.
    pub fn is_auto(&self) -> (r: bool)
        ensures
            r == is_auto_value(*self),
    {
        match self {
            Value::Keyword(s) => {
                proof {
                    reveal_strlit("auto");
                }
                str_eq(s.as_str(), "auto")
            },
            _ => false,
        }
    }
}

/// A simple selector: optional tag name, optional id, and required classes.
pub struct SimpleSelector {
    pub tag_name: Option<String>,
    pub id: Option<String>,
    pub class: Vec<String>,
}

pub enum Selector {
    Simple(SimpleSelector),
}

/// (id predicates, class predicates, tag predicates), compared lexicographically.
pub type Specificity = (usize, usize, usize);

/// Lexicographic order on specificities.
pub open spec fn specificity_le(a: Specificity, b: Specificity) -> bool {
    a.0 < b.0 || (a.0 == b.0 && (a.1 < b.1 || (a.1 == b.1 && a.2 <= b.2)))
}

/// Whether specificity `a` is at most `b`.
pub fn le_specificity(a: Specificity, b: Specificity) -> (r: bool)
    ensures
        r == specificity_le(a, b),
{
    a.0 < b.0 || (a.0 == b.0 && (a.1 < b.1 || (a.1 == b.1 && a.2 <= b.2)))
}

impl Selector {
    pub open spec fn spec_specificity(&self) -> Specificity {
        match self {
            Selector::Simple(s) => (
                if s.id.is_some() { 1 } else { 0 },
                s.class.len(),
                if s.tag_name.is_some() { 1 } else { 0 },
            ),
        }
    }

    pub fn specificity(&self) -> (r: Specificity)
        ensures
            r == self.spec_specificity(),
    {
        match self {
            Selector::Simple(s) => {
                let a: usize = if s.id.is_some() { 1 } else { 0 };
                let c: usize = if s.tag_name.is_some() { 1 } else { 0 };
                (a, s.class.len(), c)
            },
        }
    }
}

/// One `name: value` pair of a rule.
pub struct Declaration {
    pub name: String,
    pub value: Value,
}

/// Selectors (any one matching suffices) and the declarations they apply.
pub struct Rule {
    pub selectors: Vec<Selector>,
    pub declarations: Vec<Declaration>,
}

/// Rules in source order.
pub struct Stylesheet {
    pub rules: Vec<Rule>,
}

} // verus!
