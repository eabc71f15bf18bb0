//! Identifiers registered in a scope, and their equality model.
//!
//! Only given names can ever be equal: a given name equals another given
//! name exactly when both carry the same text and belong to the same scope.
//! Anonymous names (prefixed or not) have no identifying content, so each
//! denotes a distinct generated identifier and equals nothing, not even a
//! copy of itself.

use vstd::prelude::*;

use crate::intern::{ustr_eq, ustr_text};
use crate::scope::Scope;
use ustr::Ustr;

verus! {

/// An identifier, either anonymous or given.
///
/// Instances should be created through `Scope`.
#[derive(Debug, Clone)]
pub struct Name {
    pub scope: Scope,
    pub data: InputName,
}

/// A given identifier that should not collide within a scope.
#[derive(Debug, Clone, Eq, Hash)]
pub struct GivenName {
    pub name: Ustr,
}

/// An anonymous identifier, optionally with a prefix.
///
/// An empty prefix text means "no prefix".
#[derive(Debug, Clone)]
pub struct AnonName {
    pub name: Ustr,
}

#[derive(Debug, Clone)]
pub enum InputName {
    Given(GivenName),
    Anonymous(AnonName),
}

/// When two names count as the same declared identifier: both are given,
/// they belong to the same scope, and their texts are equal. A name with an
/// anonymous side is never equal to anything.
pub open spec fn name_eq(a: Name, b: Name) -> bool {
    &&& a.data is Given
    &&& b.data is Given
    &&& a.scope == b.scope
    &&& ustr_text(a.data->Given_0.name) == ustr_text(b.data->Given_0.name)
}

impl Name {
    /// The given-name payload of a name known to be given.
    pub fn unwrap_given(self) -> (r: GivenName)
        requires
            self.data is Given,
        ensures
            r == self.data->Given_0,
    {
        match self.data {
            InputName::Given(given) => given,
            InputName::Anonymous(_) => vstd::pervasive::unreached(),
        }
    }
}

impl PartialEq for Name {
    fn eq(&self, other: &Self) -> bool {
        match &self.data {
            InputName::Given(g1) => match &other.data {
                InputName::Given(g2) => self.scope == other.scope && g1 == g2,
                InputName::Anonymous(_) => false,
            },
            InputName::Anonymous(_) => false,
        }
    }
}

impl vstd::std_specs::cmp::PartialEqSpecImpl for Name {
    open spec fn obeys_eq_spec() -> bool {
        true
    }

    open spec fn eq_spec(&self, other: &Name) -> bool {
        name_eq(*self, *other)
    }
}

impl PartialEq for GivenName {
    fn eq(&self, other: &Self) -> bool {
        ustr_eq(&self.name, &other.name)
    }
}

impl vstd::std_specs::cmp::PartialEqSpecImpl for GivenName {
    open spec fn obeys_eq_spec() -> bool {
        true
    }

    open spec fn eq_spec(&self, other: &GivenName) -> bool {
        ustr_text(self.name) == ustr_text(other.name)
    }
}

/// Only given identifiers can be equal; anonymous ones have no identifying
/// information, so are assumed non-equal.
impl PartialEq for AnonName {
    fn eq(&self, _other: &Self) -> bool {
        false
    }
}

impl vstd::std_specs::cmp::PartialEqSpecImpl for AnonName {
    open spec fn obeys_eq_spec() -> bool {
        true
    }

    open spec fn eq_spec(&self, _other: &AnonName) -> bool {
        false
    }
}

/// Law: a name with an anonymous side equals nothing — two anonymous names
/// are unequal whatever their prefixes, and an anonymous name is unequal
/// even to itself under value equality.
pub proof fn lemma_anonymous_never_equal(n1: Name, n2: Name)
    requires
        n1.data is Anonymous || n2.data is Anonymous,
    ensures
        !name_eq(n1, n2),
{
}

/// Law: two given names with equal text that belong to the same scope are
/// equal, in both directions.
pub proof fn lemma_given_equal_text_equal(n1: Name, n2: Name)
    requires
        n1.data is Given,
        n2.data is Given,
        n1.scope == n2.scope,
        ustr_text(n1.data->Given_0.name) == ustr_text(n2.data->Given_0.name),
    ensures
        name_eq(n1, n2),
        name_eq(n2, n1),
{
}

/// Law: names owned by registries with different identity numbers are never
/// equal, whatever their texts — two independently created registries give
/// out unrelated names.
pub proof fn lemma_distinct_roots_never_equal(n1: Name, n2: Name)
    requires
        n1.scope.root_id != n2.scope.root_id,
    ensures
        !name_eq(n1, n2),
{
}

} // verus!
