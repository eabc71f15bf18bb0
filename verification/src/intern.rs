//! Interned identifier text.
//!
//! All identifier text is held as `ustr::Ustr` handles into the process-wide
//! string cache, so that equality of given names is a pointer comparison
//! instead of a string comparison. The contracts below speak of the text a
//! handle stands for through the abstraction `ustr_text`.

use vstd::prelude::*;

verus! {

#[verifier::external_type_specification]
#[verifier::external_body]
pub struct ExUstr(ustr::Ustr);

/// The text that an interned handle stands for.
pub uninterp spec fn ustr_text(u: ustr::Ustr) -> Seq<char>;

/// Relies on the `Clone` of `ustr::Ustr`, which copies the handle as is
/// (`Ustr` is `Copy`).
pub assume_specification[ <ustr::Ustr as core::clone::Clone>::clone ](u: &ustr::Ustr) -> (r: ustr::Ustr)
    ensures
        r == *u,
;

/// Relies on `ustr::Ustr::from`: it inserts the text into the string cache,
/// from which the handle reads back exactly that text.
#[verifier::external_body]
pub(crate) fn intern(text: &str) -> (u: ustr::Ustr)
    ensures
        ustr_text(u) == text@,
{
    ustr::Ustr::from(text)
}

/// Relies on the `PartialEq` of `ustr::Ustr`, which compares cache pointers:
/// the cache holds each text once and never drops an entry, so two handles
/// carry the same pointer exactly when their texts are equal.
#[verifier::external_body]
pub(crate) fn ustr_eq(a: &ustr::Ustr, b: &ustr::Ustr) -> (r: bool)
    ensures
        r == (ustr_text(*a) == ustr_text(*b)),
{
    a == b
}

} // verus!
