//! Names which belong to scopes.
//!
//! Input variables, as they appear in the source code being processed:
//! * may have a given name, which can be looked up efficiently, or
//! * may be anonymous, possibly with a prefix, which isn't looked up, and
//! * may shadow variables in higher scopes.
//!
//! The registry hands out `Name` values as opaque, comparable keys: given
//! names with equal text in the same scope are the same name, while
//! anonymous names each denote a distinct generated identifier, so they
//! never compare equal, not even to themselves.

pub mod intern;
pub mod name;
pub mod scope;
