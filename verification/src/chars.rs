//! Character classes used by the grammar layers.
//!
//! The Unicode queries of `std` (`is_alphabetic`, `is_alphanumeric`,
//! `is_whitespace`) are functions of the character alone; their full tables
//! are not restated here. Each gets an opaque name, and the predicate types
//! below give those names the [`crate::combinator::CharPred`] interface that
//! the scanning combinators work against.

use vstd::prelude::*;

use crate::combinator::CharPred;

verus! {

/// Whether the character has the Unicode `Alphabetic` property.
pub uninterp spec fn char_alphabetic(c: char) -> bool;

/// Whether the character is Unicode alphanumeric.
pub uninterp spec fn char_alphanumeric(c: char) -> bool;

/// Whether the character has the Unicode `White_Space` property.
pub uninterp spec fn char_whitespace(c: char) -> bool;

/// Relies on `char::is_alphabetic`: whether the character has the Unicode
/// `Alphabetic` property, a function of the character alone.
pub assume_specification[ char::is_alphabetic ](c: char) -> (r: bool)
    ensures
        r == char_alphabetic(c),
;

/// Relies on `char::is_alphanumeric`: whether the character is Unicode
/// alphanumeric, a function of the character alone.
pub assume_specification[ char::is_alphanumeric ](c: char) -> (r: bool)
    ensures
        r == char_alphanumeric(c),
;

/// Relies on `char::is_whitespace`: whether the character has the Unicode
/// `White_Space` property, a function of the character alone.
pub assume_specification[ char::is_whitespace ](c: char) -> (r: bool)
    ensures
        r == char_whitespace(c),
;

/// Accepts the characters that may open an identifier: alphabetic or `_`.
pub struct IdentStart;

impl CharPred for IdentStart {
    open spec fn holds(&self, c: char) -> bool {
        char_alphabetic(c) || c == '_'
    }

    fn test(&self, c: char) -> (r: bool) {
        c.is_alphabetic() || c == '_'
    }
}

/// Accepts the characters that may continue an identifier: alphanumeric.
pub struct Alnum;

impl CharPred for Alnum {
    open spec fn holds(&self, c: char) -> bool {
        char_alphanumeric(c)
    }

    fn test(&self, c: char) -> (r: bool) {
        c.is_alphanumeric()
    }
}

/// Accepts whitespace characters.
pub struct White;

impl CharPred for White {
    open spec fn holds(&self, c: char) -> bool {
        char_whitespace(c)
    }

    fn test(&self, c: char) -> (r: bool) {
        c.is_whitespace()
    }
}

} // verus!
