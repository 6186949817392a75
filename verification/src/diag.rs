//! The diagnostic taxonomy of the codec.
//!
//! Every anomaly the codec meets while parsing or serializing is recoverable:
//! it is recorded as a [`Diagnostic`] value and handed back to the caller,
//! and processing of the remaining well-formed input continues.

use vstd::prelude::*;

verus! {

/// One recoverable anomaly met while applying or rendering style text.
#[derive(Clone, Copy, PartialEq, Eq, Structural, Debug)]
pub enum Diagnostic {
    /// A `name(argument)` unit whose parentheses never balance, or leftover
    /// record text in which no unit can be found.  The broken tail is
    /// abandoned; everything parsed before it stays applied.
    UnmatchedParenthesis,
    /// A declaration or unit names a field the target record does not have.
    /// Only that one declaration or unit is skipped.
    UnknownField,
    /// A tuple was given a different number of top-level segments than its
    /// arity.  The tuple is left unmodified.
    ArityMismatch,
    /// A declaration with no `:` separator.  The declaration is skipped.
    MalformedDeclaration,
}

} // verus!
