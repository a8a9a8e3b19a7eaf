//! The error the library's operations report.

use vstd::prelude::*;

use crate::text::{push_signed_decimal, signed_decimal};

verus! {

/// An operation failed; the message says why.
#[derive(Clone, Debug, PartialEq, Eq)]
pub enum AppError {
    Other(String),
}

/// The message of a failed lookup: `<kind> <id> not found`.
pub open spec fn not_found_text(kind: Seq<char>, id: i64) -> Seq<char> {
    kind + " "@ + signed_decimal(id as int) + " not found"@
}

/// The error of a failed lookup of the `kind` with this id.
pub fn not_found(kind: &str, id: i64) -> (e: AppError)
    ensures
        e matches AppError::Other(m) && m@ == not_found_text(kind@, id),
{
    let mut m = String::new();
    m.append(kind);
    m.append(" ");
    push_signed_decimal(&mut m, id);
    m.append(" not found");
    assert(m@ =~= not_found_text(kind@, id));
    AppError::Other(m)
}

} // verus!
