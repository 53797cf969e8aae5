//! Source positions, as the parser reports them.

use graphql_parser::Pos;
use vstd::prelude::*;

verus! {

/// The parser's source position: a line and a column. It is carried through
/// for diagnostics and never inspected, so its contents stay hidden.
#[verifier::external_type_specification]
#[verifier::external_body]
pub struct ExPos(Pos);

/// Compares two positions with `Pos`'s own `==`.
///
/// Trusted: `graphql_parser::Pos` derives `PartialEq` over its two fields,
/// `line` and `column`, and has no others, so two positions compare equal
/// exactly when they are the same value.
#[verifier::external_body]
pub(crate) fn same_position(a: &Pos, b: &Pos) -> (same: bool)
    ensures
        same == (*a == *b),
{
    a == b
}

} // verus!
