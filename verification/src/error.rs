//! Why a query cannot be resolved against a schema.

use vstd::prelude::*;

verus! {

/// The failures of type resolution. Each carries the name that failed.
#[derive(Debug, PartialEq, Eq)]
pub enum QueryExecutionError {
    /// The schema has no type of this name.
    AbstractTypeError(String),
    /// The type of this name is a scalar, an enum or an input object, and
    /// so denotes no object types.
    NamedTypeError(String),
}

/// What a [`QueryExecutionError`] denotes.
pub enum QueryExecutionErrorView {
    AbstractTypeError(Seq<char>),
    NamedTypeError(Seq<char>),
}

impl View for QueryExecutionError {
    type V = QueryExecutionErrorView;

    open spec fn view(&self) -> QueryExecutionErrorView {
        match self {
            QueryExecutionError::AbstractTypeError(name) => {
                QueryExecutionErrorView::AbstractTypeError(name@)
            },
            QueryExecutionError::NamedTypeError(name) => QueryExecutionErrorView::NamedTypeError(
                name@,
            ),
        }
    }
}

} // verus!
