//! Planning of polymorphic GraphQL selections.
//!
//! A query written against interfaces and unions is resolved into one list of
//! fields per concrete object type. Repeated selections of the same response
//! key are merged into a single field, so that the resulting tree can be
//! walked without looking at the schema again.

pub mod directive;
pub mod error;
pub mod merge_laws;
pub mod names;
pub mod plan;
pub mod position;
pub mod schema;
pub mod selection;
pub mod text;
pub mod type_set;
pub mod value;

pub use directive::{Directive, DirectiveView};
pub use error::{QueryExecutionError, QueryExecutionErrorView};
pub use names::NameSet;
pub use schema::{
    resolve_object_types, Schema, SchemaView, TypeDefinition, TypeKind, TypeKindView,
};
pub use plan::{FieldView, SelectionSetView};
pub use selection::{Field, SelectionSet};
pub use type_set::{ObjectTypeSet, ObjectTypeSetView, TypeCondition};
pub use value::{Value, ValueView};
