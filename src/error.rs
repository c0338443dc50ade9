use vstd::prelude::*;

verus! {

/// Why a table could not be made.
#[derive(Debug)]
pub enum IngestError {
    /// The file is missing or cannot be read.
    SourceNotFound,
    /// The declared schema is malformed, or no schema could be inferred.
    SchemaError,
    /// A data row holds `found` fields where the schema has `expected` columns.
    RowShapeError { row: usize, expected: usize, found: usize },
    /// A field cannot be read as the type of its column.
    FieldTypeError { row: usize, column: usize },
    /// A projected column name is not in the schema.
    ProjectionError { name: String },
}

} // verus!
