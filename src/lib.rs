pub mod error;
pub mod infer;
pub mod laws;
pub mod schema;
pub mod table;
pub mod text;
