//! Detection of fillable fields in PDF pages: the decision logic behind the
//! pipeline, with its contracts.

pub mod debug;
pub mod detection;
pub mod error;
pub mod labeler;
pub mod model;
pub mod output;
pub mod text;


pub use error::Error;
pub use output::FieldType;
