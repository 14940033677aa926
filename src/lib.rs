//! Financial operation records and their three on-disk encodings: a length-prefixed binary
//! layout, a CSV table and blocks of `KEY: value` lines. Each encoding has a reader and a
//! writer whose behaviour is stated over the records' mathematical values and proved.

pub mod bin_format;
pub mod chars;
pub mod collection;
pub mod csv_format;
pub mod error;
pub mod operation;
pub mod text_format;

pub use collection::OperationSet;
pub use error::ParseError;
pub use operation::{Operation, OperationStatus, OperationType};
