//! Pipe-delimited text tables: parsing a table from text and formatting it
//! back with every column padded to the width of its widest cell.

pub mod alignment;
pub mod fragment;
pub mod model;
pub mod roundtrip;
pub mod table;
pub mod text;
pub mod tolerance;

pub use model::{TableError, TableView};
pub use table::Table;
