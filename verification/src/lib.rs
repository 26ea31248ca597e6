//! Paginated record access, row counting and chunked sorting for delimited
//! text.
//!
//! The text of a file is handed in as bytes. `lines` counts its physical
//! lines, `reader` reads a window of records at any row offset, `paging` moves
//! such a window page by page, `sort` sorts the rows chunk by chunk, `find`
//! searches the lines for a pattern, and `viewer` keeps the state of a viewing
//! session. Rows are parsed and written by the `csv` crate, behind the
//! contracts of `csv_io`.

pub mod csv_io;
pub mod error;
pub mod find;
pub mod lines;
pub mod memory;
pub mod order;
pub mod paging;
pub mod reader;
pub mod record;
pub mod sort;
pub mod viewer;
