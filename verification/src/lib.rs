//! A minimal flat-file tabular data store.
//!
//! The library covers a line-oriented serialization format with a
//! five-state parser, an in-memory table with schema and rows, a lazy
//! row iterator over a file's lines, a predicate/projection query
//! engine, and table rendering.  Every executable function carries a
//! verified contract; the parser does no I/O and is driven one line
//! at a time, so a file-backed caller can stream rows lazily.

pub mod cell;
pub mod codec;
pub mod error;
pub mod num;
pub mod parse;
pub mod query;
pub mod render;
pub mod stream;
pub mod table;

pub use cell::NumType;
pub use cell::TableCell;
pub use codec::rows_to_lines;
pub use codec::table_to_lines;
pub use error::TableLikeError;
pub use parse::ParseEvent;
pub use parse::ParseState;
pub use parse::TableParser;
pub use query::select;
pub use query::CellTest;
pub use query::Closure;
pub use query::CmpOp;
pub use query::Criteria;
pub use query::Pred;
pub use render::PrintOption;
pub use stream::Iter;
pub use table::ColumnEntry;
pub use table::Table;
pub use table::TableEntry;
pub use table::MAX_MEM_LIM;
