//! A structural formatter for TOML documents.
//!
//! The formatter works on a tree of tables, inline tables, arrays and scalar
//! values in which every key and value carries its decoration (the whitespace
//! and comments around it). It sorts keys and array elements by configured
//! priority, section by section, and normalises spacing and quoting.
//!
//! The tree is in `model`, the settings in `config`. The formatters are in
//! `value` (scalars, arrays, inline tables), `table` and `driver` (whole
//! documents, and what becomes of a file). Each formatter is proved to
//! compute a function on the views of the tree, and the laws of these
//! functions are proved in the modules whose names end in `_laws`: a
//! formatted tree is left as it is when it is formatted again, sorting stays
//! within sections, no entry is lost, and comments are kept wherever the
//! formatter does not replace a decoration.
//!
//! Reading a document into the tree and writing the tree out as text are left
//! to a parser, as is everything that touches files.

pub mod comment_laws;
pub mod config;
pub mod decor_laws;
pub mod driver;
pub mod model;
pub mod order;
pub mod scan;
pub mod table;
pub mod table_comment_laws;
pub mod table_laws;
pub mod text;
pub mod valid;
pub mod value;
pub mod value_laws;

pub use config::{Config, GenericConfig, ProcessedConfig, Ranks, CONFIG_FILE};
pub use driver::{
    exit_status, exit_status_of_run, finish, outcome, Failure, FileResult, Outcome,
};
pub use model::{
    Array, Decor, Document, InlineEntry, InlineTable, Item, Kind, Scalar, Table, TableEntry, Value,
};
pub use scan::{excluded_by, is_excluded, is_wanted, ScanError};
