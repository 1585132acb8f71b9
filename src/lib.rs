//! A preprocessor for plain-text documents: `$NAME params { body }` declares a
//! template, `$NAME "arg" ... $` invokes it. Definitions are collected from
//! every document of a run, then every document is expanded against all of
//! them.
pub mod text;
pub mod grammar;
pub mod definition;
pub mod expand;
pub mod process;
pub mod laws;

pub use definition::{Definition, get_definitions};
pub use expand::{ExpandError, insert_definitions};
pub use process::{collect_definitions, process_documents};
