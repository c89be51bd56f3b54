//! Multi-file front end of a shading-language compiler: a registry of source
//! files with line tables, an import-graph resolver, and the sequencing of the
//! parse, index and lower stages over the resolved units.

pub mod ast;
pub mod error;
pub mod frontend;
pub mod index;
pub mod laws;
pub mod lower;
pub mod parse;
pub mod path;
pub mod registry;
pub mod resolve;
pub mod source;
pub mod span;

pub use error::{Error, ParseError};
pub use frontend::{parse_module, parse_modules, parse_str, Frontend};
pub use registry::SourceRegistry;
pub use source::File;
pub use span::{FileId, Span};
