//! XY Build configuration: a verified model of the concrete syntax tree that
//! the XY Build grammar produces, the parser that turns that tree into
//! configuration entries, the typed option schema, and the editor-support
//! logic (validation diagnostics, hover and completion).

pub mod text;
pub mod syntax;
pub mod parser;
pub mod options;
pub mod schema;
pub mod editor;
pub mod agreement;
pub mod documents;
