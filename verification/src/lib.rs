//! Typed markdown documents: parsing, checking against a schema, fixing,
//! formatting and querying.

pub mod ast;
pub mod building;
pub mod coerce;
pub mod columns;
pub mod correspondence;
pub mod covering;
pub mod dates;
pub mod diagnostic;
pub mod events;
pub mod findings;
pub mod fix;
pub mod format;
pub mod forms;
pub mod git;
pub mod globs;
pub mod html;
pub mod json;
pub mod json_value;
pub mod links;
pub mod lsp;
pub mod ordered;
pub mod paragraph;
pub mod parse;
pub mod path;
pub mod query;
pub mod reading;
pub mod resolve;
pub mod rule;
pub mod schema;
pub mod serialize;
pub mod spelling;
pub mod standing;
pub mod template;
pub mod text;
pub mod uri;
pub mod value;
pub mod walk;
pub mod writing;
pub mod yaml_text;
