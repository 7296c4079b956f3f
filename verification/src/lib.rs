use vstd::prelude::*;

pub mod analysis;
pub mod catalog;
pub mod detection;
pub mod editing;
pub mod installed;
pub mod lexer;
pub mod parser;
pub mod library;
pub mod licensing;
pub mod parse_error;
pub mod plugin;
pub mod reader;
pub mod runtime;
pub mod schema;
pub mod search;
pub mod session;
pub mod text;
pub mod transform;
