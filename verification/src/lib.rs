//! An interactive query engine over a static word list: filter expressions
//! are parsed into commands, and a command selects, in order, the dictionary
//! words satisfying every one of its filters.
pub mod commands;
pub mod filters;
pub mod text;
