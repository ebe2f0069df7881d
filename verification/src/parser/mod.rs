//! The textual selector language: a parser from characters to selectors.

pub mod nesting;
pub mod predicate;
pub mod scan;
pub mod selector;
pub mod util;
