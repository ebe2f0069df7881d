//! Selecting USB devices out of a device tree with CSS-like selectors.

pub mod frontier;
pub mod node;
pub mod parser;
pub mod predicate;
pub mod selector;
pub mod semantics;
pub mod text;
pub mod topology;

pub use node::{Node, NodeType, PortNumber};
pub use predicate::Predicate;
pub use selector::{Combinator, Expression, Selector};
