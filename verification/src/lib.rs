//! An index over arbitrary boolean expressions: given an event, find every
//! stored expression that the event satisfies.
//!
//! Expressions are stored in a DAG in which equal sub-expressions are shared.
//! A search evaluates the leaf predicates of the entry set first and walks the
//! DAG level by level, evaluating everything else lazily.
pub mod arena;
pub mod ast;
pub mod atree;
pub mod dag;
pub mod decimal;
pub mod error;
pub mod evaluation;
pub mod events;
pub mod lexer;
pub mod lists;
pub mod parser;
pub mod predicates;
pub mod strings;

pub use crate::atree::search::Report;
pub use crate::atree::ATree;
pub use crate::error::{ATreeError, ParserError};
pub use crate::events::{AttributeDefinition, Event, EventBuilder, EventError};
