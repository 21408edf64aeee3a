//! Semantic-analysis core of an interactive code-intelligence tool.
//!
//! The crate answers "which identifiers are visible here" for a position
//! inside a function body, and keeps what is derived from a set of files
//! consistent while those files change.
//!
//! * [`syntax`]: an indexed syntax tree with parent links.
//! * [`visibility`]: what is visible at a node, by its place in the tree.
//! * [`scopes`]: the lexical scopes of one function body, and
//!   [`scope_proofs`]: that they make visible what is visible by the tree.
//! * [`completion`]: candidate identifiers for a cursor position.
//! * [`path`] and [`import`]: names, paths and the names that can be
//!   imported.
//! * [`input`] and [`db`]: the inputs that a host sets, and the database
//!   that holds them and what is derived from them.
//! * [`parser`] and [`grammar`]: a parser that records events, and the rules
//!   for items.

pub mod completion;
pub mod db;
pub mod grammar;
pub mod import;
pub mod input;
pub mod parser;
pub mod path;
pub mod scope_proofs;
pub mod scopes;
pub mod syntax;
pub mod visibility;
