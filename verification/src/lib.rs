//! A small S-expression reader: a lexer that classifies identifiers, numbers
//! and parentheses, and a recursive-descent builder that turns the token
//! stream into a nested tree.
//!
//! The silent builder (`tree`) never reports malformed input: a stray
//! character or an unbalanced parenthesis merely ends the group being built.
//! The strict builder (`strict`) accepts the same grammar but reports each
//! such case as a distinct error with its position. The `laws` module proves
//! what holds of the parser as a whole: the tree depends on the run of
//! lexical units alone, and on balanced input its leaves and nesting depth
//! match the units and the parenthesis nesting of the source.

pub mod lexer;
pub mod tree;
pub mod laws;
pub mod strict;
