//! Rule composition and matching over syntax trees: boolean combinators
//! over structural patterns, searched over a tree depth first or level by level.

pub mod tree;
pub mod parse;
pub mod meta_var;
pub mod pattern;
pub mod rule;
pub mod laws;
