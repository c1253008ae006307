//! An owned tree model for parsed markup: text, element and comment nodes,
//! attribute maps with id/class accessors, and an indented pretty-printer.

pub mod dom;
pub mod pretty;
