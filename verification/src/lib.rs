//! A small rendering front end: a markup parser, a stylesheet parser, a
//! style resolver and a layout-tree builder, each a pure function from
//! immutable input to a freshly built output tree.

pub mod dom;
pub mod laws;
pub mod layout;
pub mod parser;
pub mod styler;
pub mod strutil;
