//! Boolean expressions: their text split into tokens, the tokens read as a
//! tree by operator precedence, the tree evaluated, printed and walked, and
//! its truth table.

pub mod alphabet;
pub mod expression;
pub mod grammar;
pub mod grouping;
pub mod names;
pub mod parser;
pub mod printing;
pub mod table;
pub mod tokens;
