//! The rule system: a small typed expression language over feature names,
//! builders that compile declarative settings into expressions, and a parser
//! for free-form rule strings.

pub mod compile;
pub mod expr;
pub mod new_rule;
pub mod parser;
