//! A recursive-descent parser for a small regular-expression grammar:
//! alphanumeric literals, `.`, groups, `|`, `*`, `+` and `{m,n}`.
//!
//! Every rule of the grammar has a mathematical model, and every executable
//! function is proved to compute exactly what its model says.

pub mod canonical;
pub mod error;
pub mod number;
pub mod parser;
pub mod pattern;
