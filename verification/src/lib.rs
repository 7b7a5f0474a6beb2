//! A dice engine for D&D and any other systems that need dice.
#![allow(unused_imports)]

pub mod ast;
pub mod context;
pub mod dice;
pub mod errors;
pub mod eval;
pub mod expr;
pub mod formatters;
pub mod grammar;
pub mod kinds;
pub mod laws;
pub mod num;
pub mod ops;
pub mod parser;
pub mod random;
pub mod text;
pub mod utils;
pub mod visual;

pub use ast::HasChildren;
pub use context::ExpressionContext;
pub use dice::{parse, roll, roll_expr_with_default_rng, roll_with_comments, RollResult, Roller, RollerBuilder};
pub use errors::{Error, SyntaxError};
pub use formatters::{Formatter, MarkdownFormatter, SimpleFormatter};
pub use kinds::{Advantage, Crit};
