//! A type checker for a small dependently typed language with a universe
//! hierarchy. Terms are kept in spine form with de Bruijn indexed locals.
//!
//! A program is a text of annotations `name : type` and definitions
//! `name x y = body`. [`ProgramParser`] turns the text into items,
//! and [`type_check_all`] checks the items in order against a table of
//! [`Globals`], which every item that passes joins.

pub mod ast;
pub mod check;
pub mod context;
pub mod decimal;
pub mod driver;
pub mod elaborate;
pub mod error;
pub mod eval;
pub mod globals;
pub mod indent_parser;
pub mod lexer;
pub mod line_parser;
pub mod outcome;
pub mod render;
pub mod subst;
pub mod term;
pub mod text;

pub use driver::type_check_all;
pub use globals::Globals;
pub use indent_parser::ProgramParser;
