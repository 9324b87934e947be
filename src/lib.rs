//! An interpreter for a small Logo dialect whose turtle draws a vector picture.
//!
//! Tokens come in as plain strings ([`unsee::Unsee`] lets the parser hand a
//! token back). [`parser`] turns them into statements one at a time, against
//! a live table of command arities; [`interpretator`] runs each statement on a
//! [`interpretator::Context`] that holds the variables, the procedures, that
//! table and the turtle of [`robot`]. Numbers are fixed-point decimals
//! ([`value`]); the finished picture is a list of paths and labels whose
//! positions refer to the turtle's trail of steps.

pub mod unsee;
pub mod value;
pub mod table;
pub mod parser;
pub mod robot;
mod chance;
pub mod interpretator;
