//! The ways to turn a template and a variable store into output text.

pub mod interpreter;
pub mod string_replace;
pub mod string_replace_strategy;
