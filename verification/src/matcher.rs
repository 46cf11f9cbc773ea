//! Sound patterns over phonemes: their syntax, their parser, and the
//! backtracking engine that finds them in words.

pub mod ast;
pub mod engine;
pub mod parser;
