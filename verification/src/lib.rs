//! A small toolchain for a tape-based esoteric language: a lexer that turns
//! bytes into position-tagged symbol tokens, a parser that builds a flat
//! instruction sequence with run-length compression and backpatched loop
//! targets, and an interpreter that executes the instructions over a
//! fixed-size byte tape.
#![verifier::loop_isolation(false)]

pub mod data;
pub mod interpreter;
pub mod lexer;
pub mod parser;
