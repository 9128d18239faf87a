//! A small compiler for a C-like language, from source text to x86-64
//! assembly text: lexing, parsing, lowering to a three-address IR,
//! instruction selection, frame-slot allocation, legalization and emission,
//! with a reference machine against which the back end is proved correct.

pub mod assembly;
pub mod ast;
pub mod emit;
pub mod lexer;
pub mod parser;
pub mod semantics;
pub mod tacky;
pub mod text;
