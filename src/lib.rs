//! A small compiler from arithmetic and assignment statements to stack-machine
//! style x86-64 assembly text: a byte-level tokenizer, a precedence-climbing
//! parser that resolves single-letter variables to frame offsets, and a code
//! generator that keeps a strict push/pop discipline.

pub mod errors;
pub mod tokenizer;
pub mod parser;
pub mod codegen;
