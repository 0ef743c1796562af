// An assembler for a small mnemonic language that emits two-byte
// instructions for a CHIP-8-like machine: text is split into tokens, tokens
// are read into statements, and statements are encoded in one pass.
pub mod lexer;
pub mod parser;
pub mod interp;
pub mod compile;
