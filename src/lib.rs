//! Front end for 8085 assembly mnemonics: one line of text is lexed into
//! tokens, and the tokens are parsed into the tree of a single instruction.
pub mod lexer;
pub mod parser;
pub mod token;
