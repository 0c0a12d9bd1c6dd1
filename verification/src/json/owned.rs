//! The owning flavour: tokens and values hold their own strings, and string
//! tokens understand backslash escapes.

pub mod value;
pub mod lexer;
pub mod parser;
