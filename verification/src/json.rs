//! JSON: a tokenizer, a recursive-descent parser and two printers (compact
//! and indented), in two flavours. The borrowing flavour (`lexer`, `parser`,
//! `value`) keeps string tokens as slices of the input and reads the input
//! byte by byte; the owning flavour (`owned`) copies strings and understands
//! backslash escapes. Both are specified against the same model in `spec`;
//! `roundtrip` and `pretty_read` prove that printed documents read back.

pub mod spec;
pub mod printing;
pub mod messages;
pub mod lexing;
pub mod numbers;
pub mod lexer;
pub mod parsing;
pub mod parser;
pub mod value;
pub mod owned;
pub mod roundtrip;
pub mod pretty_read;
pub mod layout;
pub mod escapes;
