//! A small collection of verified programs: a CHIP-8 interpreter core, two JSON
//! front ends (a borrowing one and an owning one), a Markdown-to-HTML converter,
//! the request logic of a tiny RESP key-value server and the rules of a
//! number-guessing game.

pub mod chip8;
pub mod text;
pub mod json;
pub mod markdown;
pub mod kv;
pub mod guessing;
