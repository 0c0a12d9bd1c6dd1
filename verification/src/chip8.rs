//! The CHIP-8 interpreter: machine state, instruction semantics and the
//! helpers the front end needs to draw the screen and map keys, and (in
//! `laws`) properties that hold across instructions.

pub mod spec;
pub mod cpu;
pub mod screen;
pub mod laws;
pub mod semantics;
