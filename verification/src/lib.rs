pub mod display;
pub mod machine;
mod rng;

pub use display::Display;
pub use machine::{Chip8, Chip8Error};
