use vstd::prelude::*;

pub mod input;
pub mod text;
pub mod history;
pub mod editor;
pub mod laws;
pub mod terminal;
pub mod cartridge;
pub mod console;
pub mod screen;
pub mod highlight;
pub mod watch;
pub mod files;
pub mod render;

verus! {
} // verus!
