//! Composed-input buffer of a Japanese input method.
//!
//! The buffer holds the preedit as an ordered sequence of units, each pairing
//! the kana shown to the user with the raw keystrokes that produced it, plus a
//! cursor counted in kana characters.
use vstd::prelude::*;

pub mod model;
pub mod input_buffer;
pub mod laws;

pub use input_buffer::InputBuffer;

verus! {

} // verus!
