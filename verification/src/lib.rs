//! In-place byte patching of executable images.
//!
//! The library locates a two-part machine-code idiom inside a raw byte
//! buffer — a start marker followed, within a bounded window, by an end
//! marker — and overwrites each matched end marker with a fixed
//! replacement sequence chosen per target binary. The scan is a single
//! linear pass; mutation never changes the buffer's length.

pub mod laws;
pub mod patterns;
pub mod scanner;

use vstd::prelude::*;

verus! {

} // verus!
