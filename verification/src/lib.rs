//! Verified readers and writers for Source engine binary formats: checked
//! little-endian and bit-level buffers, RIFF/WAVE audio containers, and the
//! BSP map container with the lumps the engine reads out of it.
use vstd::prelude::*;

pub mod text;
pub mod binary;
pub mod audio;
pub mod bsp;
pub mod abi;

verus! {

} // verus!
