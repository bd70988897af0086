//! A native debugger engine: breakpoint placement and restoration over a
//! traced process, source-level stepping, and debug-information resolution.

use vstd::prelude::*;

pub mod debug_info;
pub mod debugger;
pub mod error;
pub mod process;

verus! {

/// The first machine byte of a trap instruction, written over the original
/// code byte when a breakpoint is installed.
pub const TRAP_BYTE: u8 = 0xCC;

} // verus!
