//! Core of an embeddable terminal engine: the side-channel OSC sniffer that
//! runs ahead of the VT parser, the incremental sparse snapshot engine, colour
//! resolution, and the decisions of the reader loop and the terminal handle.

use vstd::prelude::*;

pub mod bytes;
pub mod color;
pub mod grid_snapshot;
pub mod handle;
pub mod listener;
pub mod osc;
pub mod reader;

verus! {

/// The library version, packed as major * 10000 + minor * 100 + patch.
pub fn claide_terminal_version() -> (r: u32)
    ensures
        r == 100,
{
    0 * 10000 + 1 * 100 + 0
}

} // verus!
