//! Simulated conveyor-line transport control, the way a PLC would run it: a
//! bit-addressable digital I/O store with exclusive pin allocation, a
//! per-segment handoff state machine driven by sensor bits, a two-phase
//! push/accept protocol between neighbors, and a shift-register ledger that
//! is the single source of truth for where every workpiece ("detail")
//! currently is. Collision detection, rendering, and the inspector UI are
//! external collaborators: they talk to this crate through raw sensor
//! events, the I/O banks, and the ledger.

use vstd::prelude::*;

pub mod bits;
pub mod io;
pub mod line;
pub mod sensor;
pub mod shiftreg;
pub mod tbana;

verus! {

/// Stable identity of one transport segment: its index in the line's arena.
pub type SegmentId = usize;

} // verus!
