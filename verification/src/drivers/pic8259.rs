//! Interrupt vectors of the two chained 8259 interrupt controllers.
//!
//! Vectors 0 to 31 belong to CPU exceptions, so the primary controller is
//! remapped to start right behind them and the secondary one follows it.

use vstd::prelude::*;

verus! {

/// First vector of the primary controller.
pub const PRIMARY_PIC_OFFSET: u8 = 32;

/// First vector of the secondary controller.
pub const SECONDARY_PIC_OFFSET: u8 = PRIMARY_PIC_OFFSET + 8;

/// A hardware interrupt, named by the line it arrives on.
#[derive(Debug, Clone, Copy)]
pub enum InterruptIndex {
    /// The timer, on line 0 of the primary controller.
    Timer,
}

impl InterruptIndex {
    /// The interrupt vector of this interrupt.
    pub open spec fn vector(self) -> int {
        match self {
            InterruptIndex::Timer => PRIMARY_PIC_OFFSET as int,
        }
    }

    /// The interrupt vector as a byte.
    pub fn as_u8(self) -> (r: u8)
        ensures
            r == self.vector(),
            PRIMARY_PIC_OFFSET <= r < PRIMARY_PIC_OFFSET + 16,
    {
        match self {
            InterruptIndex::Timer => PRIMARY_PIC_OFFSET,
        }
    }

    /// The interrupt vector as an index into the interrupt descriptor table.
    pub fn as_usize(self) -> (r: usize)
        ensures
            r == self.vector(),
    {
        self.as_u8() as usize
    }
}

} // verus!
