//! Interrupt vector numbering.  The hardware side — building the
//! descriptor table, programming the interrupt controllers, and the
//! handlers themselves — belongs to the surrounding system; the handlers
//! only record raw data through [`crate::event`].  What is modelled here
//! is the fixed mapping of device lines to vector numbers.

use vstd::prelude::*;

verus! {

/// First vector number of the primary interrupt controller: the thirty-two
/// CPU exception vectors come before it.
pub const PIC_1_OFFSET: u8 = 32;

/// The device interrupts this system dispatches on.
#[derive(Clone, Copy, Debug, PartialEq, Eq, Structural)]
pub enum InterruptIndex {
    Timer,
    Keyboard,
}

impl InterruptIndex {
    /// The interrupt's vector number.
    pub open spec fn spec_as_u8(self) -> u8 {
        match self {
            InterruptIndex::Timer => PIC_1_OFFSET,
            InterruptIndex::Keyboard => (PIC_1_OFFSET + 1) as u8,
        }
    }

    /// The interrupt's vector number: the timer sits on the controller's
    /// first line, the keyboard on the next one.
    pub fn as_u8(self) -> (r: u8)
        ensures
            r == self.spec_as_u8(),
    {
        match self {
            InterruptIndex::Timer => PIC_1_OFFSET,
            InterruptIndex::Keyboard => PIC_1_OFFSET + 1,
        }
    }
}

} // verus!
