//! The exit protocol of the test harness: a test run reports its verdict
//! to the emulator through an exit code written to a debug port.  The port
//! write itself is hardware I/O and belongs to the surrounding system;
//! modelled here is the fixed verdict-to-code mapping.

use vstd::prelude::*;

verus! {

/// The verdict of a test run.
#[derive(Clone, Copy, Debug, PartialEq, Eq, Structural)]
pub enum QemuExitCode {
    Success,
    Failed,
}

impl QemuExitCode {
    /// The code written to the emulator's exit port for this verdict.
    pub open spec fn spec_code(self) -> u32 {
        match self {
            QemuExitCode::Success => 0x10,
            QemuExitCode::Failed => 0x11,
        }
    }

    /// The code written to the emulator's exit port for this verdict.
    pub fn code(self) -> (r: u32)
        ensures
            r == self.spec_code(),
    {
        match self {
            QemuExitCode::Success => 0x10,
            QemuExitCode::Failed => 0x11,
        }
    }
}

} // verus!
