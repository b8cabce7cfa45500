//! Runner identity and captured output for driving the engine's command
//! surface as an external process.
//!
//! Spawning the process is I/O and lives outside the library; these types
//! carry the binary location in and the captured streams back.

use vstd::prelude::*;

verus! {

/// Identifies the engine binary to invoke.
pub struct CliRunner {
    pub bin: String,
}

/// Result of one invocation: captured stdout, stderr, and the exit code.
pub struct CliOutput {
    pub stdout: String,
    pub stderr: String,
    pub exit_code: i32,
}

impl CliRunner {
    /// Creates a runner from an explicit binary path.
    pub fn new(bin: String) -> (r: Self)
        ensures
            r.bin == bin,
    {
        CliRunner { bin }
    }
}

} // verus!
