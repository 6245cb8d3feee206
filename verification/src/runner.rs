//! Running the system tools that the probes use.

use vstd::prelude::*;

verus! {

/// The runner that executes the real system commands (`dig`, `curl`,
/// `ping`, ...), as opposed to one that hands back canned output.
pub struct RealRunner;

} // verus!
