//! Shared constants of the daemon and its command-line client.

use vstd::prelude::*;

verus! {

/// The control surface's default HTTP port.
pub const DEFAULT_PORT: u16 = 17757;

} // verus!
