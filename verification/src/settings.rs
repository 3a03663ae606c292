//! The transport selection the surrounding process resolves from its
//! configuration: exactly one of TCP or a local streaming socket per
//! process instance.  Reading the configuration itself is the process's
//! business, not the library's.

use vstd::prelude::*;

verus! {

/// Which transport the listener binds.
#[derive(Debug, Clone, Copy, PartialEq, Eq, Hash, Structural)]
pub enum ConnectionMode {
    UnixSocket,
    Tcp,
}

} // verus!
