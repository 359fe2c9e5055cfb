//! Settings of the receiving side.
use vstd::prelude::*;

verus! {

/// The port a receiver listens on when none is given.
pub const DEFAULT_PORT: u16 = 8086;

/// The fixed piece length a sender uses when none is given: one mebibyte.
pub const DEFAULT_PIECE_LENGTH: u64 = 1048576;

/// How to run the receiving side.
#[derive(Clone, Copy, Debug, PartialEq, Eq, Structural)]
pub struct ServerCommand {
    /// Port to listen on.
    pub port: u16,
}

impl ServerCommand {
    /// A receiver on the default port.
    pub fn new() -> (r: ServerCommand)
        ensures
            r.port == DEFAULT_PORT,
    {
        ServerCommand { port: DEFAULT_PORT }
    }
}

} // verus!
