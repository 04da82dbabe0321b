//! A minimal in-memory key/value store with publish/subscribe, speaking a
//! line-delimited binary framing protocol.
//!
//! The library holds the verified core: the frame codec, the command parse
//! cursor, the shared-store state with its expiration index, and the
//! decision logic of the connection lifecycle. Network I/O and task
//! plumbing live outside the library.

use vstd::prelude::*;

pub mod bytes_util;
pub mod cmd;
pub mod codec_laws;
pub mod db;
pub mod encode;
pub mod frame;
pub mod num;
pub mod parse;
pub mod pubsub;
pub mod server;
pub mod shutdown;

verus! {

/// The port the server listens on when none is given.
pub const DEFAULT_PORT: u16 = 6379;

} // verus!
