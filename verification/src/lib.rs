//! A real-time message relay: client sessions subscribe to named rooms,
//! publish opaque payloads into them, and receive everything that the
//! distributed bus delivers for the rooms they hold.
//!
//! The crate verifies the decision core of the relay: the wire protocol
//! (parsing of client requests and framing of server messages), the
//! process-wide room registry with its create-on-first-subscribe /
//! destroy-on-last-release lifecycle, and the per-connection session state
//! machine that drives subscriptions, publication and teardown. The I/O
//! shell (sockets, the bus connection, task spawning) lives outside and
//! only carries out the actions this crate decides on.

pub mod bridge;
pub mod codec;
pub mod protocol;
pub mod registry;
pub mod relay;
pub mod session;
pub mod ticker;
