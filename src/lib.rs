//! Device link layer for a serial servo controller: the wire codec for
//! command and status frames, the connection state machine with the
//! background poller's step, the bounded event relay and the port filter.
pub mod codec;
pub mod link;
pub mod ports;
pub mod relay;
