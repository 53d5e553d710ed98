//! A debug bridge server: a single-connection, line-of-text message channel
//! between a host process and one remote peer.
//!
//! The bridge exchanges NUL-terminated UTF-8 text messages over a byte
//! transport.  A background worker owns the transport and re-listens after
//! every disconnect; the rest of the process talks to it through two FIFO
//! queues, one of commands going to the worker and one of events coming back.
//!
//! This crate holds the verified core: the wire framing, the worker's
//! state machine (one decision step per poll of the transport), and the
//! foreground handle's bookkeeping.  The transport itself, the worker thread
//! and the queues live outside the crate; they feed the functions here with
//! plain values and carry out the actions these functions return.

pub mod framing;
pub mod proto;
pub mod worker;
pub mod handle;
