//! A verified core for a small script-runtime host: the HTTP request-head
//! parser, port validation for the connection acceptor, the native-operation
//! catalog with its argument validation, and the capability bridge's per-call
//! state machine.  The host-side plumbing (the script engine itself, file and
//! socket I/O, timers) lives outside this crate and hands plain values in.
pub mod bridge;
pub mod http;
pub mod ops;
pub mod port;
