//! Verified byte-level logic of a serial-console multiplexer: the telnet and
//! pseudo-terminal codecs, and the decisions of the tasks that copy bytes
//! between one serial line and many clients.
pub mod buffer;
pub mod scan;
pub mod telnet;
pub mod pty;
pub mod mux;
pub mod line;
pub mod runs;
