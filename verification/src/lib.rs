//! A minimal key-value store core spoken over a line-oriented binary wire
//! protocol: an incremental frame codec (check/parse split over a byte
//! buffer), command construction and reduction, and the FIFO mailbox model
//! of the single-connection multiplexer. All I/O lives outside this crate.

pub mod codec;
pub mod command;
pub mod connection;
pub mod digits;
pub mod frame;
pub mod mailbox;
pub mod store;
pub mod utf8;
