//! # libgtr
//!
//! Packet parsing and stream synchronization for the PhotonFirst GTR-1001 fiber
//! optic sensing system interrogator ("Gator"), and the receiving end of a
//! background reader.
//!
//! - [`packet`]: the packet format and its parser.
//! - [`sync`]: the decisions of the background reader, as a state machine that
//!   asks its driver for bytes and hands out packets.
//! - [`steps`]: what each step of the state machine does.
//! - [`stream`]: what the state machine delivers from whole byte streams.
//! - [`reader`]: the receiving end, which a program holds.
//! - [`signal`]: the signal by which the background thread is told to stop.
//! - [`error`]: the errors of the library.
//! - [`wire`]: big-endian integers in byte slices.
//! - [`text`]: decimal rendering for error messages.

pub mod error;
pub mod packet;
pub mod reader;
pub mod signal;
pub mod steps;
pub mod stream;
pub mod sync;
pub mod text;
pub mod wire;

pub use error::GtrError;
pub use packet::{GtrPacket, Header, Sensor, Status};
pub use reader::GtrSerialReader;
