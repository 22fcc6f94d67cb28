//! A decoder for the lines of Vector ASC traces of a CAN bus.
//!
//! [`CanFrame::from_str`] decodes one line, classic CAN or CAN-FD, into a
//! frame or the reason for which the line holds none. [`AscParser`] goes
//! through the lines of a trace and yields the frames of those that decode.

pub mod dialect;
pub mod error;
pub mod frame;
pub mod number;
pub mod stream;
pub mod text;

pub use dialect::Dialect;
pub use error::AscParseError;
pub use frame::CanFrame;
pub use stream::{step, AscParser, Step};
