//! Why a trace line was not decoded.

use vstd::prelude::*;

verus! {

/// The reason for which a line is no frame. Each kind belongs to one field of
/// the line and carries the text that was refused: the token as the line
/// writes it, or the whole line where a token is missing.
#[derive(Debug, PartialEq)]
pub enum AscParseError {
    /// The timestamp token is no literal of a floating-point number.
    InvalidTimestamp { str: String },
    /// The bus id token is no decimal integer from 0 to 255.
    InvalidBusId { str: String },
    /// The frame id token, without its extended-id marker, is no base-16
    /// integer of 32 bits.
    InvalidFrameId { str: String },
    /// The length token is no decimal integer that a `usize` holds.
    InvalidLengthField { str: String },
    /// A payload token is no base-16 integer from 00 to FF.
    InvalidPayload { str: String },
    /// The line declares `exp` payload bytes and holds `act`.
    InvalidPayloadLength { exp: usize, act: usize },
    /// The line ends before the token of a field.
    InvalidFormat { str: String },
}

/// An [`AscParseError`] with its texts as sequences of characters.
pub enum ErrorView {
    InvalidTimestamp { str: Seq<char> },
    InvalidBusId { str: Seq<char> },
    InvalidFrameId { str: Seq<char> },
    InvalidLengthField { str: Seq<char> },
    InvalidPayload { str: Seq<char> },
    InvalidPayloadLength { exp: usize, act: usize },
    InvalidFormat { str: Seq<char> },
}

impl View for AscParseError {
    type V = ErrorView;

    open spec fn view(&self) -> ErrorView {
        match *self {
            AscParseError::InvalidTimestamp { str } => ErrorView::InvalidTimestamp { str: str@ },
            AscParseError::InvalidBusId { str } => ErrorView::InvalidBusId { str: str@ },
            AscParseError::InvalidFrameId { str } => ErrorView::InvalidFrameId { str: str@ },
            AscParseError::InvalidLengthField { str } => ErrorView::InvalidLengthField {
                str: str@,
            },
            AscParseError::InvalidPayload { str } => ErrorView::InvalidPayload { str: str@ },
            AscParseError::InvalidPayloadLength { exp, act } => ErrorView::InvalidPayloadLength {
                exp,
                act,
            },
            AscParseError::InvalidFormat { str } => ErrorView::InvalidFormat { str: str@ },
        }
    }
}

} // verus!
