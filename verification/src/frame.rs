//! The frame that one trace line holds, and the decoding of a line.

use crate::dialect::{detect, dialect_of, fd_marker};
use crate::error::{AscParseError, ErrorView};
use crate::number::{accepts_float, is_float_literal, parse_unsigned, unsigned_value};
use crate::text::{tokens, Line};
use vstd::prelude::*;
use vstd::slice::slice_subrange;
use vstd::string::StringExecFns;

verus! {

/// One frame of a CAN bus trace.
#[derive(Debug, PartialEq)]
pub struct CanFrame {
    /// Seconds since the start of the trace, as the decimal literal that the
    /// line holds. It is the literal of a floating-point number.
    pub timestamp: String,
    /// The bus (channel) on which the frame was seen.
    pub bus_id: u8,
    /// The arbitration id, standard (11 bits) or extended (29 bits).
    pub id: u32,
    /// The number of payload bytes that the line declares.
    pub length: usize,
    /// The payload bytes, in order.
    pub payload: Vec<u8>,
}

/// A [`CanFrame`] as mathematical values.
pub struct FrameView {
    pub timestamp: Seq<char>,
    pub bus_id: u8,
    pub id: u32,
    pub length: usize,
    pub payload: Seq<u8>,
}

impl View for CanFrame {
    type V = FrameView;

    open spec fn view(&self) -> FrameView {
        FrameView {
            timestamp: self.timestamp@,
            bus_id: self.bus_id,
            id: self.id,
            length: self.length,
            payload: self.payload@,
        }
    }
}

impl FrameView {
    /// The frame holds as many payload bytes as it declares, and its timestamp
    /// is the literal of a floating-point number.
    pub open spec fn wf(self) -> bool {
        &&& self.payload.len() == self.length
        &&& is_float_literal(self.timestamp)
    }
}

impl CanFrame {
    /// The frame holds as many payload bytes as it declares, and its timestamp
    /// is the literal of a floating-point number. Every frame that the
    /// decoder gives is well-formed.
    pub open spec fn wf(&self) -> bool {
        self@.wf()
    }
}

/// The bus id that `token` writes: a decimal integer from 0 to 255.
pub open spec fn bus_id_value(token: Seq<char>) -> Option<nat> {
    unsigned_value(token, 10, 0xFF)
}

/// `token` without the marker of an extended id: one `x` at its end, if it
/// has one.
pub open spec fn without_marker(token: Seq<char>) -> Seq<char> {
    if token.len() > 0 && token.last() == 'x' {
        token.drop_last()
    } else {
        token
    }
}

/// The frame id that `token` writes: a base-16 integer of 32 bits, with or
/// without the marker of an extended id behind it.
pub open spec fn frame_id_value(token: Seq<char>) -> Option<nat> {
    unsigned_value(without_marker(token), 16, 0xFFFF_FFFF)
}

/// The payload length that `token` writes: a decimal integer that a `usize`
/// holds.
pub open spec fn length_value(token: Seq<char>) -> Option<nat> {
    unsigned_value(token, 10, usize::MAX as nat)
}

/// The payload byte that `token` writes: a base-16 integer from 00 to FF.
pub open spec fn byte_value(token: Seq<char>) -> Option<nat> {
    unsigned_value(token, 16, 0xFF)
}

/// The tokens that are read as payload: the `length` tokens from position
/// `first` on, or those that the line has, if it has fewer.
pub open spec fn payload_tokens(tokens: Seq<Seq<char>>, first: int, length: nat) -> Seq<Seq<char>> {
    if first + length <= tokens.len() {
        tokens.subrange(first, first + length)
    } else {
        tokens.subrange(first, tokens.len() as int)
    }
}

/// The bytes that the payload tokens `cells` write, or the first of them that
/// writes no byte.
pub open spec fn payload_bytes(cells: Seq<Seq<char>>) -> Result<Seq<u8>, Seq<char>>
    decreases cells.len(),
{
    if cells.len() == 0 {
        Ok(Seq::empty())
    } else {
        match payload_bytes(cells.drop_last()) {
            Err(token) => Err(token),
            Ok(bytes) => match byte_value(cells.last()) {
                None => Err(cells.last()),
                Some(b) => Ok(bytes.push(b as u8)),
            },
        }
    }
}

/// What a line with the text `line` and the tokens `tokens` decodes to: its
/// frame, or the reason for which it holds none.
///
/// The fields are read in the order timestamp, bus id, frame id, length,
/// payload, each from the token at the position that the line's dialect
/// gives it. The first field that fails decides the error: `InvalidFormat` if
/// the line ends before the field's token, else the error of that field. The
/// payload is read from as many tokens as the length declares, or from those
/// that are left; if they write fewer bytes than declared, the error is
/// `InvalidPayloadLength`.
pub open spec fn decode_tokens(tokens: Seq<Seq<char>>, line: Seq<char>) -> Result<
    FrameView,
    ErrorView,
> {
    let at = dialect_of(tokens).layout();
    let missing = Err::<FrameView, ErrorView>(ErrorView::InvalidFormat { str: line });
    if tokens.len() == 0 {
        missing
    } else if !is_float_literal(tokens[0]) {
        Err(ErrorView::InvalidTimestamp { str: tokens[0] })
    } else if tokens.len() <= at.bus_id {
        missing
    } else if bus_id_value(tokens[at.bus_id as int]) is None {
        Err(ErrorView::InvalidBusId { str: tokens[at.bus_id as int] })
    } else if tokens.len() <= at.id {
        missing
    } else if frame_id_value(tokens[at.id as int]) is None {
        Err(ErrorView::InvalidFrameId { str: tokens[at.id as int] })
    } else if tokens.len() <= at.length {
        missing
    } else if length_value(tokens[at.length as int]) is None {
        Err(ErrorView::InvalidLengthField { str: tokens[at.length as int] })
    } else {
        let length = length_value(tokens[at.length as int])->0;
        match payload_bytes(payload_tokens(tokens, at.payload as int, length)) {
            Err(token) => Err(ErrorView::InvalidPayload { str: token }),
            Ok(payload) => if payload.len() != length {
                Err(
                    ErrorView::InvalidPayloadLength {
                        exp: length as usize,
                        act: payload.len() as usize,
                    },
                )
            } else {
                Ok(
                    FrameView {
                        timestamp: tokens[0],
                        bus_id: bus_id_value(tokens[at.bus_id as int])->0 as u8,
                        id: frame_id_value(tokens[at.id as int])->0 as u32,
                        length: length as usize,
                        payload,
                    },
                )
            },
        }
    }
}

/// What a line decodes to: its frame, or the reason for which it holds none.
/// See [`decode_tokens`].
pub open spec fn decode(line: Seq<char>) -> Result<FrameView, ErrorView> {
    decode_tokens(tokens(line), line)
}

/// Whether `r` is what decoding `line` gives.
pub open spec fn decodes_to(line: Seq<char>, r: Result<CanFrame, AscParseError>) -> bool {
    match r {
        Ok(frame) => decode(line) == Ok::<FrameView, ErrorView>(frame@),
        Err(error) => decode(line) == Err::<FrameView, ErrorView>(error@),
    }
}

/// Payload tokens write bytes exactly if each of them writes one, and then one
/// byte for each token, in order. Otherwise the token that is given back is
/// the first that writes none.
pub proof fn lemma_payload_bytes(cells: Seq<Seq<char>>)
    ensures
        match payload_bytes(cells) {
            Ok(bytes) => {
                &&& bytes.len() == cells.len()
                &&& forall|k: int|
                    0 <= k < cells.len() ==> byte_value(#[trigger] cells[k]) == Some(
                        bytes[k] as nat,
                    )
            },
            Err(token) => exists|k: int|
                {
                    &&& 0 <= k < cells.len()
                    &&& #[trigger] cells[k] == token
                    &&& byte_value(token) is None
                    &&& forall|j: int| 0 <= j < k ==> byte_value(#[trigger] cells[j]) is Some
                },
        },
    decreases cells.len(),
{
    if cells.len() > 0 {
        let front = cells.drop_last();
        lemma_payload_bytes(front);
        match payload_bytes(front) {
            Err(token) => {
                let k = choose|k: int|
                    {
                        &&& 0 <= k < front.len()
                        &&& #[trigger] front[k] == token
                        &&& byte_value(token) is None
                        &&& forall|j: int| 0 <= j < k ==> byte_value(#[trigger] front[j]) is Some
                    };
                assert(cells[k] == token);
                assert forall|j: int| 0 <= j < k implies byte_value(#[trigger] cells[j]) is Some by {
                    assert(cells[j] == front[j]);
                }
            },
            Ok(bytes) => {
                assert forall|j: int| 0 <= j < front.len() implies byte_value(
                    #[trigger] cells[j],
                ) is Some by {
                    assert(cells[j] == front[j]);
                }
                match byte_value(cells.last()) {
                    None => {
                        assert(cells[cells.len() - 1] == cells.last());
                    },
                    Some(b) => {
                        let all = bytes.push(b as u8);
                        assert forall|k: int| 0 <= k < cells.len() implies byte_value(
                            #[trigger] cells[k],
                        ) == Some(all[k] as nat) by {
                            if k < front.len() {
                                assert(cells[k] == front[k]);
                            }
                        }
                    },
                }
            },
        }
    }
}

/// Once a payload token writes no byte, the error stays whatever follows.
proof fn lemma_payload_error_stays(cells: Seq<Seq<char>>, n: int)
    requires
        0 <= n <= cells.len(),
        payload_bytes(cells.take(n)) is Err,
    ensures
        payload_bytes(cells) == payload_bytes(cells.take(n)),
    decreases cells.len() - n,
{
    if n == cells.len() {
        assert(cells.take(n) == cells);
    } else {
        assert(cells.take(n + 1).drop_last() == cells.take(n));
        lemma_payload_error_stays(cells, n + 1);
    }
}

/// A frame that was decoded holds as many payload bytes as it declares, each
/// written by one token of the line, and its timestamp is the literal of a
/// floating-point number.
pub proof fn lemma_decoded_frame_wf(line: Seq<char>)
    ensures
        decode(line) matches Ok(frame) ==> {
            &&& frame.payload.len() == frame.length
            &&& frame.wf()
            &&& dialect_of(tokens(line)).layout().payload + frame.length <= tokens(line).len()
        },
{
    if decode(line) is Ok {
        let at = dialect_of(tokens(line)).layout();
        let length = length_value(tokens(line)[at.length as int])->0;
        lemma_payload_bytes(payload_tokens(tokens(line), at.payload as int, length));
    }
}

/// Decoding is a function of the line: two results of decoding the same line
/// are equal, frame for frame or error for error.
pub proof fn lemma_decoding_is_deterministic(
    line: Seq<char>,
    first: Result<CanFrame, AscParseError>,
    second: Result<CanFrame, AscParseError>,
)
    requires
        decodes_to(line, first),
        decodes_to(line, second),
    ensures
        match (first, second) {
            (Ok(a), Ok(b)) => a@ == b@,
            (Err(a), Err(b)) => a@ == b@,
            _ => false,
        },
{
}

/// The marker of an extended id does not change the id. A token with the
/// marker behind it writes the number that base 16 gives to what stands before
/// the marker; and a base-16 number writes the same id with the marker behind
/// it as without.
pub proof fn lemma_marker_keeps_frame_id(digits: Seq<char>)
    ensures
        frame_id_value(digits.push('x')) == unsigned_value(digits, 16, 0xFFFF_FFFF),
        unsigned_value(digits, 16, 0xFFFF_FFFF) is Some ==> frame_id_value(digits.push('x'))
            == frame_id_value(digits),
{
    let marked = digits.push('x');
    assert(marked.last() == 'x');
    assert(marked.drop_last() == digits);
    if unsigned_value(digits, 16, 0xFFFF_FFFF) is Some {
        let body = crate::number::without_plus(digits);
        assert(crate::number::is_digit(body.last(), 16));
        assert(body.last() == digits.last());
        assert(without_marker(digits) == digits);
    }
}

/// A line decodes to the same frame with the marker of an extended id behind
/// its frame id as without: where a line decodes and its frame id is a plain
/// base-16 number, the line that differs from it in that marker alone
/// decodes to the same frame.
pub proof fn lemma_marker_keeps_frame(tokens: Seq<Seq<char>>, line: Seq<char>, marked: Seq<char>)
    requires
        decode_tokens(tokens, line) is Ok,
        unsigned_value(tokens[dialect_of(tokens).layout().id as int], 16, 0xFFFF_FFFF) is Some,
    ensures
        decode_tokens(
            tokens.update(
                dialect_of(tokens).layout().id as int,
                tokens[dialect_of(tokens).layout().id as int].push('x'),
            ),
            marked,
        ) == decode_tokens(tokens, line),
{
    let at = dialect_of(tokens).layout();
    let k = at.id as int;
    let plain = tokens[k];
    let with_marker = tokens.update(k, plain.push('x'));
    lemma_marker_keeps_frame_id(plain);
    assert(plain != fd_marker()) by {
        if plain == fd_marker() {
            assert(crate::number::without_plus(plain) == plain);
            assert(!crate::number::is_digit(plain[2], 16));
        }
    }
    assert(plain.push('x') != fd_marker()) by {
        assert(plain.push('x').last() == 'x');
        assert(fd_marker().last() == 'D');
    }
    assert(with_marker.contains(fd_marker()) == tokens.contains(fd_marker())) by {
        if tokens.contains(fd_marker()) {
            let i = choose|i: int| 0 <= i < tokens.len() && tokens[i] == fd_marker();
            assert(with_marker[i] == fd_marker());
        }
        if with_marker.contains(fd_marker()) {
            let i = choose|i: int| 0 <= i < with_marker.len() && with_marker[i] == fd_marker();
            assert(tokens[i] == fd_marker());
        }
    }
    assert(dialect_of(with_marker) == dialect_of(tokens));
    let length = length_value(tokens[at.length as int])->0;
    assert(payload_tokens(with_marker, at.payload as int, length) == payload_tokens(
        tokens,
        at.payload as int,
        length,
    ));
}

/// The error of a line that ends before the token of a field.
fn missing_token(line: &Line) -> (error: AscParseError)
    ensures
        error@ == (ErrorView::InvalidFormat { str: line@ }),
{
    AscParseError::InvalidFormat { str: String::from_str(line.source()) }
}

/// Reads the frame id that `token` writes.
fn parse_frame_id(token: &[char]) -> (r: Option<u32>)
    ensures
        match frame_id_value(token@) {
            Some(v) => r == Some(v as u32),
            None => r is None,
        },
{
    let digits = if token.len() > 0 && token[token.len() - 1] == 'x' {
        slice_subrange(token, 0, token.len() - 1)
    } else {
        token
    };
    assert(digits@ == without_marker(token@));
    match parse_unsigned(digits, 16, 0xFFFF_FFFF) {
        Some(v) => Some(v as u32),
        None => None,
    }
}

/// Reads the `count` tokens from position `first` on as payload bytes. Where
/// one of them writes no byte, the result is that token, the first that does
/// not.
fn parse_payload(line: &Line, first: usize, count: usize) -> (r: Result<Vec<u8>, String>)
    requires
        first + count <= tokens(line@).len(),
    ensures
        match payload_bytes(tokens(line@).subrange(first as int, first + count)) {
            Ok(bytes) => r matches Ok(payload) && payload@ == bytes,
            Err(token) => r matches Err(text) && text@ == token,
        },
{
    let ghost cells = tokens(line@).subrange(first as int, first + count);
    let total = line.len();
    let mut payload: Vec<u8> = Vec::new();
    let mut n: usize = 0;
    while n < count
        invariant
            n <= count,
            first + count <= total == tokens(line@).len(),
            cells == tokens(line@).subrange(first as int, first + count),
            payload_bytes(cells.take(n as int)) == Ok::<Seq<u8>, Seq<char>>(payload@),
        decreases count - n,
    {
        let token = line.token(first + n).unwrap();
        assert(cells.take(n + 1).drop_last() == cells.take(n as int));
        assert(cells.take(n + 1).last() == token@);
        match parse_unsigned(token, 16, 0xFF) {
            None => {
                proof {
                    lemma_payload_error_stays(cells, n + 1);
                }
                return Err(line.text(first + n).unwrap());
            },
            Some(b) => {
                payload.push(b as u8);
            },
        }
        n += 1;
    }
    assert(cells.take(n as int) == cells);
    Ok(payload)
}

impl CanFrame {
    /// A frame without payload, of id 0 on bus 0 at time 0.
    fn new() -> (frame: CanFrame)
        ensures
            frame@ == (FrameView {
                timestamp: seq!['0', '.', '0'],
                bus_id: 0,
                id: 0,
                length: 0,
                payload: Seq::empty(),
            }),
            frame.wf(),
    {
        proof {
            reveal_strlit("0.0");
            reveal_with_fuel(crate::number::digits_end, 3);
        }
        let frame = CanFrame {
            timestamp: String::from_str("0.0"),
            bus_id: 0,
            id: 0,
            length: 0,
            payload: Vec::new(),
        };
        assert(frame.timestamp@ == seq!['0', '.', '0']);
        assert(crate::number::without_sign(frame.timestamp@) == frame.timestamp@);
        assert(crate::number::is_decimal(frame.timestamp@));
        frame
    }

    /// Decodes one line of a trace: gives its frame, or the reason for which
    /// it holds none, as [`decode`] says. The payload of a frame that is given
    /// has the length that the line declares.
    pub fn from_str(s: &str) -> (r: Result<CanFrame, AscParseError>)
        ensures
            decodes_to(s@, r),
            r matches Ok(frame) ==> frame.wf() && frame.payload.len() == frame.length,
    {
        let line = Line::new(s);
        let at = detect(&line).offsets();
        let mut frame = CanFrame::new();

        match line.token(0) {
            None => {
                return Err(missing_token(&line));
            },
            Some(token) => {
                if !accepts_float(token) {
                    return Err(AscParseError::InvalidTimestamp { str: line.text(0).unwrap() });
                }
                frame.timestamp = line.text(0).unwrap();
            },
        }

        match line.token(at.bus_id) {
            None => {
                return Err(missing_token(&line));
            },
            Some(token) => match parse_unsigned(token, 10, 0xFF) {
                None => {
                    return Err(AscParseError::InvalidBusId { str: line.text(at.bus_id).unwrap() });
                },
                Some(v) => {
                    frame.bus_id = v as u8;
                },
            },
        }

        match line.token(at.id) {
            None => {
                return Err(missing_token(&line));
            },
            Some(token) => match parse_frame_id(token) {
                None => {
                    return Err(AscParseError::InvalidFrameId { str: line.text(at.id).unwrap() });
                },
                Some(v) => {
                    frame.id = v;
                },
            },
        }

        match line.token(at.length) {
            None => {
                return Err(missing_token(&line));
            },
            Some(token) => match parse_unsigned(token, 10, usize::MAX as u64) {
                None => {
                    return Err(
                        AscParseError::InvalidLengthField { str: line.text(at.length).unwrap() },
                    );
                },
                Some(v) => {
                    frame.length = v as usize;
                },
            },
        }

        let left = line.len() - at.payload;
        let count = if frame.length <= left {
            frame.length
        } else {
            left
        };
        assert(tokens(s@).subrange(at.payload as int, at.payload + count) == payload_tokens(
            tokens(s@),
            at.payload as int,
            frame.length as nat,
        ));
        match parse_payload(&line, at.payload, count) {
            Err(text) => {
                return Err(AscParseError::InvalidPayload { str: text });
            },
            Ok(payload) => {
                frame.payload = payload;
            },
        }
        if frame.payload.len() != frame.length {
            return Err(
                AscParseError::InvalidPayloadLength { exp: frame.length, act: frame.payload.len() },
            );
        }
        Ok(frame)
    }
}

impl std::str::FromStr for CanFrame {
    type Err = AscParseError;

    /// Decodes one line of a trace, as [`CanFrame::from_str`] does: gives its
    /// frame, or the reason for which it holds none, as [`decode`] says.
    fn from_str(s: &str) -> (r: Result<Self, Self::Err>)
        ensures
            decodes_to(s@, r),
            r matches Ok(frame) ==> frame.wf() && frame.payload.len() == frame.length,
    {
        CanFrame::from_str(s)
    }
}

} // verus!
