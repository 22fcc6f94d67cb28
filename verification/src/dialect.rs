//! The two shapes of a trace line and where each keeps its fields.

use crate::text::{tokens, Line};
use vstd::prelude::*;

verus! {

/// The shape of a line. A CAN-FD line names itself with the token `CANFD` and
/// holds more tokens between its fields than a classic line.
#[derive(Clone, Copy, Debug, PartialEq, Eq)]
pub enum Dialect {
    Classic,
    CanFd,
}

/// The positions of a line's fields, counted in tokens from 0. The timestamp
/// is token 0 in every dialect.
#[derive(Clone, Copy, Debug, PartialEq, Eq)]
pub struct Layout {
    /// The bus id.
    pub bus_id: usize,
    /// The frame id.
    pub id: usize,
    /// The declared payload length.
    pub length: usize,
    /// The first payload byte.
    pub payload: usize,
}

/// The token that marks a CAN-FD line.
pub open spec fn fd_marker() -> Seq<char> {
    seq!['C', 'A', 'N', 'F', 'D']
}

/// The dialect of a line with the tokens `tokens`: CAN-FD if one of them is
/// the marker, wherever it stands, and classic otherwise.
pub open spec fn dialect_of(tokens: Seq<Seq<char>>) -> Dialect {
    if tokens.contains(fd_marker()) {
        Dialect::CanFd
    } else {
        Dialect::Classic
    }
}

impl Dialect {
    /// Where the dialect keeps the fields. In a classic line the bus id and the
    /// frame id follow the timestamp, and two tokens (direction and kind)
    /// stand before the length. A CAN-FD line has the marker before the bus
    /// id, the direction before the frame id, and three tokens before the
    /// length.
    pub open spec fn layout(self) -> Layout {
        match self {
            Dialect::Classic => Layout { bus_id: 1, id: 2, length: 5, payload: 6 },
            Dialect::CanFd => Layout { bus_id: 2, id: 4, length: 8, payload: 9 },
        }
    }

    /// The positions of the fields in this dialect.
    pub fn offsets(self) -> (r: Layout)
        ensures
            r == self.layout(),
    {
        match self {
            Dialect::Classic => Layout { bus_id: 1, id: 2, length: 5, payload: 6 },
            Dialect::CanFd => Layout { bus_id: 2, id: 4, length: 8, payload: 9 },
        }
    }
}

/// Whether `token` is the CAN-FD marker.
pub fn is_fd_marker(token: &[char]) -> (r: bool)
    ensures
        r == (token@ == fd_marker()),
{
    let r = token.len() == 5 && token[0] == 'C' && token[1] == 'A' && token[2] == 'N' && token[3]
        == 'F' && token[4] == 'D';
    assert(r ==> token@ =~= fd_marker());
    r
}

/// The dialect of a line.
pub fn detect(line: &Line) -> (d: Dialect)
    ensures
        d == dialect_of(tokens(line@)),
{
    let n = line.len();
    let mut k: usize = 0;
    while k < n
        invariant
            k <= n,
            n == tokens(line@).len(),
            forall|j: int| 0 <= j < k ==> tokens(line@)[j] != fd_marker(),
        decreases n - k,
    {
        match line.token(k) {
            Some(token) => {
                if is_fd_marker(token) {
                    return Dialect::CanFd;
                }
            },
            None => {},
        }
        k += 1;
    }
    Dialect::Classic
}

} // verus!
