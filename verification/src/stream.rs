//! The frames of a whole trace: a stream over its lines that yields the frame
//! of each line that decodes and passes over the others.

use crate::frame::{decode, CanFrame, FrameView};
use vstd::prelude::*;

verus! {

/// The test that a stream puts to a line: whether it decodes.
pub open spec fn accepts() -> spec_fn(Seq<char>) -> bool {
    |line: Seq<char>| decode(line) is Ok
}

/// The lines that decode, in the order in which they stand in `lines`.
pub open spec fn accepted(lines: Seq<Seq<char>>) -> Seq<Seq<char>> {
    lines.filter(accepts())
}

/// The frames of a trace with the lines `lines`: the frame of each line that
/// decodes, in the order of the lines.
pub open spec fn frames_of(lines: Seq<Seq<char>>) -> Seq<FrameView> {
    accepted(lines).map_values(|line: Seq<char>| decode(line)->Ok_0)
}

/// The number of lines at the front of `lines` that do not decode.
pub open spec fn rejected_prefix(lines: Seq<Seq<char>>) -> int
    decreases lines.len(),
{
    if lines.len() == 0 || decode(lines[0]) is Ok {
        0
    } else {
        1 + rejected_prefix(lines.skip(1))
    }
}

/// The number of lines that a stream over `lines` reads for its next frame:
/// those that do not decode and the first that does, or all of them where
/// none decodes.
pub open spec fn read_for_next(lines: Seq<Seq<char>>) -> int {
    if rejected_prefix(lines) < lines.len() {
        rejected_prefix(lines) + 1
    } else {
        lines.len() as int
    }
}

/// The positions in `s` of the items that pass the test `keep`, in rising
/// order.
pub open spec fn positions<A>(s: Seq<A>, keep: spec_fn(A) -> bool) -> Seq<int>
    decreases s.len(),
{
    if s.len() == 0 {
        Seq::empty()
    } else if keep(s.last()) {
        positions(s.drop_last(), keep).push(s.len() - 1)
    } else {
        positions(s.drop_last(), keep)
    }
}

/// The positions in `lines` of the lines that decode, in rising order.
pub open spec fn accepted_positions(lines: Seq<Seq<char>>) -> Seq<int> {
    positions(lines, accepts())
}

/// The texts of `lines`.
pub open spec fn texts(lines: Seq<String>) -> Seq<Seq<char>> {
    lines.map_values(|line: String| line@)
}

/// The frames `frames` as mathematical values.
pub open spec fn views(frames: Seq<CanFrame>) -> Seq<FrameView> {
    frames.map_values(|frame: CanFrame| frame@)
}

/// The frames of a trace are the frame of its first line, if that decodes,
/// and then the frames of the rest.
pub proof fn lemma_frames_of_front(lines: Seq<Seq<char>>)
    requires
        lines.len() > 0,
    ensures
        frames_of(lines) == match decode(lines[0]) {
            Ok(frame) => seq![frame] + frames_of(lines.skip(1)),
            Err(_) => frames_of(lines.skip(1)),
        },
{
    let accepts = accepts();
    let frame_of = |line: Seq<char>| decode(line)->Ok_0;
    let head = seq![lines[0]];
    let rest = lines.skip(1);
    assert(lines == head + rest);
    Seq::filter_distributes_over_add(head, rest, accepts);
    assert(head.filter(accepts) == if accepts(lines[0]) {
        head
    } else {
        Seq::empty()
    }) by {
        reveal_with_fuel(Seq::filter, 2);
        assert(head.drop_last() == Seq::<Seq<char>>::empty());
    }
    assert((head + accepted(rest)).map_values(frame_of) == head.map_values(frame_of) + accepted(
        rest,
    ).map_values(frame_of));
    assert(head.map_values(frame_of) == seq![frame_of(lines[0])]);
    assert(Seq::<Seq<char>>::empty() + accepted(rest) == accepted(rest));
}

/// Up to the first line that decodes the stream yields nothing; that line
/// gives the first frame, and the lines behind it give the others.
pub proof fn lemma_first_frame(lines: Seq<Seq<char>>)
    ensures
        0 <= rejected_prefix(lines) <= lines.len(),
        forall|i: int| 0 <= i < rejected_prefix(lines) ==> decode(#[trigger] lines[i]) is Err,
        rejected_prefix(lines) == lines.len() ==> frames_of(lines).len() == 0,
        rejected_prefix(lines) < lines.len() ==> {
            &&& frames_of(lines).len() > 0
            &&& decode(lines[rejected_prefix(lines)]) == Ok::<FrameView, crate::error::ErrorView>(
                frames_of(lines)[0],
            )
            &&& frames_of(lines.skip(rejected_prefix(lines) + 1)) == frames_of(lines).skip(1)
        },
    decreases lines.len(),
{
    if lines.len() == 0 {
        assert(accepted(lines).len() == 0);
    } else {
        lemma_frames_of_front(lines);
        if decode(lines[0]) is Ok {
            assert((seq![decode(lines[0])->Ok_0] + frames_of(lines.skip(1))).skip(1) == frames_of(
                lines.skip(1),
            ));
        } else {
            let rest = lines.skip(1);
            lemma_first_frame(rest);
            let n = rejected_prefix(rest);
            assert forall|i: int| 0 <= i < rejected_prefix(lines) implies decode(
                #[trigger] lines[i],
            ) is Err by {
                if i > 0 {
                    assert(lines[i] == rest[i - 1]);
                }
            }
            if n < rest.len() {
                assert(lines[n + 1] == rest[n]);
                assert(lines.skip(n + 2) == rest.skip(n + 1));
            }
        }
    }
}

/// The items that a filter keeps are those at the positions that pass its
/// test: the positions rise, lie inside the sequence and leave out no item
/// that passes.
proof fn lemma_filter_positions<A>(s: Seq<A>, keep: spec_fn(A) -> bool)
    ensures
        positions(s, keep).len() == s.filter(keep).len(),
        forall|k: int|
            0 <= k < s.filter(keep).len() ==> {
                &&& 0 <= (#[trigger] positions(s, keep)[k]) < s.len()
                &&& keep(s[positions(s, keep)[k]])
                &&& s[positions(s, keep)[k]] == s.filter(keep)[k]
            },
        forall|j: int, k: int|
            0 <= j < k < s.filter(keep).len() ==> positions(s, keep)[j] < positions(s, keep)[k],
        forall|i: int| 0 <= i < s.len() && keep(#[trigger] s[i]) ==> positions(s, keep).contains(i),
    decreases s.len(),
{
    reveal(Seq::filter);
    if s.len() > 0 {
        let front = s.drop_last();
        lemma_filter_positions(front, keep);
        let at = positions(s, keep);
        let before = positions(front, keep);
        assert forall|i: int| 0 <= i < s.len() && keep(#[trigger] s[i]) implies at.contains(i) by {
            if i < front.len() {
                assert(front[i] == s[i]);
                let k = choose|k: int| 0 <= k < before.len() && before[k] == i;
                assert(at[k] == i);
            } else {
                assert(at[at.len() - 1] == i);
            }
        }
    }
}

/// The lines at the front that do not decode end at the first that does, or
/// at the end of the lines.
proof fn lemma_rejected_prefix_is(lines: Seq<Seq<char>>, n: int)
    requires
        0 <= n <= lines.len(),
        forall|i: int| 0 <= i < n ==> decode(#[trigger] lines[i]) is Err,
        n < lines.len() ==> decode(lines[n]) is Ok,
    ensures
        rejected_prefix(lines) == n,
    decreases n,
{
    if n > 0 {
        let rest = lines.skip(1);
        assert forall|i: int| 0 <= i < n - 1 implies decode(#[trigger] rest[i]) is Err by {
            assert(rest[i] == lines[i + 1]);
        }
        assert(lines[0] == lines[0]);
        lemma_rejected_prefix_is(rest, n - 1);
    }
}

/// A stream yields no more frames than its source has lines.
pub proof fn lemma_stream_is_bounded(lines: Seq<Seq<char>>)
    ensures
        frames_of(lines).len() <= lines.len(),
{
    Seq::lemma_filter_len(lines, accepts());
}

/// A stream yields exactly the lines that decode, in their order: its frames
/// are those of the lines at the accepted positions, which rise, lie inside
/// the source and leave out no line that decodes.
pub proof fn lemma_stream_is_selection(lines: Seq<Seq<char>>)
    ensures
        accepted_positions(lines).len() == frames_of(lines).len(),
        forall|k: int|
            0 <= k < frames_of(lines).len() ==> {
                &&& 0 <= (#[trigger] accepted_positions(lines)[k]) < lines.len()
                &&& decode(lines[accepted_positions(lines)[k]]) == Ok::<
                    FrameView,
                    crate::error::ErrorView,
                >(frames_of(lines)[k])
            },
        forall|j: int, k: int|
            0 <= j < k < frames_of(lines).len() ==> accepted_positions(lines)[j]
                < accepted_positions(lines)[k],
        forall|i: int|
            0 <= i < lines.len() && decode(#[trigger] lines[i]) is Ok ==> accepted_positions(
                lines,
            ).contains(i),
{
    lemma_filter_positions(lines, accepts());
    assert forall|i: int|
        0 <= i < lines.len() && decode(#[trigger] lines[i]) is Ok implies accepted_positions(
        lines,
    ).contains(i) by {
        assert(accepts()(lines[i]));
    }
}

/// What a stream does with the next thing that its source hands over.
#[derive(Debug, PartialEq)]
pub enum Step {
    /// The line decodes: the stream yields its frame.
    Yield(CanFrame),
    /// The line does not decode: the stream passes over it and takes the
    /// next.
    Skip,
    /// The source has no more lines: the stream ends.
    End,
}

/// Decides what a stream does with `event`: the next line of its source, or
/// `None` where the source is at its end. A caller that reads its lines one
/// at a time calls this for each and yields, goes on or stops as it says.
pub fn step(event: Option<&str>) -> (action: Step)
    ensures
        match event {
            None => action is End,
            Some(line) => match decode(line@) {
                Ok(frame) => action matches Step::Yield(yielded) && yielded@ == frame
                    && yielded.wf(),
                Err(_) => action is Skip,
            },
        },
{
    match event {
        None => Step::End,
        Some(line) => match CanFrame::from_str(line) {
            Ok(frame) => Step::Yield(frame),
            Err(_) => Step::Skip,
        },
    }
}

/// Looks for the first of `lines` at or after position `from` that decodes.
/// Gives its frame, if there is one, and the position up to which it has
/// read.
fn first_frame(lines: &Vec<String>, from: usize) -> (r: (Option<CanFrame>, usize))
    requires
        from <= lines.len(),
    ensures
        from <= r.1 <= lines.len(),
        r.1 - from == read_for_next(texts(lines@).skip(from as int)),
        match r.0 {
            Some(frame) => {
                &&& rejected_prefix(texts(lines@).skip(from as int)) == r.1 - from - 1
                &&& decode(lines[r.1 - 1]@) == Ok::<FrameView, crate::error::ErrorView>(frame@)
                &&& frame.wf()
            },
            None => rejected_prefix(texts(lines@).skip(from as int)) == lines.len() - from,
        },
{
    let ghost source = texts(lines@).skip(from as int);
    let mut position: usize = from;
    while position < lines.len()
        invariant
            from <= position <= lines.len(),
            source == texts(lines@).skip(from as int),
            forall|i: int| 0 <= i < position - from ==> decode(#[trigger] source[i]) is Err,
        decreases lines.len() - position,
    {
        let action = step(Some(lines[position].as_str()));
        assert(source[position - from] == lines[position as int]@);
        position = position + 1;
        match action {
            Step::Yield(frame) => {
                proof {
                    lemma_rejected_prefix_is(source, position - from - 1);
                }
                return (Some(frame), position);
            },
            _ => {},
        }
    }
    proof {
        lemma_rejected_prefix_is(source, source.len() as int);
    }
    (None, position)
}

/// A stream of frames over the lines of a trace. It goes through the lines
/// once, from the first to the last, and decodes a line only when it is asked
/// for the next frame.
pub struct AscParser {
    lines: Vec<String>,
    position: usize,
}

impl AscParser {
    #[verifier::type_invariant]
    spec fn inv(&self) -> bool {
        self.position <= self.lines.len()
    }

    /// The lines that the stream has not read yet.
    pub closed spec fn remaining(&self) -> Seq<Seq<char>> {
        texts(self.lines@).skip(self.position as int)
    }

    /// A stream over `lines`, at their start.
    pub fn new(lines: Vec<String>) -> (parser: AscParser)
        ensures
            parser.remaining() == texts(lines@),
    {
        let parser = AscParser { lines, position: 0 };
        assert(texts(lines@).skip(0) == texts(lines@));
        parser
    }

    /// The next frame of the trace: that of the first line not yet read that
    /// decodes. The stream reads up to that line and no further. Where no
    /// line is left that decodes, it reads to the end and yields `None`, now
    /// and ever after.
    pub fn next(&mut self) -> (r: Option<CanFrame>)
        ensures
            final(self).remaining() == old(self).remaining().skip(
                read_for_next(old(self).remaining()),
            ),
            match r {
                Some(frame) => {
                    &&& frames_of(old(self).remaining()).len() > 0
                    &&& frame@ == frames_of(old(self).remaining())[0]
                    &&& frame.wf()
                    &&& frames_of(final(self).remaining()) == frames_of(
                        old(self).remaining(),
                    ).skip(1)
                },
                None => {
                    &&& frames_of(old(self).remaining()).len() == 0
                    &&& final(self).remaining().len() == 0
                },
            },
    {
        proof {
            use_type_invariant(&*self);
            lemma_first_frame(self.remaining());
        }
        let ghost source = self.remaining();
        let (r, read) = first_frame(&self.lines, self.position);
        assert(source.skip(read - self.position) == texts(self.lines@).skip(read as int));
        self.position = read;
        r
    }

    /// The frames that are left in the trace, in order: one for each line
    /// that decodes, and so no more than there are lines. The stream is read
    /// to its end.
    pub fn collect(self) -> (frames: Vec<CanFrame>)
        ensures
            views(frames@) == frames_of(self.remaining()),
            frames.len() <= self.remaining().len(),
    {
        proof {
            lemma_stream_is_bounded(self.remaining());
        }
        let mut parser = self;
        let mut frames: Vec<CanFrame> = Vec::new();
        loop
            invariant
                views(frames@) + frames_of(parser.remaining()) == frames_of(self.remaining()),
            ensures
                views(frames@) == frames_of(self.remaining()),
            decreases parser.remaining().len(),
        {
            let ghost before = parser.remaining();
            let ghost so_far = views(frames@);
            proof {
                lemma_first_frame(before);
            }
            match parser.next() {
                Some(frame) => {
                    frames.push(frame);
                    assert(views(frames@) == so_far.push(frame@));
                    assert(so_far.push(frame@) + frames_of(before).skip(1) == so_far + frames_of(
                        before,
                    ));
                },
                None => {
                    assert(so_far + frames_of(before) == so_far);
                    break ;
                },
            }
        }
        frames
    }
}

} // verus!
