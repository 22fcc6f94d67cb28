//! Splitting a trace line into whitespace-delimited tokens.

use vstd::prelude::*;
use vstd::std_specs::iter::IteratorSpec;
use vstd::string::{StrSliceExecFns, StringExecFns};

verus! {

/// The characters that separate tokens: those that Unicode lists as
/// `White_Space`. Tab and space are not told apart, nor any other two of them.
pub open spec fn is_whitespace(c: char) -> bool {
    let u = c as u32;
    ||| 0x09 <= u <= 0x0D
    ||| u == 0x20
    ||| u == 0x85
    ||| u == 0xA0
    ||| u == 0x1680
    ||| 0x2000 <= u <= 0x200A
    ||| u == 0x2028
    ||| u == 0x2029
    ||| u == 0x202F
    ||| u == 0x205F
    ||| u == 0x3000
}

/// The end of the run that starts at `from` and in which every character is
/// whitespace (`ws`) or none is (`!ws`): the first index at or after `from`
/// that breaks the run, or the length of `s`.
pub open spec fn run_end(s: Seq<char>, from: int, ws: bool) -> int
    decreases s.len() - from,
{
    if 0 <= from < s.len() && is_whitespace(s[from]) == ws {
        run_end(s, from + 1, ws)
    } else {
        from
    }
}

/// The tokens of `s` that start at or after `from`: the maximal runs of
/// characters that are not whitespace, in the order in which they stand.
pub open spec fn tokens_from(s: Seq<char>, from: int) -> Seq<Seq<char>>
    decreases s.len() - from,
{
    let start = run_end(s, from, true);
    let end = run_end(s, start, false);
    if from <= start < end <= s.len() {
        seq![s.subrange(start, end)] + tokens_from(s, end)
    } else {
        Seq::empty()
    }
}

/// The tokens of a line.
pub open spec fn tokens(s: Seq<char>) -> Seq<Seq<char>> {
    tokens_from(s, 0)
}

/// Where a token stands in its line: the half-open range of character
/// positions `start..end`.
struct Span {
    start: usize,
    end: usize,
}

/// The spans cover exactly the tokens of `s`, one each and in order.
spec fn spans_cover(spans: Seq<Span>, s: Seq<char>) -> bool {
    &&& spans.len() == tokens(s).len()
    &&& forall|k: int|
        0 <= k < spans.len() ==> (#[trigger] spans[k]).start <= spans[k].end <= s.len()
            && s.subrange(spans[k].start as int, spans[k].end as int) == tokens(s)[k]
}

/// A run ends at or after its start and inside the text; up to its end the
/// run holds, and at its end it is broken.
proof fn lemma_run_end(s: Seq<char>, from: int, ws: bool)
    requires
        0 <= from <= s.len(),
    ensures
        from <= run_end(s, from, ws) <= s.len(),
        forall|i: int| from <= i < run_end(s, from, ws) ==> is_whitespace(#[trigger] s[i]) == ws,
        run_end(s, from, ws) < s.len() ==> is_whitespace(s[run_end(s, from, ws)]) != ws,
    decreases s.len() - from,
{
    if from < s.len() && is_whitespace(s[from]) == ws {
        lemma_run_end(s, from + 1, ws);
    }
}

/// Every token that starts at or after `from` is a run of at least one
/// character, none of them whitespace.
proof fn lemma_tokens_from_are_words(s: Seq<char>, from: int)
    requires
        0 <= from <= s.len(),
    ensures
        forall|k: int|
            0 <= k < tokens_from(s, from).len() ==> (#[trigger] tokens_from(s, from)[k]).len() > 0
                && forall|i: int|
                0 <= i < tokens_from(s, from)[k].len() ==> !is_whitespace(
                    #[trigger] tokens_from(s, from)[k][i],
                ),
    decreases s.len() - from,
{
    let start = run_end(s, from, true);
    let end = run_end(s, start, false);
    lemma_run_end(s, from, true);
    lemma_run_end(s, start, false);
    if from <= start < end {
        lemma_tokens_from_are_words(s, end);
        let head = s.subrange(start, end);
        let rest = tokens_from(s, end);
        assert forall|k: int| 0 <= k < tokens_from(s, from).len() implies (#[trigger] tokens_from(
            s,
            from,
        )[k]).len() > 0 && forall|i: int|
            0 <= i < tokens_from(s, from)[k].len() ==> !is_whitespace(
                #[trigger] tokens_from(s, from)[k][i],
            ) by {
            if k == 0 {
                assert(tokens_from(s, from)[0] == head);
                assert forall|i: int| 0 <= i < head.len() implies !is_whitespace(
                    #[trigger] head[i],
                ) by {
                    assert(head[i] == s[start + i]);
                }
            } else {
                assert(tokens_from(s, from)[k] == rest[k - 1]);
            }
        }
    }
}

/// Every token of a line is a run of at least one character, none of them
/// whitespace.
pub proof fn lemma_tokens_are_words(s: Seq<char>)
    ensures
        forall|k: int|
            0 <= k < tokens(s).len() ==> (#[trigger] tokens(s)[k]).len() > 0 && forall|i: int|
                0 <= i < tokens(s)[k].len() ==> !is_whitespace(#[trigger] tokens(s)[k][i]),
{
    lemma_tokens_from_are_words(s, 0);
}

/// Whether `c` separates tokens.
pub fn is_whitespace_char(c: char) -> (r: bool)
    ensures
        r == is_whitespace(c),
{
    let u: u32 = c as u32;
    (0x09 <= u && u <= 0x0D) || u == 0x20 || u == 0x85 || u == 0xA0 || u == 0x1680 || (0x2000 <= u
        && u <= 0x200A) || u == 0x2028 || u == 0x2029 || u == 0x202F || u == 0x205F || u == 0x3000
}

/// The characters of `s`, in order.
pub fn chars_of(s: &str) -> (chars: Vec<char>)
    ensures
        chars@ == s@,
{
    broadcast use vstd::string::group_string_axioms;

    let mut chars: Vec<char> = Vec::new();
    for c in it: s.chars()
        invariant
            it.seq() == s@,
            chars@ == it.seq().take(it.index()),
    {
        chars.push(c);
    }
    chars
}

/// The first position at or after `from` whose character breaks the run.
fn scan_run(chars: &[char], from: usize, ws: bool) -> (end: usize)
    requires
        from <= chars.len(),
    ensures
        end == run_end(chars@, from as int, ws),
        from <= end <= chars.len(),
{
    let mut i: usize = from;
    while i < chars.len() && is_whitespace_char(chars[i]) == ws
        invariant
            from <= i <= chars.len(),
            run_end(chars@, from as int, ws) == run_end(chars@, i as int, ws),
        decreases chars.len() - i,
    {
        i += 1;
    }
    i
}

/// Finds the tokens of a line.
fn tokenize(chars: &[char]) -> (spans: Vec<Span>)
    ensures
        spans_cover(spans@, chars@),
{
    let mut spans: Vec<Span> = Vec::new();
    let mut pos: usize = 0;
    let ghost mut done: Seq<Seq<char>> = Seq::empty();
    loop
        invariant
            pos <= chars.len(),
            tokens(chars@) == done + tokens_from(chars@, pos as int),
            spans.len() == done.len(),
            forall|k: int|
                0 <= k < spans.len() ==> (#[trigger] spans[k]).start <= spans[k].end <= chars.len()
                    && chars@.subrange(spans[k].start as int, spans[k].end as int) == done[k],
        ensures
            spans_cover(spans@, chars@),
        decreases chars.len() - pos,
    {
        let start = scan_run(chars, pos, true);
        let end = scan_run(chars, start, false);
        if start == end {
            assert(tokens_from(chars@, pos as int) == Seq::<Seq<char>>::empty());
            assert(tokens(chars@) == done);
            break ;
        }
        let ghost token = chars@.subrange(start as int, end as int);
        proof {
            assert(tokens_from(chars@, pos as int) == seq![token] + tokens_from(
                chars@,
                end as int,
            ));
            assert(done + (seq![token] + tokens_from(chars@, end as int)) == done.push(token)
                + tokens_from(chars@, end as int));
            done = done.push(token);
        }
        spans.push(Span { start, end });
        pos = end;
    }
    spans
}

/// A line of a trace with its tokens found.
pub struct Line<'a> {
    source: &'a str,
    chars: Vec<char>,
    spans: Vec<Span>,
}

impl<'a> View for Line<'a> {
    type V = Seq<char>;

    /// The text of the line.
    closed spec fn view(&self) -> Seq<char> {
        self.source@
    }
}

impl<'a> Line<'a> {
    #[verifier::type_invariant]
    spec fn inv(&self) -> bool {
        &&& self.chars@ == self.source@
        &&& spans_cover(self.spans@, self.chars@)
    }

    /// Splits `source` into its tokens.
    pub fn new(source: &'a str) -> (line: Line<'a>)
        ensures
            line@ == source@,
    {
        let chars = chars_of(source);
        let spans = tokenize(chars.as_slice());
        Line { source, chars, spans }
    }

    /// The text of the line, as it was given.
    pub fn source(&self) -> (source: &'a str)
        ensures
            source@ == self@,
    {
        self.source
    }

    /// The number of tokens in the line.
    pub fn len(&self) -> (n: usize)
        ensures
            n == tokens(self@).len(),
    {
        proof {
            use_type_invariant(self);
        }
        self.spans.len()
    }

    /// The characters of the token at position `k`, counted from 0, if the
    /// line has that many tokens. A token has at least one character.
    pub fn token(&self, k: usize) -> (token: Option<&[char]>)
        ensures
            match token {
                Some(token) => k < tokens(self@).len() && token@ == tokens(self@)[k as int]
                    && token@.len() > 0,
                None => k >= tokens(self@).len(),
            },
    {
        proof {
            use_type_invariant(self);
            lemma_tokens_are_words(self@);
        }
        if k < self.spans.len() {
            Some(vstd::slice::slice_subrange(
                self.chars.as_slice(),
                self.spans[k].start,
                self.spans[k].end,
            ))
        } else {
            None
        }
    }

    /// The token at position `k`, counted from 0, as a text of its own, if the
    /// line has that many tokens. A token has at least one character.
    pub fn text(&self, k: usize) -> (text: Option<String>)
        ensures
            match text {
                Some(text) => k < tokens(self@).len() && text@ == tokens(self@)[k as int]
                    && text@.len() > 0,
                None => k >= tokens(self@).len(),
            },
    {
        proof {
            use_type_invariant(self);
            lemma_tokens_are_words(self@);
        }
        if k < self.spans.len() {
            Some(
                String::from_str(
                    self.source.substring_char(self.spans[k].start, self.spans[k].end),
                ),
            )
        } else {
            None
        }
    }
}

} // verus!
