//! The parser: reads a diff from its textual form, line by line.

use crate::lines::push_line;
use crate::message::{invalid_prefix_error, invalid_prefix_message};
use crate::model::{diff_result, Error, ErrorView, FuDiff, Hunk, HunkView};
use crate::text::{chars_of, line_spans, spans_cover, split_lines, string_of};
use vstd::prelude::*;
use vstd::string::StringExecFns;

verus! {

/// The characters that count as white space: those with the Unicode
/// property `White_Space`.
pub open spec fn is_white_space(c: char) -> bool {
    ('\u{9}' <= c <= '\u{D}') || c == ' ' || c == '\u{85}' || c == '\u{A0}' || c == '\u{1680}' || (
    '\u{2000}' <= c <= '\u{200A}') || c == '\u{2028}' || c == '\u{2029}' || c == '\u{202F}' || c
        == '\u{205F}' || c == '\u{3000}'
}

/// Whether a text holds nothing but white space.
pub open spec fn is_blank(text: Seq<char>) -> bool {
    forall|k: int| 0 <= k < text.len() ==> is_white_space(#[trigger] text[k])
}

/// Whether the marker `@@` stands in `text` at place `k`.
pub open spec fn marker_at(text: Seq<char>, k: int) -> bool {
    0 <= k && k + 1 < text.len() && text[k] == '@' && text[k + 1] == '@'
}

/// Whether the marker `@@` stands anywhere in `text`.
pub open spec fn has_marker(text: Seq<char>) -> bool {
    exists|k: int| marker_at(text, k)
}

/// Whether a line opens a hunk: it starts with the marker, and the marker
/// stands in it once more. What else the line holds is of no account.
pub open spec fn is_header(line: Seq<char>) -> bool {
    marker_at(line, 0) && has_marker(line.skip(2))
}

/// Whether a line is passed over wherever it stands: an empty line, or a
/// file header, which starts with `---` or with `+++`.
pub open spec fn is_skipped(line: Seq<char>) -> bool {
    line.len() == 0 || (line.len() >= 3 && ((line[0] == '-' && line[1] == '-' && line[2] == '-')
        || (line[0] == '+' && line[1] == '+' && line[2] == '+')))
}

/// How far the parser has come: the hunks that are complete, and the hunk
/// that is being read, if one is open.
pub struct ParseState {
    pub done: Seq<HunkView>,
    pub open: Option<HunkView>,
}

impl ParseState {
    /// The state before the first line: no hunk read, and none open.
    pub open spec fn start() -> ParseState {
        ParseState { done: Seq::empty(), open: None }
    }

    /// All hunks read so far, the open one included.
    pub open spec fn hunks(self) -> Seq<HunkView> {
        match self.open {
            Some(hunk) => self.done.push(hunk),
            None => self.done,
        }
    }
}

/// The hunk with one more line, which stood behind `marker`. A line behind
/// a space is context: before the change as long as the hunk holds neither
/// a deletion nor an addition, after it from then on.
pub open spec fn with_line(hunk: HunkView, marker: char, content: Seq<char>) -> HunkView {
    if marker == '-' {
        HunkView { deletions: hunk.deletions.push(content), ..hunk }
    } else if marker == '+' {
        HunkView { additions: hunk.additions.push(content), ..hunk }
    } else if hunk.has_changes() {
        HunkView { context_after: hunk.context_after.push(content), ..hunk }
    } else {
        HunkView { context_before: hunk.context_before.push(content), ..hunk }
    }
}

/// The state after one more line, or the error that the line is.
///
/// A header closes the open hunk and opens an empty one. Empty lines and
/// file headers change nothing. Any other line must stand in a hunk and
/// start with a space, `-` or `+`; what follows that character is added to
/// the hunk.
pub open spec fn step(state: ParseState, line: Seq<char>) -> Result<ParseState, ErrorView> {
    if is_header(line) {
        Ok(ParseState { done: state.hunks(), open: Some(HunkView::empty()) })
    } else if is_skipped(line) {
        Ok(state)
    } else {
        match state.open {
            None => Err(ErrorView::Parse("Line found outside of hunk"@)),
            Some(hunk) => if line[0] == ' ' || line[0] == '-' || line[0] == '+' {
                Ok(
                    ParseState {
                        done: state.done,
                        open: Some(with_line(hunk, line[0], line.skip(1))),
                    },
                )
            } else {
                Err(ErrorView::Parse(invalid_prefix_message(line[0])))
            },
        }
    }
}

/// The state after the given lines, or the error of the first line that is
/// one.
pub open spec fn run(state: ParseState, lines: Seq<Seq<char>>) -> Result<ParseState, ErrorView>
    decreases lines.len(),
{
    if lines.len() == 0 {
        Ok(state)
    } else {
        match step(state, lines[0]) {
            Err(e) => Err(e),
            Ok(next) => run(next, lines.drop_first()),
        }
    }
}

/// The hunks that the lines of a diff hold.
pub open spec fn parse_lines(lines: Seq<Seq<char>>) -> Result<Seq<HunkView>, ErrorView> {
    match run(ParseState::start(), lines) {
        Err(e) => Err(e),
        Ok(state) => Ok(state.hunks()),
    }
}

/// The diff that a text holds, or the error that the text is.
///
/// A text of white space alone is the diff without hunks. Any other text
/// must hold the marker `@@` somewhere, and is then read line by line.
pub open spec fn parse_spec(text: Seq<char>) -> Result<Seq<HunkView>, ErrorView> {
    if is_blank(text) {
        Ok(Seq::empty())
    } else if !has_marker(text) {
        Err(ErrorView::Parse("No hunks found in diff"@))
    } else {
        parse_lines(split_lines(text))
    }
}

/// Tells whether a character is white space.
pub fn white_space(c: char) -> (white: bool)
    ensures
        white == is_white_space(c),
{
    ('\u{9}' <= c && c <= '\u{D}') || c == ' ' || c == '\u{85}' || c == '\u{A0}' || c
        == '\u{1680}' || ('\u{2000}' <= c && c <= '\u{200A}') || c == '\u{2028}' || c
        == '\u{2029}' || c == '\u{202F}' || c == '\u{205F}' || c == '\u{3000}'
}

/// Tells whether all characters are white space.
fn blank(chars: &Vec<char>) -> (all: bool)
    ensures
        all == is_blank(chars@),
{
    let mut k: usize = 0;
    while k < chars.len()
        invariant
            k <= chars.len(),
            forall|m: int| 0 <= m < k ==> is_white_space(#[trigger] chars@[m]),
        decreases chars.len() - k,
    {
        if !white_space(chars[k]) {
            return false;
        }
        k += 1;
    }
    true
}

/// Tells whether the marker `@@` stands anywhere in `chars[from..to]`.
fn marker_within(chars: &Vec<char>, from: usize, to: usize) -> (found: bool)
    requires
        from <= to <= chars.len(),
    ensures
        found == has_marker(chars@.subrange(from as int, to as int)),
{
    let ghost part = chars@.subrange(from as int, to as int);
    let mut k: usize = from;
    while k < to && k + 1 < to
        invariant
            from <= k <= to <= chars.len(),
            part == chars@.subrange(from as int, to as int),
            forall|m: int| 0 <= m < k - from ==> !marker_at(part, m),
        decreases to - k,
    {
        if chars[k] == '@' && chars[k + 1] == '@' {
            assert(marker_at(part, k - from));
            return true;
        }
        k += 1;
    }
    assert forall|m: int| !marker_at(part, m) by {
        if marker_at(part, m) {
            assert(m + 1 < to - from);
            assert(m < k - from);
        }
    }
    false
}

/// What has been read while parsing: the state in terms of vectors.
struct Reading {
    done: Vec<Hunk>,
    open: bool,
    context_before: Vec<String>,
    deletions: Vec<String>,
    additions: Vec<String>,
    context_after: Vec<String>,
}

impl Reading {
    /// The hunk that is being read.
    spec fn current(&self) -> HunkView {
        HunkView {
            context_before: self.context_before.deep_view(),
            deletions: self.deletions.deep_view(),
            additions: self.additions.deep_view(),
            context_after: self.context_after.deep_view(),
        }
    }

    /// What the vectors stand for.
    spec fn state(&self) -> ParseState {
        ParseState {
            done: Seq::new(self.done@.len(), |k: int| self.done@[k]@),
            open: if self.open {
                Some(self.current())
            } else {
                None
            },
        }
    }

    /// The state before the first line.
    fn start() -> (reading: Reading)
        ensures
            reading.state() == ParseState::start(),
    {
        let reading = Reading {
            done: Vec::new(),
            open: false,
            context_before: Vec::new(),
            deletions: Vec::new(),
            additions: Vec::new(),
            context_after: Vec::new(),
        };
        assert(reading.state().done =~= Seq::<HunkView>::empty());
        reading
    }

    /// Closes the open hunk, if there is one.
    fn close(self) -> (hunks: Vec<Hunk>)
        ensures
            Seq::new(hunks@.len(), |k: int| hunks@[k]@) == self.state().hunks(),
    {
        let ghost state = self.state();
        let mut done = self.done;
        if self.open {
            done.push(
                Hunk {
                    context_before: self.context_before,
                    deletions: self.deletions,
                    additions: self.additions,
                    context_after: self.context_after,
                },
            );
        }
        assert(Seq::new(done@.len(), |k: int| done@[k]@) =~= state.hunks());
        done
    }

    /// Closes the open hunk and opens an empty one.
    fn open_hunk(self) -> (reading: Reading)
        ensures
            reading.state() == (ParseState {
                done: self.state().hunks(),
                open: Some(HunkView::empty()),
            }),
    {
        let done = self.close();
        let reading = Reading {
            done,
            open: true,
            context_before: Vec::new(),
            deletions: Vec::new(),
            additions: Vec::new(),
            context_after: Vec::new(),
        };
        proof {
            assert(reading.current().context_before =~= Seq::<Seq<char>>::empty());
            assert(reading.current().deletions =~= Seq::<Seq<char>>::empty());
            assert(reading.current().additions =~= Seq::<Seq<char>>::empty());
            assert(reading.current().context_after =~= Seq::<Seq<char>>::empty());
        }
        reading
    }

    /// Adds a line to the open hunk.
    fn add_line(&mut self, marker: char, content: String)
        requires
            old(self).open,
            marker == ' ' || marker == '-' || marker == '+',
        ensures
            final(self).state() == (ParseState {
                done: old(self).state().done,
                open: Some(with_line(old(self).current(), marker, content@)),
            }),
    {
        if marker == '-' {
            push_line(&mut self.deletions, content);
        } else if marker == '+' {
            push_line(&mut self.additions, content);
        } else if self.deletions.len() > 0 || self.additions.len() > 0 {
            push_line(&mut self.context_after, content);
        } else {
            push_line(&mut self.context_before, content);
        }
    }
}

impl FuDiff {
    /// Reads a diff from its textual form.
    pub fn parse(input: &str) -> (parsed: Result<FuDiff, Error>)
        ensures
            diff_result(parsed) == parse_spec(input@),
    {
        let chars = chars_of(input);
        if blank(&chars) {
            let diff = FuDiff { hunks: Vec::new() };
            assert(diff@ =~= Seq::<HunkView>::empty());
            return Ok(diff);
        }
        assert(chars@.subrange(0, chars@.len() as int) == chars@);
        if !marker_within(&chars, 0, chars.len()) {
            return Err(Error::Parse(String::from_str("No hunks found in diff")));
        }
        let spans = line_spans(&chars);
        let ghost lines = split_lines(chars@);
        let mut reading = Reading::start();
        let mut k: usize = 0;
        assert(lines.skip(0) == lines);
        while k < spans.len()
            invariant
                k <= spans.len(),
                lines == split_lines(chars@),
                spans_cover(chars@, spans@),
                run(ParseState::start(), lines) == run(reading.state(), lines.skip(k as int)),
                chars@ == input@,
                !is_blank(chars@),
                has_marker(chars@),
            decreases spans.len() - k,
        {
            let (from, to) = spans[k];
            let ghost line = lines[k as int];
            proof {
                assert(lines.skip(k as int)[0] == line);
                assert(lines.skip(k as int).drop_first() == lines.skip(k + 1));
                assert(line == chars@.subrange(from as int, to as int));
            }
            let header = to - from >= 2 && chars[from] == '@' && chars[from + 1] == '@'
                && marker_within(&chars, from + 2, to);
            proof {
                if to - from >= 2 {
                    assert(line.skip(2) == chars@.subrange(from + 2, to as int));
                } else {
                    assert(!marker_at(line, 0));
                }
            }
            if header {
                reading = reading.open_hunk();
            } else if to == from || (to - from >= 3 && ((chars[from] == '-' && chars[from + 1]
                == '-' && chars[from + 2] == '-') || (chars[from] == '+' && chars[from + 1] == '+'
                && chars[from + 2] == '+'))) {
                assert(is_skipped(line));
            } else if !reading.open {
                return Err(Error::Parse(String::from_str("Line found outside of hunk")));
            } else {
                let marker = chars[from];
                if marker == ' ' || marker == '-' || marker == '+' {
                    let content = string_of(&chars, from + 1, to);
                    assert(content@ == line.skip(1));
                    reading.add_line(marker, content);
                } else {
                    return Err(invalid_prefix_error(marker));
                }
            }
            k += 1;
        }
        let diff = FuDiff { hunks: reading.close() };
        Ok(diff)
    }
}

} // verus!
