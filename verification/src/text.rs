//! Texts as sequences of characters, and their division into lines.

use vstd::prelude::*;
use vstd::string::StringExecFns;

verus! {

/// The number of characters of `s` that stand before its first line feed:
/// all of them where `s` holds none.
pub open spec fn line_len(s: Seq<char>) -> nat
    decreases s.len(),
{
    if s.len() == 0 || s[0] == '\n' {
        0
    } else {
        1 + line_len(s.drop_first())
    }
}

/// A line as it stood before a line feed, without the carriage return that
/// may end it.
pub open spec fn strip_cr(line: Seq<char>) -> Seq<char> {
    if line.len() > 0 && line.last() == '\r' {
        line.drop_last()
    } else {
        line
    }
}

/// The lines of a text. A line ends at a line feed, or at a carriage return
/// directly followed by one; neither belongs to the line. What follows the
/// last line feed is a line of its own unless it is empty, so a final line
/// feed adds no empty line, and a carriage return at the very end stays.
pub open spec fn split_lines(s: Seq<char>) -> Seq<Seq<char>>
    decreases s.len(),
{
    let n = line_len(s) as int;
    if s.len() == 0 {
        Seq::empty()
    } else if n >= s.len() {
        seq![s]
    } else {
        seq![strip_cr(s.take(n))] + split_lines(s.skip(n + 1))
    }
}

/// The lines joined again, a line feed between each two.
pub open spec fn join_lines(lines: Seq<Seq<char>>) -> Seq<char>
    decreases lines.len(),
{
    if lines.len() == 0 {
        Seq::empty()
    } else if lines.len() == 1 {
        lines[0]
    } else {
        join_lines(lines.drop_last()) + seq!['\n'] + lines.last()
    }
}

/// Whether a text ends with a line feed.
pub open spec fn ends_with_newline(s: Seq<char>) -> bool {
    s.len() > 0 && s.last() == '\n'
}

/// The text made of the given lines: empty where there are none, else the
/// lines with a line feed between each two, and one more at the end if
/// `newline` asks for it.
pub open spec fn assemble(lines: Seq<Seq<char>>, newline: bool) -> Seq<char> {
    if lines.len() == 0 {
        Seq::empty()
    } else if newline {
        join_lines(lines).push('\n')
    } else {
        join_lines(lines)
    }
}

/// The lines one after the other, each ended by a line feed.
pub open spec fn terminated(lines: Seq<Seq<char>>) -> Seq<char>
    decreases lines.len(),
{
    if lines.len() == 0 {
        Seq::empty()
    } else {
        terminated(lines.drop_last()) + lines.last().push('\n')
    }
}

/// Whether a line holds no line feed.
pub open spec fn is_one_line(line: Seq<char>) -> bool {
    forall|k: int| 0 <= k < line.len() ==> #[trigger] line[k] != '\n'
}

/// Whether none of the lines holds a line feed.
pub open spec fn all_one_line(lines: Seq<Seq<char>>) -> bool {
    forall|k: int| 0 <= k < lines.len() ==> is_one_line(#[trigger] lines[k])
}

/// Whether a line ends with a carriage return.
pub open spec fn ends_with_cr(line: Seq<char>) -> bool {
    line.len() > 0 && line.last() == '\r'
}

/// The lines, each without the carriage return that may end it.
pub open spec fn stripped(lines: Seq<Seq<char>>) -> Seq<Seq<char>> {
    Seq::new(lines.len(), |k: int| strip_cr(lines[k]))
}

/// Whether the text made of the lines splits into these lines again: none
/// holds a line feed; none that a line feed follows ends with a carriage
/// return; and the last is not empty where no line feed follows it.
pub open spec fn splits_back(lines: Seq<Seq<char>>, newline: bool) -> bool {
    &&& all_one_line(lines)
    &&& forall|k: int| 0 <= k < lines.len() - 1 ==> !ends_with_cr(#[trigger] lines[k])
    &&& lines.len() > 0 ==> if newline {
        !ends_with_cr(lines.last())
    } else {
        lines.last().len() > 0
    }
}

/// The lines of `chars` as pairs of a start and an end: line `k` is
/// `chars[spans[k].0..spans[k].1]`.
pub open spec fn spans_cover(chars: Seq<char>, spans: Seq<(usize, usize)>) -> bool {
    &&& spans.len() == split_lines(chars).len()
    &&& forall|k: int|
        0 <= k < spans.len() ==> {
            &&& (#[trigger] spans[k]).0 <= spans[k].1 <= chars.len()
            &&& chars.subrange(spans[k].0 as int, spans[k].1 as int) == split_lines(chars)[k]
        }
}

/// `String::push` appends one character to the string.
pub assume_specification[ String::push ](s: &mut String, c: char)
    ensures
        final(s)@ == old(s)@.push(c),
;

/// The characters of a string slice, in a vector.
pub(crate) fn chars_of(s: &str) -> (v: Vec<char>)
    ensures
        v@ == s@,
{
    let mut v: Vec<char> = Vec::new();
    let chars = s.chars();
    for c in it: chars
        invariant
            it.seq() == s@,
            v@ == s@.take(it.index()),
    {
        v.push(c);
    }
    assert(s@.take(s@.len() as int) == s@);
    v
}

/// The string made of `chars[from..to]`.
pub(crate) fn string_of(chars: &Vec<char>, from: usize, to: usize) -> (s: String)
    requires
        from <= to <= chars.len(),
    ensures
        s@ == chars@.subrange(from as int, to as int),
{
    let mut s = String::new();
    let mut i: usize = from;
    while i < to
        invariant
            from <= i <= to <= chars.len(),
            s@ == chars@.subrange(from as int, i as int),
        decreases to - i,
    {
        s.push(chars[i]);
        i += 1;
        assert(s@ == chars@.subrange(from as int, i as int));
    }
    s
}

/// Finds where each line of `chars` starts and ends.
pub(crate) fn line_spans(chars: &Vec<char>) -> (spans: Vec<(usize, usize)>)
    ensures
        spans_cover(chars@, spans@),
{
    let n = chars.len();
    let mut spans: Vec<(usize, usize)> = Vec::new();
    let mut start: usize = 0;
    let ghost mut done: Seq<Seq<char>> = Seq::empty();
    assert(chars@.skip(0) == chars@);
    while start < n
        invariant
            n == chars.len(),
            start <= n,
            split_lines(chars@) == done + split_lines(chars@.skip(start as int)),
            spans.len() == done.len(),
            forall|k: int|
                0 <= k < spans.len() ==> {
                    &&& (#[trigger] spans[k]).0 <= spans[k].1 <= n
                    &&& chars@.subrange(spans[k].0 as int, spans[k].1 as int) == done[k]
                },
        decreases n - start,
    {
        let ghost rest = chars@.skip(start as int);
        let mut end: usize = start;
        while end < n && chars[end] != '\n'
            invariant
                n == chars.len(),
                start <= end <= n,
                forall|m: int| start <= m < end ==> chars[m] != '\n',
            decreases n - end,
        {
            end += 1;
        }
        proof {
            lemma_line_len_is(rest, end - start);
            assert(rest.take(end - start) == chars@.subrange(start as int, end as int));
        }
        if end == n {
            spans.push((start, n));
            proof {
                assert(rest == chars@.subrange(start as int, n as int));
                assert(chars@.skip(n as int).len() == 0);
                done = done.push(rest);
                assert(split_lines(chars@) == done + split_lines(chars@.skip(n as int)));
            }
            start = n;
        } else {
            let line_end = if end > start && chars[end - 1] == '\r' {
                end - 1
            } else {
                end
            };
            spans.push((start, line_end));
            proof {
                let raw = chars@.subrange(start as int, end as int);
                assert(chars@.subrange(start as int, line_end as int) == strip_cr(raw));
                assert(rest.skip(end - start + 1) == chars@.skip(end + 1));
                assert(done + (seq![strip_cr(raw)] + split_lines(chars@.skip(end + 1)))
                    == done.push(strip_cr(raw)) + split_lines(chars@.skip(end + 1)));
                done = done.push(strip_cr(raw));
            }
            start = end + 1;
        }
    }
    proof {
        assert(split_lines(chars@.skip(start as int)) == Seq::<Seq<char>>::empty());
        assert(done + Seq::<Seq<char>>::empty() == done);
    }
    spans
}

/// The lines of a text that is given by its characters.
pub(crate) fn lines_of_chars(chars: &Vec<char>) -> (lines: Vec<String>)
    ensures
        lines.deep_view() == split_lines(chars@),
{
    let spans = line_spans(chars);
    let mut lines: Vec<String> = Vec::new();
    let mut k: usize = 0;
    while k < spans.len()
        invariant
            k <= spans.len(),
            spans_cover(chars@, spans@),
            lines.len() == k,
            forall|m: int| 0 <= m < k ==> (#[trigger] lines[m])@ == split_lines(chars@)[m],
        decreases spans.len() - k,
    {
        let (from, to) = spans[k];
        lines.push(string_of(chars, from, to));
        k += 1;
    }
    assert(lines.deep_view() =~= split_lines(chars@));
    lines
}

/// Splits a text into its lines.
pub fn lines_of(text: &str) -> (lines: Vec<String>)
    ensures
        lines.deep_view() == split_lines(text@),
{
    let chars = chars_of(text);
    lines_of_chars(&chars)
}

/// Joins lines into one text, a line feed between each two.
pub fn join(lines: &Vec<String>) -> (text: String)
    ensures
        text@ == join_lines(lines.deep_view()),
{
    let ghost all = lines.deep_view();
    let mut text = String::new();
    let mut k: usize = 0;
    while k < lines.len()
        invariant
            k <= lines.len(),
            all == lines.deep_view(),
            text@ == join_lines(all.take(k as int)),
        decreases lines.len() - k,
    {
        proof {
            let upto = all.take(k + 1);
            assert(upto.drop_last() == all.take(k as int));
            assert(upto.last() == lines[k as int]@);
            if k > 0 {
                assert(join_lines(upto) == join_lines(all.take(k as int)) + seq!['\n']
                    + lines[k as int]@);
                assert(text@.push('\n') == text@ + seq!['\n']);
            } else {
                assert(text@ + lines[k as int]@ == lines[k as int]@);
            }
        }
        if k > 0 {
            text.push('\n');
        }
        text.append(lines[k].as_str());
        k += 1;
    }
    assert(all.take(lines.len() as int) == all);
    text
}

/// Builds the text made of the given lines, with a line feed at its end if
/// `newline` asks for it and there is a line at all.
pub fn assemble_text(lines: &Vec<String>, newline: bool) -> (text: String)
    ensures
        text@ == assemble(lines.deep_view(), newline),
{
    if lines.len() == 0 {
        String::new()
    } else {
        let mut text = join(lines);
        if newline {
            text.push('\n');
        }
        text
    }
}

/// `line_len` stays within the text, no line feed stands before it, and one
/// stands at it unless it is the end of the text.
pub proof fn lemma_line_len(s: Seq<char>)
    ensures
        line_len(s) <= s.len(),
        forall|i: int| 0 <= i < line_len(s) ==> s[i] != '\n',
        line_len(s) < s.len() ==> s[line_len(s) as int] == '\n',
    decreases s.len(),
{
    if s.len() == 0 || s[0] == '\n' {
    } else {
        let t = s.drop_first();
        lemma_line_len(t);
        assert forall|i: int| 0 <= i < line_len(s) implies s[i] != '\n' by {
            if i > 0 {
                assert(s[i] == t[i - 1]);
            }
        }
        if line_len(s) < s.len() {
            assert(s[line_len(s) as int] == t[line_len(t) as int]);
        }
    }
}

/// The place of the first line feed is `line_len`.
pub proof fn lemma_line_len_is(s: Seq<char>, n: int)
    requires
        0 <= n <= s.len(),
        forall|i: int| 0 <= i < n ==> s[i] != '\n',
        n < s.len() ==> s[n] == '\n',
    ensures
        line_len(s) == n,
    decreases s.len(),
{
    if s.len() == 0 || s[0] == '\n' {
    } else {
        let t = s.drop_first();
        assert forall|i: int| 0 <= i < n - 1 implies t[i] != '\n' by {
            assert(t[i] == s[i + 1]);
        }
        lemma_line_len_is(t, n - 1);
    }
}

/// Lines joined by line feeds are all of them but the last, each ended by a
/// line feed, and then the last.
pub proof fn lemma_join_by_terminated(lines: Seq<Seq<char>>)
    requires
        lines.len() > 0,
    ensures
        join_lines(lines) == terminated(lines.drop_last()) + lines.last(),
    decreases lines.len(),
{
    if lines.len() == 1 {
        assert(terminated(lines.drop_last()) + lines.last() == lines[0]);
    } else {
        let front = lines.drop_last();
        lemma_join_by_terminated(front);
        assert(terminated(front) == terminated(front.drop_last()) + front.last().push('\n'));
        assert(join_lines(front) + seq!['\n'] == terminated(front.drop_last()) + front.last().push(
            '\n',
        ));
    }
}

/// Lines that are each ended by a line feed make the text of these lines
/// with a line feed at its end.
pub proof fn lemma_terminated_is_assembled(lines: Seq<Seq<char>>)
    ensures
        terminated(lines) == assemble(lines, true),
{
    if lines.len() > 0 {
        lemma_join_by_terminated(lines);
        assert((terminated(lines.drop_last()) + lines.last()).push('\n') == terminated(
            lines.drop_last(),
        ) + lines.last().push('\n'));
    }
}

/// Ending each line by a line feed goes through concatenation.
pub proof fn lemma_terminated_concat(first: Seq<Seq<char>>, second: Seq<Seq<char>>)
    ensures
        terminated(first + second) == terminated(first) + terminated(second),
    decreases second.len(),
{
    if second.len() == 0 {
        assert(first + second == first);
        assert(terminated(first) + terminated(second) == terminated(first));
    } else {
        let all = first + second;
        assert(all.drop_last() == first + second.drop_last());
        assert(all.last() == second.last());
        lemma_terminated_concat(first, second.drop_last());
        assert(terminated(first) + terminated(second.drop_last()) + second.last().push('\n')
            == terminated(first) + (terminated(second.drop_last()) + second.last().push('\n')));
    }
}

/// A text that starts with lines which are each ended by a line feed splits
/// into these lines, each without the carriage return that may end it, and
/// the lines of the rest, provided none of them holds a line feed.
pub proof fn lemma_split_terminated(lines: Seq<Seq<char>>, rest: Seq<char>)
    requires
        all_one_line(lines),
    ensures
        split_lines(terminated(lines) + rest) == stripped(lines) + split_lines(rest),
    decreases lines.len(),
{
    if lines.len() == 0 {
        assert(terminated(lines) + rest == rest);
        assert(stripped(lines) + split_lines(rest) == split_lines(rest));
    } else {
        let first = lines[0];
        let others = lines.drop_first();
        let text = terminated(lines) + rest;
        let n = first.len() as int;
        assert(lines == seq![first] + others);
        lemma_terminated_concat(seq![first], others);
        assert(terminated(seq![first]) == first.push('\n')) by {
            assert(seq![first].drop_last() == Seq::<Seq<char>>::empty());
            assert(terminated(Seq::<Seq<char>>::empty()) + first.push('\n') == first.push('\n'));
        }
        assert(text == first.push('\n') + (terminated(others) + rest));
        assert(is_one_line(lines[0]));
        assert forall|k: int| 0 <= k < n implies text[k] != '\n' by {
            assert(text[k] == first[k]);
        }
        lemma_line_len_is(text, n);
        assert(text.take(n) == first);
        assert(text.skip(n + 1) == terminated(others) + rest);
        assert forall|k: int| 0 <= k < others.len() implies is_one_line(#[trigger] others[k]) by {
            assert(others[k] == lines[k + 1]);
        }
        lemma_split_terminated(others, rest);
        assert(seq![strip_cr(first)] + (stripped(others) + split_lines(rest)) == stripped(lines)
            + split_lines(rest));
    }
}

/// Lines that do not end with a carriage return are what they are without
/// it.
pub proof fn lemma_stripped_clean(lines: Seq<Seq<char>>)
    requires
        forall|k: int| 0 <= k < lines.len() ==> !ends_with_cr(#[trigger] lines[k]),
    ensures
        stripped(lines) == lines,
{
    assert(stripped(lines) =~= lines);
}

/// The lines of a text hold no line feed.
pub proof fn lemma_split_lines_one_line(text: Seq<char>)
    ensures
        all_one_line(split_lines(text)),
    decreases text.len(),
{
    let n = line_len(text) as int;
    lemma_line_len(text);
    let lines = split_lines(text);
    if text.len() == 0 {
    } else if n >= text.len() {
        assert(is_one_line(text));
    } else {
        let rest = split_lines(text.skip(n + 1));
        lemma_split_lines_one_line(text.skip(n + 1));
        let first = strip_cr(text.take(n));
        assert(is_one_line(first)) by {
            assert forall|k: int| 0 <= k < first.len() implies #[trigger] first[k] != '\n' by {
                assert(first[k] == text[k]);
            }
        }
        assert forall|k: int| 0 <= k < lines.len() implies is_one_line(#[trigger] lines[k]) by {
            if k > 0 {
                assert(lines[k] == rest[k - 1]);
            }
        }
    }
}

/// The text made of lines splits into these lines again.
pub proof fn lemma_split_assembled(lines: Seq<Seq<char>>, newline: bool)
    requires
        splits_back(lines, newline),
    ensures
        split_lines(assemble(lines, newline)) == lines,
{
    let empty = Seq::<char>::empty();
    if lines.len() == 0 {
    } else if newline {
        lemma_terminated_is_assembled(lines);
        assert forall|k: int| 0 <= k < lines.len() implies !ends_with_cr(#[trigger] lines[k]) by {
            if k == lines.len() - 1 {
                assert(lines[k] == lines.last());
            }
        }
        lemma_split_terminated(lines, empty);
        lemma_stripped_clean(lines);
        assert(terminated(lines) + empty == terminated(lines));
        assert(lines + split_lines(empty) == lines);
    } else {
        let front = lines.drop_last();
        let last = lines.last();
        lemma_join_by_terminated(lines);
        assert forall|k: int| 0 <= k < front.len() implies is_one_line(#[trigger] front[k]) by {
            assert(front[k] == lines[k]);
        }
        assert forall|k: int| 0 <= k < front.len() implies !ends_with_cr(#[trigger] front[k]) by {
            assert(front[k] == lines[k]);
        }
        lemma_split_terminated(front, last);
        lemma_stripped_clean(front);
        assert(is_one_line(lines[lines.len() - 1]));
        lemma_line_len_is(last, last.len() as int);
        assert(split_lines(last) == seq![last]);
        assert(front + seq![last] == lines);
    }
}

} // verus!
