//! The renderer and the parser together: for which diffs reading what was
//! written gives the diff itself, and what it gives for the others. The law
//! comes first, then the lemmas that it rests on.

use crate::model::{ErrorView, HunkView};
use crate::parser::{
    is_header, is_skipped, is_white_space, marker_at, parse_lines, parse_spec, run, step,
    with_line, ParseState,
};
use crate::renderer::{diff_text_lines, header_line, hunk_lines, marked_lines, render_spec};
use crate::text::{
    all_one_line, ends_with_cr, is_one_line, lemma_join_by_terminated, lemma_line_len,
    lemma_line_len_is, lemma_split_lines_one_line, lemma_split_terminated,
    lemma_terminated_is_assembled, line_len, split_lines, strip_cr, stripped, terminated,
};
use vstd::prelude::*;

verus! {

/// Whether each of the lines can stand before a line feed and be read back:
/// it holds no line feed and does not end with a carriage return.
pub open spec fn lines_clean(lines: Seq<Seq<char>>) -> bool {
    forall|k: int|
        0 <= k < lines.len() ==> is_one_line(#[trigger] lines[k]) && !ends_with_cr(lines[k])
}

/// Whether a line starts with two of the given character.
pub open spec fn starts_with_two(line: Seq<char>, c: char) -> bool {
    line.len() >= 2 && line[0] == c && line[1] == c
}

/// Whether a line that is written behind `marker` is read as a line of that
/// kind: behind its marker it is no file header.
pub open spec fn keeps_marker(marker: char, line: Seq<char>) -> bool {
    marker == ' ' || !starts_with_two(line, marker)
}

/// Whether a hunk is read back as it was written. Its lines must be clean;
/// only the last line of the context after the change, in the last hunk of
/// a diff, may end with a carriage return, since no line feed follows it.
/// No deletion may start with `--` and no addition with `++`: behind its
/// marker, such a line is a file header. And context after the change takes
/// a change to follow.
pub open spec fn hunk_reads_back(hunk: HunkView, last: bool) -> bool {
    &&& lines_clean(hunk.context_before)
    &&& lines_clean(hunk.deletions)
    &&& lines_clean(hunk.additions)
    &&& if last && hunk.context_after.len() > 0 {
        lines_clean(hunk.context_after.drop_last()) && is_one_line(hunk.context_after.last())
    } else {
        lines_clean(hunk.context_after)
    }
    &&& forall|k: int|
        0 <= k < hunk.deletions.len() ==> keeps_marker('-', #[trigger] hunk.deletions[k])
    &&& forall|k: int|
        0 <= k < hunk.additions.len() ==> keeps_marker('+', #[trigger] hunk.additions[k])
    &&& hunk.context_after.len() > 0 ==> hunk.has_changes()
}

/// Whether a diff is read back as it was written: each of its hunks is.
pub open spec fn reads_back(hunks: Seq<HunkView>) -> bool {
    forall|k: int|
        0 <= k < hunks.len() ==> hunk_reads_back(#[trigger] hunks[k], k == hunks.len() - 1)
}

/// Parse inverts render: a diff that is written and then read is the diff
/// itself, provided it is one that is read back as it was written.
///
/// The proviso leaves out the diffs with a line that cannot be written on
/// a line of its own, or that becomes a file header behind its marker, and
/// those with context after a hunk that changes nothing.
pub proof fn law_parse_inverts_render(hunks: Seq<HunkView>)
    requires
        reads_back(hunks),
    ensures
        parse_spec(render_spec(hunks)) == Ok::<Seq<HunkView>, ErrorView>(hunks),
{
    lemma_reads_back(hunks);
    lemma_parse_of_render(hunks);
}

/// The proviso of the law is needed: a diff that is the same after it was
/// written and read is one that is read back as it was written.
pub proof fn lemma_parse_inverts_render_only_if(hunks: Seq<HunkView>)
    requires
        parse_spec(render_spec(hunks)) == Ok::<Seq<HunkView>, ErrorView>(hunks),
    ensures
        reads_back(hunks),
{
    lemma_parsed_one_line(render_spec(hunks));
    lemma_parse_of_render(hunks);
    lemma_reads_back(hunks);
}

/// Whether no line of the hunk holds a line feed.
pub open spec fn hunk_one_line(hunk: HunkView) -> bool {
    &&& all_one_line(hunk.context_before)
    &&& all_one_line(hunk.deletions)
    &&& all_one_line(hunk.additions)
    &&& all_one_line(hunk.context_after)
}

/// Whether no line of the diff holds a line feed.
pub open spec fn hunks_one_line(hunks: Seq<HunkView>) -> bool {
    forall|k: int| 0 <= k < hunks.len() ==> hunk_one_line(#[trigger] hunks[k])
}

/// A hunk as its lines stand in the text of a diff: without the carriage
/// returns at their ends, which fall to the line feeds that follow. The
/// last line of the last hunk has none to follow if it is context.
pub open spec fn written_hunk(hunk: HunkView, last: bool) -> HunkView {
    HunkView {
        context_before: stripped(hunk.context_before),
        deletions: stripped(hunk.deletions),
        additions: stripped(hunk.additions),
        context_after: if last && hunk.context_after.len() > 0 {
            stripped(hunk.context_after.drop_last()).push(hunk.context_after.last())
        } else {
            stripped(hunk.context_after)
        },
    }
}

/// A diff as its lines stand in its text.
pub open spec fn written(hunks: Seq<HunkView>) -> Seq<HunkView> {
    Seq::new(hunks.len(), |k: int| written_hunk(hunks[k], k == hunks.len() - 1))
}

/// The lines that are read as lines of their kind when they are written
/// behind `marker`: those that are no file header there.
pub open spec fn kept_lines(marker: char, lines: Seq<Seq<char>>) -> Seq<Seq<char>>
    decreases lines.len(),
{
    if lines.len() == 0 {
        lines
    } else if keeps_marker(marker, lines[0]) {
        seq![lines[0]] + kept_lines(marker, lines.drop_first())
    } else {
        kept_lines(marker, lines.drop_first())
    }
}

/// What the parser makes of the lines of a hunk: the deletions and the
/// additions that are no file headers behind their markers; and the
/// context, of which all is context before the change where no change is
/// left.
pub open spec fn read_hunk(hunk: HunkView) -> HunkView {
    let deletions = kept_lines('-', hunk.deletions);
    let additions = kept_lines('+', hunk.additions);
    if deletions.len() > 0 || additions.len() > 0 {
        HunkView {
            context_before: hunk.context_before,
            deletions,
            additions,
            context_after: hunk.context_after,
        }
    } else {
        HunkView {
            context_before: hunk.context_before + hunk.context_after,
            deletions,
            additions,
            context_after: Seq::empty(),
        }
    }
}

/// What the parser makes of the lines of the hunks.
pub open spec fn read_hunks(hunks: Seq<HunkView>) -> Seq<HunkView> {
    Seq::new(hunks.len(), |k: int| read_hunk(hunks[k]))
}

/// What is read back of a diff that was written, for every diff whose
/// lines hold no line feed: the hunks as their lines stand in the text,
/// read as `read_hunk` says.
pub proof fn lemma_parse_of_render(hunks: Seq<HunkView>)
    requires
        hunks_one_line(hunks),
    ensures
        parse_spec(render_spec(hunks)) == Ok::<Seq<HunkView>, ErrorView>(
            read_hunks(written(hunks)),
        ),
{
    let text = render_spec(hunks);
    if hunks.len() == 0 {
        assert(read_hunks(written(hunks)) =~= Seq::<HunkView>::empty());
    } else {
        lemma_split_rendered(hunks);
        lemma_text_lines_start(written(hunks));
        lemma_run_hunks(written(hunks));
        let n = line_len(text) as int;
        lemma_line_len(text);
        let first = if n >= text.len() {
            text
        } else {
            text.take(n)
        };
        assert(split_lines(text)[0] == header_line());
        assert(first.len() >= 5 && first[0] == '@' && first[1] == '@') by {
            if n < text.len() {
                assert(strip_cr(first) == header_line());
                assert(strip_cr(first)[0] == first[0]);
                assert(strip_cr(first)[1] == first[1]);
            }
        }
        assert(text[0] == '@' && text[1] == '@');
        assert(marker_at(text, 0));
        assert(!is_white_space(text[0]));
    }
}

/// A diff is read back as it was written exactly if its lines hold no line
/// feed and it is what the parser makes of it as it stands in the text.
pub proof fn lemma_reads_back(hunks: Seq<HunkView>)
    ensures
        reads_back(hunks) <==> hunks_one_line(hunks) && read_hunks(written(hunks)) == hunks,
{
    let read = read_hunks(written(hunks));
    assert forall|k: int| 0 <= k < hunks.len() implies (hunk_reads_back(
        #[trigger] hunks[k],
        k == hunks.len() - 1,
    ) <==> hunk_one_line(hunks[k]) && read[k] == hunks[k]) by {
        lemma_hunk_reads_back(hunks[k], k == hunks.len() - 1);
    }
    if reads_back(hunks) {
        assert(read =~= hunks);
    }
}

/// A hunk is read back as it was written exactly if its lines hold no line
/// feed and it is what the parser makes of it as it stands in the text.
pub proof fn lemma_hunk_reads_back(hunk: HunkView, last: bool)
    ensures
        hunk_reads_back(hunk, last) <==> hunk_one_line(hunk) && read_hunk(
            written_hunk(hunk, last),
        ) == hunk,
{
    let text = written_hunk(hunk, last);
    let read = read_hunk(text);
    let behind = hunk.context_after;
    let none = Seq::<Seq<char>>::empty();
    lemma_stripped_same(hunk.context_before);
    lemma_stripped_same(hunk.deletions);
    lemma_stripped_same(hunk.additions);
    lemma_stripped_same(behind);
    lemma_kept_lines('-', text.deletions);
    lemma_kept_lines('+', text.additions);
    if behind.len() > 0 {
        lemma_stripped_same(behind.drop_last());
        assert(behind.drop_last().push(behind.last()) == behind);
        assert(is_one_line(behind[behind.len() - 1]) == is_one_line(behind.last()));
        assert(all_one_line(behind) <==> all_one_line(behind.drop_last()) && is_one_line(
            behind.last(),
        )) by {
            if all_one_line(behind) {
                assert forall|k: int| 0 <= k < behind.len() - 1 implies is_one_line(
                    #[trigger] behind.drop_last()[k],
                ) by {
                    assert(behind.drop_last()[k] == behind[k]);
                }
            }
            if all_one_line(behind.drop_last()) && is_one_line(behind.last()) {
                assert forall|k: int| 0 <= k < behind.len() implies is_one_line(
                    #[trigger] behind[k],
                ) by {
                    if k < behind.len() - 1 {
                        assert(behind[k] == behind.drop_last()[k]);
                    }
                }
            }
        }
        assert((forall|k: int| 0 <= k < behind.len() ==> !ends_with_cr(#[trigger] behind[k]))
            ==> (forall|k: int|
            0 <= k < behind.len() - 1 ==> !ends_with_cr(#[trigger] behind.drop_last()[k]))) by {
            if forall|k: int| 0 <= k < behind.len() ==> !ends_with_cr(#[trigger] behind[k]) {
                assert forall|k: int| 0 <= k < behind.len() - 1 implies !ends_with_cr(
                    #[trigger] behind.drop_last()[k],
                ) by {
                    assert(behind.drop_last()[k] == behind[k]);
                }
            }
        }
        if stripped(behind.drop_last()).push(behind.last()) == behind {
            assert(stripped(behind.drop_last()) =~= behind.drop_last()) by {
                assert forall|k: int| 0 <= k < behind.len() - 1 implies #[trigger] stripped(
                    behind.drop_last(),
                )[k] == behind.drop_last()[k] by {
                    assert(stripped(behind.drop_last()).push(behind.last())[k] == behind[k]);
                }
            }
        }
    } else {
        assert(stripped(behind) =~= none);
    }
    if hunk_reads_back(hunk, last) {
        assert(text.deletions == hunk.deletions);
        assert(text.additions == hunk.additions);
        assert(text.context_before == hunk.context_before);
        assert(text.context_after == behind);
        if !hunk.has_changes() {
            assert(hunk.context_before + behind == hunk.context_before);
            assert(behind == none);
        }
        assert(read == hunk);
    }
    if hunk_one_line(hunk) && read == hunk {
        assert(text.deletions.len() == hunk.deletions.len());
        assert(text.additions.len() == hunk.additions.len());
        assert(read.deletions == text.deletions);
        assert(read.additions == text.additions);
        if hunk.has_changes() {
            assert(text.context_after == behind);
        } else {
            assert(behind == none);
            assert(text.context_before + text.context_after == hunk.context_before);
            assert(text.context_after == none);
            assert(text.context_before + none == text.context_before);
        }
        assert(hunk_reads_back(hunk, last));
    }
}

/// The hunk with the given lines added, all behind the same marker.
pub open spec fn with_lines(hunk: HunkView, marker: char, lines: Seq<Seq<char>>) -> HunkView {
    if marker == '-' {
        HunkView { deletions: hunk.deletions + lines, ..hunk }
    } else if marker == '+' {
        HunkView { additions: hunk.additions + lines, ..hunk }
    } else if hunk.has_changes() {
        HunkView { context_after: hunk.context_after + lines, ..hunk }
    } else {
        HunkView { context_before: hunk.context_before + lines, ..hunk }
    }
}

/// The state of the parser after it has read the given hunks.
pub open spec fn state_after(hunks: Seq<HunkView>) -> ParseState {
    if hunks.len() == 0 {
        ParseState::start()
    } else {
        ParseState { done: hunks.drop_last(), open: Some(hunks.last()) }
    }
}

/// The lines of a hunk up to its context after the change.
pub open spec fn head_lines(hunk: HunkView) -> Seq<Seq<char>> {
    seq![header_line()] + marked_lines(' ', hunk.context_before) + marked_lines(
        '-',
        hunk.deletions,
    ) + marked_lines('+', hunk.additions)
}

/// Reading lines one after the other is reading the first of them and then
/// the rest.
pub proof fn lemma_run_concat(state: ParseState, first: Seq<Seq<char>>, second: Seq<Seq<char>>)
    ensures
        run(state, first + second) == match run(state, first) {
            Ok(reached) => run(reached, second),
            Err(e) => Err(e),
        },
    decreases first.len(),
{
    if first.len() == 0 {
        assert(first + second == second);
    } else {
        let all = first + second;
        assert(all[0] == first[0]);
        assert(all.drop_first() == first.drop_first() + second);
        match step(state, first[0]) {
            Ok(next) => {
                lemma_run_concat(next, first.drop_first(), second);
            },
            Err(e) => {},
        }
    }
}

/// Of lines, no more are kept than there are; all are kept if each keeps
/// its marker; and if as many are kept as there are, each keeps its marker.
pub proof fn lemma_kept_lines(marker: char, lines: Seq<Seq<char>>)
    ensures
        kept_lines(marker, lines).len() <= lines.len(),
        (forall|k: int| 0 <= k < lines.len() ==> keeps_marker(marker, #[trigger] lines[k]))
            ==> kept_lines(marker, lines) == lines,
        kept_lines(marker, lines).len() == lines.len() ==> forall|k: int|
            0 <= k < lines.len() ==> keeps_marker(marker, #[trigger] lines[k]),
    decreases lines.len(),
{
    if lines.len() > 0 {
        let rest = lines.drop_first();
        lemma_kept_lines(marker, rest);
        if forall|k: int| 0 <= k < lines.len() ==> keeps_marker(marker, #[trigger] lines[k]) {
            assert forall|k: int| 0 <= k < rest.len() implies keeps_marker(
                marker,
                #[trigger] rest[k],
            ) by {
                assert(rest[k] == lines[k + 1]);
            }
            assert(seq![lines[0]] + rest == lines);
        }
        if kept_lines(marker, lines).len() == lines.len() {
            assert forall|k: int| 0 <= k < lines.len() implies keeps_marker(
                marker,
                #[trigger] lines[k],
            ) by {
                if k > 0 {
                    assert(lines[k] == rest[k - 1]);
                }
            }
        }
    }
}

/// Lines written behind a marker are read into the open hunk, but for those
/// that are file headers there.
pub proof fn lemma_run_marked(
    done: Seq<HunkView>,
    hunk: HunkView,
    marker: char,
    lines: Seq<Seq<char>>,
)
    requires
        marker == ' ' || marker == '-' || marker == '+',
    ensures
        run(ParseState { done, open: Some(hunk) }, marked_lines(marker, lines)) == Ok::<
            ParseState,
            ErrorView,
        >(ParseState { done, open: Some(with_lines(hunk, marker, kept_lines(marker, lines))) }),
    decreases lines.len(),
{
    let text = marked_lines(marker, lines);
    if lines.len() == 0 {
        assert(hunk.deletions + lines == hunk.deletions);
        assert(hunk.additions + lines == hunk.additions);
        assert(hunk.context_after + lines == hunk.context_after);
        assert(hunk.context_before + lines == hunk.context_before);
    } else {
        let line = text[0];
        let rest = lines.drop_first();
        let kept = kept_lines(marker, rest);
        assert(line == seq![marker] + lines[0]);
        assert(line[0] == marker);
        assert(line.skip(1) == lines[0]);
        assert(!is_header(line));
        assert(is_skipped(line) == !keeps_marker(marker, lines[0])) by {
            if line.len() >= 3 {
                assert(line[1] == lines[0][0]);
                assert(line[2] == lines[0][1]);
            }
        }
        assert(text.drop_first() == marked_lines(marker, rest));
        if keeps_marker(marker, lines[0]) {
            let next = with_line(hunk, marker, lines[0]);
            lemma_run_marked(done, next, marker, rest);
            assert(with_lines(next, marker, kept) == with_lines(
                hunk,
                marker,
                seq![lines[0]] + kept,
            )) by {
                assert(hunk.deletions.push(lines[0]) + kept == hunk.deletions + (seq![lines[0]]
                    + kept));
                assert(hunk.additions.push(lines[0]) + kept == hunk.additions + (seq![lines[0]]
                    + kept));
                assert(hunk.context_after.push(lines[0]) + kept == hunk.context_after + (
                seq![lines[0]] + kept));
                assert(hunk.context_before.push(lines[0]) + kept == hunk.context_before + (
                seq![lines[0]] + kept));
            }
        } else {
            lemma_run_marked(done, hunk, marker, rest);
        }
    }
}

/// The lines of one hunk are read as what `read_hunk` makes of it, which
/// stays open, after the hunks read before.
pub proof fn lemma_run_hunk(state: ParseState, hunk: HunkView)
    ensures
        run(state, hunk_lines(hunk)) == Ok::<ParseState, ErrorView>(
            ParseState { done: state.hunks(), open: Some(read_hunk(hunk)) },
        ),
{
    let done = state.hunks();
    let none = Seq::<Seq<char>>::empty();
    let header = seq![header_line()];
    let before = marked_lines(' ', hunk.context_before);
    let minus = marked_lines('-', hunk.deletions);
    let plus = marked_lines('+', hunk.additions);
    let behind = marked_lines(' ', hunk.context_after);
    let h0 = HunkView::empty();
    let h1 = with_lines(h0, ' ', kept_lines(' ', hunk.context_before));
    let h2 = with_lines(h1, '-', kept_lines('-', hunk.deletions));
    let h3 = with_lines(h2, '+', kept_lines('+', hunk.additions));
    let h4 = with_lines(h3, ' ', kept_lines(' ', hunk.context_after));
    let s0 = ParseState { done, open: Some(h0) };
    assert(run(state, header) == Ok::<ParseState, ErrorView>(s0)) by {
        let line = header_line();
        assert(marker_at(line, 0));
        assert(marker_at(line.skip(2), 1));
        assert(is_header(line));
        assert(header[0] == line);
        assert(step(state, line) == Ok::<ParseState, ErrorView>(s0));
        assert(header.drop_first() == none);
        assert(run(s0, header.drop_first()) == Ok::<ParseState, ErrorView>(s0));
    }
    lemma_run_marked(done, h0, ' ', hunk.context_before);
    lemma_run_marked(done, h1, '-', hunk.deletions);
    lemma_run_marked(done, h2, '+', hunk.additions);
    lemma_run_marked(done, h3, ' ', hunk.context_after);
    lemma_run_concat(state, header, before);
    lemma_run_concat(state, header + before, minus);
    lemma_run_concat(state, header + before + minus, plus);
    lemma_run_concat(state, header + before + minus + plus, behind);
    lemma_kept_lines(' ', hunk.context_before);
    lemma_kept_lines(' ', hunk.context_after);
    assert(h4 == read_hunk(hunk)) by {
        let deletions = kept_lines('-', hunk.deletions);
        let additions = kept_lines('+', hunk.additions);
        assert(none + hunk.context_before == hunk.context_before);
        assert(none + deletions == deletions);
        assert(none + additions == additions);
        assert(none + hunk.context_after == hunk.context_after);
        assert(h3.context_before == hunk.context_before);
        assert(h3.deletions == deletions);
        assert(h3.additions == additions);
        assert(h3.context_after == none);
    }
}

/// The lines that stand for hunks are read as what `read_hunks` makes of
/// them.
pub proof fn lemma_run_hunks(hunks: Seq<HunkView>)
    ensures
        run(ParseState::start(), diff_text_lines(hunks)) == Ok::<ParseState, ErrorView>(
            state_after(read_hunks(hunks)),
        ),
        parse_lines(diff_text_lines(hunks)) == Ok::<Seq<HunkView>, ErrorView>(read_hunks(hunks)),
    decreases hunks.len(),
{
    let read = read_hunks(hunks);
    if hunks.len() == 0 {
        assert(read =~= Seq::<HunkView>::empty());
    } else {
        let front = hunks.drop_last();
        let last = hunks.last();
        lemma_run_hunks(front);
        lemma_run_concat(ParseState::start(), diff_text_lines(front), hunk_lines(last));
        lemma_run_hunk(state_after(read_hunks(front)), last);
        assert(state_after(read_hunks(front)).hunks() == read_hunks(front)) by {
            let before = read_hunks(front);
            if before.len() > 0 {
                assert(before.drop_last().push(before.last()) == before);
            }
        }
        assert(read.drop_last() =~= read_hunks(front));
        assert(read.drop_last().push(read.last()) == read);
    }
}

/// Lines one after the other lose their carriage returns each for itself.
pub proof fn lemma_stripped_concat(first: Seq<Seq<char>>, second: Seq<Seq<char>>)
    ensures
        stripped(first + second) == stripped(first) + stripped(second),
{
    assert(stripped(first + second) =~= stripped(first) + stripped(second));
}

/// Clean lines are what they are without carriage returns at their ends,
/// and lines that are so do not end with one.
pub proof fn lemma_stripped_same(lines: Seq<Seq<char>>)
    ensures
        (forall|k: int| 0 <= k < lines.len() ==> !ends_with_cr(#[trigger] lines[k])) <==> stripped(
            lines,
        ) == lines,
{
    if forall|k: int| 0 <= k < lines.len() ==> !ends_with_cr(#[trigger] lines[k]) {
        assert(stripped(lines) =~= lines);
    }
    if stripped(lines) == lines {
        assert forall|k: int| 0 <= k < lines.len() implies !ends_with_cr(#[trigger] lines[k]) by {
            assert(stripped(lines)[k] == strip_cr(lines[k]));
        }
    }
}

/// A line behind a marker holds a line feed, or ends with a carriage
/// return, exactly if the line itself does.
pub proof fn lemma_marked_line(marker: char, line: Seq<char>)
    requires
        marker == ' ' || marker == '-' || marker == '+',
    ensures
        is_one_line(line) == is_one_line(seq![marker] + line),
        strip_cr(seq![marker] + line) == seq![marker] + strip_cr(line),
        (seq![marker] + line).len() > 0,
{
    let text = seq![marker] + line;
    if is_one_line(line) {
        assert forall|k: int| 0 <= k < text.len() implies #[trigger] text[k] != '\n' by {
            if k > 0 {
                assert(text[k] == line[k - 1]);
            }
        }
    }
    if is_one_line(text) {
        assert forall|k: int| 0 <= k < line.len() implies #[trigger] line[k] != '\n' by {
            assert(line[k] == text[k + 1]);
        }
    }
    if line.len() > 0 {
        assert(text.last() == line.last());
        assert(text.drop_last() =~= seq![marker] + line.drop_last());
    }
}

/// Lines behind a marker hold no line feed if the lines hold none, and lose
/// their carriage returns as the lines do.
pub proof fn lemma_marked_lines(marker: char, lines: Seq<Seq<char>>)
    requires
        marker == ' ' || marker == '-' || marker == '+',
    ensures
        all_one_line(lines) ==> all_one_line(marked_lines(marker, lines)),
        stripped(marked_lines(marker, lines)) == marked_lines(marker, stripped(lines)),
{
    let text = marked_lines(marker, lines);
    assert forall|k: int| 0 <= k < lines.len() implies #[trigger] stripped(text)[k]
        == marked_lines(marker, stripped(lines))[k] by {
        lemma_marked_line(marker, lines[k]);
    }
    assert(stripped(text) =~= marked_lines(marker, stripped(lines)));
    if all_one_line(lines) {
        assert forall|k: int| 0 <= k < text.len() implies is_one_line(#[trigger] text[k]) by {
            lemma_marked_line(marker, lines[k]);
        }
    }
}

/// Lines that hold no line feed, one after the other, hold none.
pub proof fn lemma_one_line_concat(first: Seq<Seq<char>>, second: Seq<Seq<char>>)
    requires
        all_one_line(first),
        all_one_line(second),
    ensures
        all_one_line(first + second),
{
    let all = first + second;
    assert forall|k: int| 0 <= k < all.len() implies is_one_line(#[trigger] all[k]) by {
        if k < first.len() {
            assert(all[k] == first[k]);
        } else {
            assert(all[k] == second[k - first.len()]);
        }
    }
}

/// The lines of a hunk up to its context after the change hold no line
/// feed if the lines of the hunk hold none, and lose their carriage returns
/// as the lines of the hunk do.
pub proof fn lemma_head_lines(hunk: HunkView, last: bool)
    ensures
        hunk_one_line(hunk) ==> all_one_line(head_lines(hunk)),
        stripped(head_lines(hunk)) == head_lines(written_hunk(hunk, last)),
{
    let header = seq![header_line()];
    let before = marked_lines(' ', hunk.context_before);
    let minus = marked_lines('-', hunk.deletions);
    let plus = marked_lines('+', hunk.additions);
    lemma_marked_lines(' ', hunk.context_before);
    lemma_marked_lines('-', hunk.deletions);
    lemma_marked_lines('+', hunk.additions);
    assert(stripped(header) =~= header);
    lemma_stripped_concat(header, before);
    lemma_stripped_concat(header + before, minus);
    lemma_stripped_concat(header + before + minus, plus);
    if hunk_one_line(hunk) {
        assert(all_one_line(header)) by {
            assert(is_one_line(header_line()));
        }
        lemma_one_line_concat(header, before);
        lemma_one_line_concat(header + before, minus);
        lemma_one_line_concat(header + before + minus, plus);
    }
}

/// The lines of hunks hold no line feed if the lines in the hunks hold
/// none, and lose their carriage returns as the lines in the hunks do.
pub proof fn lemma_text_lines(hunks: Seq<HunkView>)
    ensures
        hunks_one_line(hunks) ==> all_one_line(diff_text_lines(hunks)),
        stripped(diff_text_lines(hunks)) == diff_text_lines(
            Seq::new(hunks.len(), |k: int| written_hunk(hunks[k], false)),
        ),
    decreases hunks.len(),
{
    let plain = Seq::new(hunks.len(), |k: int| written_hunk(hunks[k], false));
    if hunks.len() == 0 {
        assert(stripped(diff_text_lines(hunks)) =~= diff_text_lines(plain));
    } else {
        let front = hunks.drop_last();
        let last = hunks.last();
        let behind = marked_lines(' ', last.context_after);
        lemma_text_lines(front);
        lemma_head_lines(last, false);
        lemma_marked_lines(' ', last.context_after);
        lemma_stripped_concat(head_lines(last), behind);
        lemma_stripped_concat(diff_text_lines(front), hunk_lines(last));
        assert(plain.drop_last() =~= Seq::new(front.len(), |k: int| written_hunk(front[k], false)));
        assert(plain.last() == written_hunk(last, false));
        if hunks_one_line(hunks) {
            assert forall|k: int| 0 <= k < front.len() implies hunk_one_line(
                #[trigger] front[k],
            ) by {
                assert(front[k] == hunks[k]);
            }
            assert(hunk_one_line(hunks[hunks.len() - 1]));
            lemma_one_line_concat(head_lines(last), behind);
            lemma_one_line_concat(diff_text_lines(front), hunk_lines(last));
        }
    }
}

/// The text of a diff starts with the header of its first hunk.
pub proof fn lemma_text_lines_start(hunks: Seq<HunkView>)
    requires
        hunks.len() > 0,
    ensures
        diff_text_lines(hunks).len() > 0,
        diff_text_lines(hunks)[0] == header_line(),
    decreases hunks.len(),
{
    let front = hunks.drop_last();
    let last = hunks.last();
    assert(hunk_lines(last)[0] == header_line());
    if front.len() > 0 {
        lemma_text_lines_start(front);
        assert(diff_text_lines(hunks)[0] == diff_text_lines(front)[0]);
    } else {
        assert(diff_text_lines(front) + hunk_lines(last) == hunk_lines(last));
    }
}

/// The text of a diff whose lines hold no line feed splits into the lines
/// that stand for its hunks, without the carriage returns that fall to the
/// line feeds.
pub proof fn lemma_split_rendered(hunks: Seq<HunkView>)
    requires
        hunks_one_line(hunks),
        hunks.len() > 0,
    ensures
        split_lines(render_spec(hunks)) == diff_text_lines(written(hunks)),
{
    let front = hunks.drop_last();
    let last = hunks.last();
    let all = diff_text_lines(hunks);
    let empty = Seq::<char>::empty();
    let plain = Seq::new(hunks.len(), |k: int| written_hunk(hunks[k], false));
    lemma_text_lines(hunks);
    if last.context_after.len() == 0 {
        lemma_terminated_is_assembled(all);
        lemma_split_terminated(all, empty);
        assert(terminated(all) + empty == terminated(all));
        assert(stripped(all) + split_lines(empty) == stripped(all));
        assert(written(hunks) =~= plain);
    } else {
        let behind = last.context_after;
        let body = marked_lines(' ', behind.drop_last());
        let end = seq![' '] + behind.last();
        let clean = diff_text_lines(front) + (head_lines(last) + body);
        let stripped_front = Seq::new(front.len(), |k: int| written_hunk(front[k], false));
        assert(marked_lines(' ', behind) =~= body.push(end));
        assert(all =~= clean.push(end));
        assert(all.drop_last() == clean);
        lemma_join_by_terminated(all);
        assert(all_one_line(clean)) by {
            assert forall|k: int| 0 <= k < clean.len() implies is_one_line(#[trigger] clean[k]) by {
                assert(clean[k] == all[k]);
            }
        }
        lemma_split_terminated(clean, end);
        assert(is_one_line(all[all.len() - 1]));
        lemma_line_len_is(end, end.len() as int);
        assert(split_lines(end) == seq![end]);
        lemma_text_lines(front);
        lemma_head_lines(last, true);
        lemma_marked_lines(' ', behind.drop_last());
        lemma_stripped_concat(head_lines(last), body);
        lemma_stripped_concat(diff_text_lines(front), head_lines(last) + body);
        let back = written_hunk(last, true);
        assert(written(hunks).drop_last() =~= stripped_front);
        assert(written(hunks).last() == back);
        assert(marked_lines(' ', back.context_after) =~= marked_lines(
            ' ',
            stripped(behind.drop_last()),
        ).push(end));
        assert(diff_text_lines(written(hunks)) =~= stripped(clean) + seq![end]);
    }
}

/// The lines of the hunks that the parser has read hold no line feed where
/// the lines it read them from hold none.
pub proof fn lemma_run_one_line(state: ParseState, lines: Seq<Seq<char>>)
    requires
        all_one_line(lines),
        hunks_one_line(state.hunks()),
        run(state, lines) is Ok,
    ensures
        hunks_one_line(run(state, lines)->Ok_0.hunks()),
    decreases lines.len(),
{
    if lines.len() > 0 {
        let line = lines[0];
        let next = step(state, line)->Ok_0;
        let rest = lines.drop_first();
        assert(is_one_line(line));
        assert(hunks_one_line(next.hunks())) by {
            let before = state.hunks();
            let after = next.hunks();
            if is_header(line) {
                assert forall|k: int| 0 <= k < after.len() implies hunk_one_line(
                    #[trigger] after[k],
                ) by {
                    if k < before.len() {
                        assert(after[k] == before[k]);
                    }
                }
            } else if is_skipped(line) {
            } else {
                let hunk = state.open->0;
                let content = line.skip(1);
                assert(is_one_line(content)) by {
                    assert forall|k: int| 0 <= k < content.len() implies #[trigger] content[k]
                        != '\n' by {
                        assert(content[k] == line[k + 1]);
                    }
                }
                let grown = with_line(hunk, line[0], content);
                assert(hunk == before[before.len() - 1]);
                assert(hunk_one_line(before[before.len() - 1]));
                assert(hunk_one_line(grown)) by {
                    lemma_one_line_concat(hunk.deletions, seq![content]);
                    lemma_one_line_concat(hunk.additions, seq![content]);
                    lemma_one_line_concat(hunk.context_before, seq![content]);
                    lemma_one_line_concat(hunk.context_after, seq![content]);
                    assert(hunk.deletions.push(content) == hunk.deletions + seq![content]);
                    assert(hunk.additions.push(content) == hunk.additions + seq![content]);
                    assert(hunk.context_before.push(content) == hunk.context_before
                        + seq![content]);
                    assert(hunk.context_after.push(content) == hunk.context_after + seq![content]);
                }
                assert forall|k: int| 0 <= k < after.len() implies hunk_one_line(
                    #[trigger] after[k],
                ) by {
                    if k < after.len() - 1 {
                        assert(after[k] == before[k]);
                    }
                }
            }
        }
        assert forall|k: int| 0 <= k < rest.len() implies is_one_line(#[trigger] rest[k]) by {
            assert(rest[k] == lines[k + 1]);
        }
        lemma_run_one_line(next, rest);
    }
}

/// No line of a diff that was read from a text holds a line feed.
pub proof fn lemma_parsed_one_line(text: Seq<char>)
    requires
        parse_spec(text) is Ok,
    ensures
        hunks_one_line(parse_spec(text)->Ok_0),
{
    if parse_spec(text)->Ok_0.len() > 0 {
        lemma_split_lines_one_line(text);
        lemma_run_one_line(ParseState::start(), split_lines(text));
    }
}

} // verus!
