//! The provisos of the laws of diff, patch and revert are needed: where a
//! law holds of given texts, these texts meet what the law asks of them.
//!
//! The proofs weigh lines by the room they take in a text. Splitting a text
//! that was made of lines never adds to their size, and keeps it only if it
//! gives the same lines back; applying hunks changes the size by what the
//! hunks add and delete.

use crate::differ::diff_spec;
use crate::laws::{
    describes, law_located_hunk_fits, lemma_diff_lines_describes, lemma_no_hunks_iff_same_lines,
    lemma_patch_of_diff, lemma_revert_of_diff, lemma_swapped_describes,
};
use crate::model::{ErrorView, HunkView};
use crate::patcher::{apply_hunks, locate, newline_kept, patch_spec, revert_spec, swapped};
use crate::text::{
    all_one_line, assemble, is_one_line, lemma_join_by_terminated, lemma_line_len_is,
    lemma_split_lines_one_line, lemma_split_terminated, lemma_terminated_concat,
    lemma_terminated_is_assembled, split_lines, strip_cr, stripped, terminated,
};
use vstd::prelude::*;

verus! {

/// Where applying the diff of two texts to the first gives the second, the
/// second is written as the law of diff and patch asks.
pub proof fn lemma_patch_needs_written_form(old: Seq<char>, new: Seq<char>)
    requires
        patch_spec(diff_spec(old, new), old) == Ok::<Seq<char>, ErrorView>(new),
    ensures
        new == if split_lines(old) == split_lines(new) {
            old
        } else {
            assemble(split_lines(new), newline_kept(diff_spec(old, new), old))
        },
{
    lemma_patch_of_diff(old, new);
}

/// Where taking the diff of two texts back from the patched text gives the
/// first of them, the patched text has the lines of the second, and the
/// first is written as the patcher writes: the law of revert and patch asks
/// for nothing that is not needed.
pub proof fn lemma_revert_needs_same_lines(old: Seq<char>, new: Seq<char>, patched: Seq<char>)
    requires
        patch_spec(diff_spec(old, new), old) == Ok::<Seq<char>, ErrorView>(patched),
        revert_spec(diff_spec(old, new), patched) == Ok::<Seq<char>, ErrorView>(old),
    ensures
        split_lines(patched) == split_lines(new),
        split_lines(old) != split_lines(new) ==> old == assemble(
            split_lines(old),
            newline_kept(swapped(diff_spec(old, new)), patched),
        ),
{
    let a = split_lines(old);
    let b = split_lines(new);
    let t = split_lines(patched);
    let hunks = diff_spec(old, new);
    let backwards = swapped(hunks);
    lemma_no_hunks_iff_same_lines(a, b);
    lemma_patch_of_diff(old, new);
    if hunks.len() > 0 {
        lemma_split_lines_one_line(old);
        lemma_split_lines_one_line(new);
        lemma_split_lines_one_line(patched);
        lemma_resplit_size(b, newline_kept(hunks, old));
        lemma_diff_lines_describes(a, b);
        lemma_swapped_describes(hunks, a, b, 0, 0);
        lemma_described_sizes(backwards, b, a, 0, 0);
        lemma_swapped_sizes(hunks);
        assert(a.skip(0) == a);
        assert(b.skip(0) == b);
        assert(t.skip(0) == t);
        let applied = apply_hunks(backwards, t, 0)->Ok_0;
        lemma_applied_size(backwards, t, 0);
        let written = applied.lines + t.skip(applied.end);
        lemma_size_concat(applied.lines, t.skip(applied.end));
        assert(all_one_line(written)) by {
            assert forall|k: int| 0 <= k < written.len() implies is_one_line(
                #[trigger] written[k],
            ) by {
                if k < applied.lines.len() {
                    assert(written[k] == applied.lines[k]);
                } else {
                    assert(written[k] == t[applied.end + k - applied.lines.len()]);
                }
            }
        }
        lemma_resplit_size(written, newline_kept(backwards, patched));
    }
    assert(t == b);
    lemma_revert_of_diff(old, new, patched);
}

/// The size of lines as text: the number of their characters, and one more
/// for each line.
pub open spec fn text_size(lines: Seq<Seq<char>>) -> nat {
    terminated(lines).len()
}

/// The size of all that the hunks delete.
pub open spec fn deleted_size(hunks: Seq<HunkView>) -> nat
    decreases hunks.len(),
{
    if hunks.len() == 0 {
        0
    } else {
        text_size(hunks[0].deletions) + deleted_size(hunks.drop_first())
    }
}

/// The size of all that the hunks add.
pub open spec fn added_size(hunks: Seq<HunkView>) -> nat
    decreases hunks.len(),
{
    if hunks.len() == 0 {
        0
    } else {
        text_size(hunks[0].additions) + added_size(hunks.drop_first())
    }
}

/// Whether none of the lines that the hunks add holds a line feed.
pub open spec fn adds_one_line(hunks: Seq<HunkView>) -> bool {
    forall|k: int| 0 <= k < hunks.len() ==> all_one_line(#[trigger] hunks[k].additions)
}

/// The size of lines one after the other is the sum of their sizes.
pub proof fn lemma_size_concat(first: Seq<Seq<char>>, second: Seq<Seq<char>>)
    ensures
        text_size(first + second) == text_size(first) + text_size(second),
{
    lemma_terminated_concat(first, second);
}

/// The size of a sequence of lines is the size of any part at its start and
/// the size of what follows that part.
pub proof fn lemma_size_parts(lines: Seq<Seq<char>>, from: int, upto: int)
    requires
        0 <= from <= upto <= lines.len(),
    ensures
        text_size(lines.skip(from)) == text_size(lines.subrange(from, upto)) + text_size(
            lines.skip(upto),
        ),
{
    assert(lines.skip(from) == lines.subrange(from, upto) + lines.skip(upto));
    lemma_size_concat(lines.subrange(from, upto), lines.skip(upto));
}

/// Lines without the carriage returns at their ends are no larger, and as
/// large only if none ended with one.
pub proof fn lemma_stripped_size(lines: Seq<Seq<char>>)
    ensures
        text_size(stripped(lines)) <= text_size(lines),
        text_size(stripped(lines)) == text_size(lines) ==> stripped(lines) == lines,
    decreases lines.len(),
{
    if lines.len() == 0 {
        assert(stripped(lines) =~= lines);
    } else {
        let front = lines.drop_last();
        let last = lines.last();
        lemma_stripped_size(front);
        assert(stripped(lines).drop_last() =~= stripped(front));
        assert(stripped(lines).last() == strip_cr(last));
        if text_size(stripped(lines)) == text_size(lines) {
            assert(strip_cr(last) == last);
            assert(stripped(lines) =~= stripped(front).push(strip_cr(last)));
            assert(front.push(last) == lines);
        }
    }
}

/// Splitting the text made of lines gives lines that are no larger, and as
/// large only if they are the same lines.
pub proof fn lemma_resplit_size(lines: Seq<Seq<char>>, newline: bool)
    requires
        all_one_line(lines),
    ensures
        text_size(split_lines(assemble(lines, newline))) <= text_size(lines),
        text_size(split_lines(assemble(lines, newline))) == text_size(lines) ==> split_lines(
            assemble(lines, newline),
        ) == lines,
{
    let empty = Seq::<char>::empty();
    let none = Seq::<Seq<char>>::empty();
    if lines.len() == 0 {
        assert(split_lines(assemble(lines, newline)) =~= lines);
    } else if newline {
        lemma_terminated_is_assembled(lines);
        lemma_split_terminated(lines, empty);
        assert(terminated(lines) + empty == terminated(lines));
        assert(stripped(lines) + split_lines(empty) == stripped(lines));
        lemma_stripped_size(lines);
    } else {
        let front = lines.drop_last();
        let last = lines.last();
        lemma_join_by_terminated(lines);
        assert forall|k: int| 0 <= k < front.len() implies is_one_line(#[trigger] front[k]) by {
            assert(front[k] == lines[k]);
        }
        lemma_split_terminated(front, last);
        lemma_stripped_size(front);
        assert(is_one_line(lines[lines.len() - 1]));
        lemma_line_len_is(last, last.len() as int);
        assert(front.push(last) == lines);
        lemma_size_concat(stripped(front), split_lines(last));
        if last.len() == 0 {
            assert(split_lines(last) == none);
            assert(terminated(none).len() == 0);
        } else {
            assert(split_lines(last) == seq![last]);
            assert(seq![last].drop_last() == none);
            assert(terminated(seq![last]) == terminated(none) + last.push('\n'));
            if text_size(split_lines(assemble(lines, newline))) == text_size(lines) {
                assert(stripped(front) + seq![last] == lines);
            }
        }
    }
}

/// Hunks read backwards delete what they added, and add what they deleted.
pub proof fn lemma_swapped_sizes(hunks: Seq<HunkView>)
    ensures
        deleted_size(swapped(hunks)) == added_size(hunks),
        added_size(swapped(hunks)) == deleted_size(hunks),
    decreases hunks.len(),
{
    if hunks.len() > 0 {
        assert(swapped(hunks).drop_first() == swapped(hunks.drop_first()));
        lemma_swapped_sizes(hunks.drop_first());
    }
}

/// Two texts of which hunks describe the change are of the same size once
/// what the hunks delete is taken from the one and what they add from the
/// other. And the hunks delete lines of the one and add lines of the other.
pub proof fn lemma_described_sizes(
    hunks: Seq<HunkView>,
    source: Seq<Seq<char>>,
    target: Seq<Seq<char>>,
    i: int,
    j: int,
)
    requires
        describes(hunks, source, target, i, j),
    ensures
        text_size(source.skip(i)) + added_size(hunks) == text_size(target.skip(j)) + deleted_size(
            hunks,
        ),
        all_one_line(target) ==> adds_one_line(hunks),
    decreases hunks.len(),
{
    if hunks.len() > 0 {
        let hunk = hunks[0];
        let rest = hunks.drop_first();
        let c = hunk.context_before.len() as int;
        let d = hunk.deletions.len() as int;
        let a = hunk.additions.len() as int;
        lemma_described_sizes(rest, source, target, i + c + d, j + c + a);
        lemma_size_parts(source, i, i + c);
        lemma_size_parts(source, i + c, i + c + d);
        lemma_size_parts(target, j, j + c);
        lemma_size_parts(target, j + c, j + c + a);
        if all_one_line(target) {
            assert forall|k: int| 0 <= k < hunks.len() implies all_one_line(
                #[trigger] hunks[k].additions,
            ) by {
                if k > 0 {
                    assert(hunks[k] == rest[k - 1]);
                } else {
                    assert forall|m: int| 0 <= m < a implies is_one_line(
                        #[trigger] hunk.additions[m],
                    ) by {
                        assert(hunk.additions[m] == target[j + c + m]);
                    }
                }
            }
        }
    }
}

/// Applying hunks changes the size of a text by what they add and delete,
/// and writes no line feed into a line.
pub proof fn lemma_applied_size(hunks: Seq<HunkView>, lines: Seq<Seq<char>>, from: int)
    requires
        0 <= from <= lines.len(),
        apply_hunks(hunks, lines, from) is Ok,
    ensures
        from <= apply_hunks(hunks, lines, from)->Ok_0.end <= lines.len(),
        text_size(apply_hunks(hunks, lines, from)->Ok_0.lines) + text_size(
            lines.skip(apply_hunks(hunks, lines, from)->Ok_0.end),
        ) + deleted_size(hunks) == text_size(lines.skip(from)) + added_size(hunks),
        all_one_line(lines) && adds_one_line(hunks) ==> all_one_line(
            apply_hunks(hunks, lines, from)->Ok_0.lines,
        ),
    decreases hunks.len(),
{
    let none = Seq::<Seq<char>>::empty();
    if hunks.len() == 0 {
        assert(terminated(none).len() == 0);
    } else {
        let hunk = hunks[0];
        let rest = hunks.drop_first();
        let at = locate(hunk, lines, from)->Ok_0;
        law_located_hunk_fits(hunk, lines, from, at);
        let kept = at + hunk.context_before.len();
        let next = kept + hunk.deletions.len();
        let copied = lines.subrange(from, kept);
        lemma_applied_size(rest, lines, next);
        let tail = apply_hunks(rest, lines, next)->Ok_0;
        lemma_size_parts(lines, from, kept);
        lemma_size_parts(lines, kept, next);
        lemma_size_concat(copied, hunk.additions);
        lemma_size_concat(copied + hunk.additions, tail.lines);
        if all_one_line(lines) && adds_one_line(hunks) {
            assert(all_one_line(hunks[0].additions));
            assert forall|k: int| 0 <= k < rest.len() implies all_one_line(
                #[trigger] rest[k].additions,
            ) by {
                assert(rest[k] == hunks[k + 1]);
            }
            let written = copied + hunk.additions + tail.lines;
            assert forall|k: int| 0 <= k < written.len() implies is_one_line(
                #[trigger] written[k],
            ) by {
                if k < copied.len() {
                    assert(written[k] == lines[from + k]);
                } else if k < copied.len() + hunk.additions.len() {
                    assert(written[k] == hunk.additions[k - copied.len()]);
                } else {
                    assert(written[k] == tail.lines[k - copied.len() - hunk.additions.len()]);
                }
            }
        }
    }
}

} // verus!
