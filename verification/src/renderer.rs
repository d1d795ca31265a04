//! The renderer: writes a diff in its textual form.

use crate::model::{FuDiff, HunkView};
use crate::text::{
    assemble, lemma_join_by_terminated, lemma_terminated_concat, lemma_terminated_is_assembled,
    terminated,
};
use vstd::prelude::*;
use vstd::string::StringExecFns;

verus! {

/// The line that opens a hunk, as the renderer writes it.
pub open spec fn header_line() -> Seq<char> {
    seq!['@', '@', ' ', '@', '@']
}

/// The lines, each behind the character that marks its kind.
pub open spec fn marked_lines(marker: char, lines: Seq<Seq<char>>) -> Seq<Seq<char>> {
    Seq::new(lines.len(), |k: int| seq![marker] + lines[k])
}

/// The lines of text that stand for one hunk: the header, the context
/// before behind a space, the deletions behind `-`, the additions behind
/// `+`, and the context after behind a space.
pub open spec fn hunk_lines(hunk: HunkView) -> Seq<Seq<char>> {
    seq![header_line()] + marked_lines(' ', hunk.context_before) + marked_lines(
        '-',
        hunk.deletions,
    ) + marked_lines('+', hunk.additions) + marked_lines(' ', hunk.context_after)
}

/// The lines of text that stand for the hunks, in order.
pub open spec fn diff_text_lines(hunks: Seq<HunkView>) -> Seq<Seq<char>>
    decreases hunks.len(),
{
    if hunks.len() == 0 {
        Seq::empty()
    } else {
        diff_text_lines(hunks.drop_last()) + hunk_lines(hunks.last())
    }
}

/// The text of a diff: nothing for no hunks, else the lines of all hunks,
/// each ended by a line feed, but for one: where the last hunk has context
/// after its change, the last line of that context ends the text without a
/// line feed.
pub open spec fn render_spec(hunks: Seq<HunkView>) -> Seq<char> {
    if hunks.len() == 0 {
        Seq::empty()
    } else {
        assemble(diff_text_lines(hunks), hunks.last().context_after.len() == 0)
    }
}

/// Writes the lines `lines[from..to]` to `out`, each behind `marker` and
/// ended by a line feed.
fn write_marked(out: &mut String, marker: char, lines: &Vec<String>, from: usize, to: usize)
    requires
        from <= to <= lines.len(),
    ensures
        final(out)@ == old(out)@ + terminated(
            marked_lines(marker, lines.deep_view().subrange(from as int, to as int)),
        ),
{
    let ghost before = out@;
    let ghost all = lines.deep_view();
    let mut k: usize = from;
    proof {
        assert(all.subrange(from as int, from as int) =~= Seq::<Seq<char>>::empty());
        assert(marked_lines(marker, Seq::<Seq<char>>::empty()) =~= Seq::<Seq<char>>::empty());
        assert(before + terminated(Seq::<Seq<char>>::empty()) == before);
    }
    while k < to
        invariant
            from <= k <= to <= lines.len(),
            all == lines.deep_view(),
            out@ == before + terminated(marked_lines(marker, all.subrange(from as int, k as int))),
        decreases to - k,
    {
        let ghost start = out@;
        out.push(marker);
        out.append(lines[k].as_str());
        out.push('\n');
        proof {
            let done = marked_lines(marker, all.subrange(from as int, k as int));
            let next = marked_lines(marker, all.subrange(from as int, k + 1));
            assert(next.drop_last() =~= done);
            assert(next.last() == seq![marker] + all[k as int]);
            assert(out@ == start + (seq![marker] + all[k as int]).push('\n'));
            assert(before + terminated(done) + next.last().push('\n') == before + (terminated(done)
                + next.last().push('\n')));
        }
        k += 1;
    }
}

impl FuDiff {
    /// Writes the diff in its textual form.
    pub fn render(&self) -> (text: String)
        ensures
            text@ == render_spec(self@),
    {
        let ghost hunks = self@;
        let n = self.hunks.len();
        let mut out = String::new();
        let mut k: usize = 0;
        while k < n
            invariant
                k <= n,
                n == self.hunks.len(),
                hunks == self@,
                k < n ==> out@ == terminated(diff_text_lines(hunks.take(k as int))),
                k == n ==> out@ == render_spec(hunks),
            decreases n - k,
        {
            let hunk = &self.hunks[k];
            let ghost view = hunk@;
            let ghost done = diff_text_lines(hunks.take(k as int));
            let ghost start = out@;
            out.append("@@ @@\n");
            write_marked(&mut out, ' ', &hunk.context_before, 0, hunk.context_before.len());
            write_marked(&mut out, '-', &hunk.deletions, 0, hunk.deletions.len());
            write_marked(&mut out, '+', &hunk.additions, 0, hunk.additions.len());
            let ghost head = seq![header_line()] + marked_lines(' ', view.context_before)
                + marked_lines('-', view.deletions) + marked_lines('+', view.additions);
            proof {
                reveal_strlit("@@ @@\n");
                assert("@@ @@\n"@ =~= header_line().push('\n'));
                assert(terminated(seq![header_line()]) == header_line().push('\n')) by {
                    assert(seq![header_line()].drop_last() =~= Seq::<Seq<char>>::empty());
                    assert(terminated(Seq::<Seq<char>>::empty()) + header_line().push('\n')
                        == header_line().push('\n'));
                }
                assert(view.context_before.subrange(0, view.context_before.len() as int)
                    == view.context_before);
                assert(view.deletions.subrange(0, view.deletions.len() as int) == view.deletions);
                assert(view.additions.subrange(0, view.additions.len() as int) == view.additions);
                let l0 = seq![header_line()];
                let l1 = marked_lines(' ', view.context_before);
                let l2 = marked_lines('-', view.deletions);
                let l3 = marked_lines('+', view.additions);
                lemma_terminated_concat(l0, l1);
                lemma_terminated_concat(l0 + l1, l2);
                lemma_terminated_concat(l0 + l1 + l2, l3);
                lemma_terminated_concat(done, head);
                assert(out@ == start + terminated(l0) + terminated(l1) + terminated(l2)
                    + terminated(l3));
                assert(out@ == terminated(done) + terminated(head)) by {
                    assert(start + terminated(l0) + terminated(l1) + terminated(l2) + terminated(l3)
                        =~= start + (terminated(l0) + terminated(l1) + terminated(l2) + terminated(
                        l3,
                    )));
                }
                assert(hunks.take(k + 1).drop_last() == hunks.take(k as int));
                assert(hunks.take(k + 1).last() == view);
                assert(diff_text_lines(hunks.take(k + 1)) == done + (head + marked_lines(
                    ' ',
                    view.context_after,
                ))) by {
                    assert(hunk_lines(view) == head + marked_lines(' ', view.context_after));
                }
                assert(done + (head + marked_lines(' ', view.context_after)) == (done + head)
                    + marked_lines(' ', view.context_after));
            }
            let ghost upto = done + head;
            let trailing = hunk.context_after.len();
            if k + 1 < n || trailing == 0 {
                write_marked(&mut out, ' ', &hunk.context_after, 0, trailing);
                proof {
                    let l4 = marked_lines(' ', view.context_after);
                    assert(view.context_after.subrange(0, trailing as int) == view.context_after);
                    lemma_terminated_concat(upto, l4);
                    if k + 1 == n {
                        assert(hunks.take(n as int) == hunks);
                        assert(hunks.last() == view);
                        lemma_terminated_is_assembled(diff_text_lines(hunks));
                    }
                }
            } else {
                write_marked(&mut out, ' ', &hunk.context_after, 0, trailing - 1);
                out.push(' ');
                out.append(hunk.context_after[trailing - 1].as_str());
                proof {
                    let l4 = marked_lines(' ', view.context_after);
                    let front = marked_lines(' ', view.context_after.subrange(0, trailing - 1));
                    assert(l4.drop_last() =~= front);
                    assert(l4.last() == seq![' '] + view.context_after[trailing - 1]);
                    let all = upto + l4;
                    assert(all.drop_last() =~= upto + front);
                    assert(all.last() == l4.last());
                    lemma_terminated_concat(upto, front);
                    lemma_join_by_terminated(all);
                    assert(hunks.take(n as int) == hunks);
                    assert(hunks.last() == view);
                    assert(out@ == terminated(upto) + terminated(front) + l4.last());
                }
            }
            k += 1;
        }
        proof {
            if n == 0 {
                assert(hunks.take(0) =~= Seq::<HunkView>::empty());
            }
        }
        out
    }
}

} // verus!
