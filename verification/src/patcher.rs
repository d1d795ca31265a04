//! The patcher: applies the hunks of a diff to a text, in order, after it
//! has found each by its context and checked the lines it deletes.

use crate::lines::{agree_at, append_lines, common_run, copy_lines, lemma_common_run_is};
use crate::message::{
    ambiguous_context_error, ambiguous_context_message, debug_lines, debug_of_lines,
    mismatch_error, mismatch_message, missing_context_error, missing_context_message,
};
use crate::model::{text_result, Error, ErrorView, FuDiff, Hunk, HunkView};
use crate::text::{
    assemble, assemble_text, chars_of, ends_with_newline, lines_of_chars, split_lines,
};
use vstd::prelude::*;
use vstd::string::StringExecFns;

verus! {

/// Whether the lines `context` stand in `lines` from line `at` on.
pub open spec fn occurs_at(lines: Seq<Seq<char>>, context: Seq<Seq<char>>, at: int) -> bool {
    0 <= at && at + context.len() <= lines.len() && lines.subrange(at, at + context.len())
        == context
}

/// Where a hunk is to be applied.
pub enum Anchor {
    /// At this line: the one place from the cursor on where the context
    /// stands, or the cursor itself for a hunk without context.
    At(int),
    /// Nowhere: the context does not occur from the cursor on.
    Missing,
    /// Undecided: the context occurs more than once from the cursor on.
    Ambiguous,
}

/// Looks for `context` in `lines` from line `from` on. Every place counts,
/// so that a context that occurs twice is never resolved by taking the
/// first.
pub open spec fn anchor(lines: Seq<Seq<char>>, context: Seq<Seq<char>>, from: int) -> Anchor {
    if context.len() == 0 {
        Anchor::At(from)
    } else if forall|at: int| from <= at ==> !occurs_at(lines, context, at) {
        Anchor::Missing
    } else if exists|at: int, other: int|
        from <= at < other && occurs_at(lines, context, at) && occurs_at(lines, context, other) {
        Anchor::Ambiguous
    } else {
        Anchor::At(choose|at: int| from <= at && occurs_at(lines, context, at))
    }
}

/// The line at which `hunk` applies to `lines` when the cursor is at line
/// `from`, or the error that stops the patch: the context is missing or
/// ambiguous, the deletions run past the end of the text, or one of them
/// differs from the line that stands in its place.
pub open spec fn locate(hunk: HunkView, lines: Seq<Seq<char>>, from: int) -> Result<
    int,
    ErrorView,
> {
    match anchor(lines, hunk.context_before, from) {
        Anchor::Missing => Err(
            ErrorView::Apply(missing_context_message(debug_lines(hunk.context_before))),
        ),
        Anchor::Ambiguous => Err(
            ErrorView::AmbiguousMatch(
                ambiguous_context_message(debug_lines(hunk.context_before)),
            ),
        ),
        Anchor::At(at) => {
            let start = at + hunk.context_before.len();
            let same = common_run(lines, hunk.deletions, start, 0, hunk.deletions.len());
            if start + hunk.deletions.len() > lines.len() {
                Err(ErrorView::Apply("Deletion extends past end of file"@))
            } else if same < hunk.deletions.len() {
                Err(
                    ErrorView::Apply(
                        mismatch_message(
                            (start + same + 1) as nat,
                            hunk.deletions[same as int],
                            lines[start + same],
                        ),
                    ),
                )
            } else {
                Ok(at)
            }
        },
    }
}

/// What applying hunks has written, and how far it has read.
pub struct Applied {
    /// The lines written so far.
    pub lines: Seq<Seq<char>>,
    /// The cursor: the number of lines of the text that are dealt with.
    pub end: int,
}

/// What has been written, followed by what is still to be written.
pub open spec fn after(written: Seq<Seq<char>>, rest: Result<Applied, ErrorView>) -> Result<
    Applied,
    ErrorView,
> {
    match rest {
        Ok(applied) => Ok(Applied { lines: written + applied.lines, end: applied.end }),
        Err(e) => Err(e),
    }
}

/// Applies the hunks to `lines`, in order, with the cursor at line `from`.
/// Each hunk copies the lines from the cursor up to the end of its context,
/// writes its additions, and moves the cursor past its deletions.
pub open spec fn apply_hunks(hunks: Seq<HunkView>, lines: Seq<Seq<char>>, from: int) -> Result<
    Applied,
    ErrorView,
>
    decreases hunks.len(),
{
    if hunks.len() == 0 {
        Ok(Applied { lines: Seq::empty(), end: from })
    } else {
        match locate(hunks[0], lines, from) {
            Err(e) => Err(e),
            Ok(at) => {
                let kept = at + hunks[0].context_before.len();
                after(
                    lines.subrange(from, kept) + hunks[0].additions,
                    apply_hunks(hunks.drop_first(), lines, kept + hunks[0].deletions.len()),
                )
            },
        }
    }
}

/// Whether any of the hunks deletes a line.
pub open spec fn deletes_lines(hunks: Seq<HunkView>) -> bool {
    exists|k: int| 0 <= k < hunks.len() && #[trigger] hunks[k].deletions.len() > 0
}

/// Whether a last hunk that left the cursor at line `end` of `total` has
/// deleted the last line of the text and put nothing in its place.
pub open spec fn drops_last_line(last: HunkView, end: int, total: int) -> bool {
    last.deletions.len() > 0 && end == total && last.additions.len() == 0
        && last.context_after.len() == 0
}

/// Whether the patched text ends with a line feed: the input does, and the
/// last hunk has not deleted its last line and put nothing in its place.
pub open spec fn newline_kept(hunks: Seq<HunkView>, input: Seq<char>) -> bool {
    let lines = split_lines(input);
    ends_with_newline(input) && !drops_last_line(
        hunks.last(),
        apply_hunks(hunks, lines, 0)->Ok_0.end,
        lines.len() as int,
    )
}

/// The text that results from applying `hunks` to `input`, or the error
/// that stops the patch.
///
/// Without hunks the text stays as it is. An empty text takes additions
/// only. Otherwise the hunks are applied in order, the lines after the last
/// of them are copied, and the result ends with a line feed if the input
/// did, unless the last hunk has deleted the last line of the text and put
/// nothing in its place.
pub open spec fn patch_spec(hunks: Seq<HunkView>, input: Seq<char>) -> Result<
    Seq<char>,
    ErrorView,
> {
    let lines = split_lines(input);
    if hunks.len() == 0 {
        Ok(input)
    } else if lines.len() == 0 && deletes_lines(hunks) {
        Err(ErrorView::Apply("Cannot apply patch to empty input"@))
    } else {
        match apply_hunks(hunks, lines, 0) {
            Err(e) => Err(e),
            Ok(applied) => Ok(
                assemble(applied.lines + lines.skip(applied.end), newline_kept(hunks, input)),
            ),
        }
    }
}

/// The hunks read backwards, each with its additions and deletions
/// exchanged.
pub open spec fn swapped(hunks: Seq<HunkView>) -> Seq<HunkView> {
    Seq::new(hunks.len(), |k: int| hunks[k].swapped())
}

/// The text that results from taking back `hunks` from `input`, a text to
/// which they were applied: the patch with the hunks read backwards.
pub open spec fn revert_spec(hunks: Seq<HunkView>, input: Seq<char>) -> Result<
    Seq<char>,
    ErrorView,
> {
    patch_spec(swapped(hunks), input)
}

/// Whether `context` stands in `lines` at line `at`, where it fits.
fn stands_at(lines: &Vec<String>, context: &Vec<String>, at: usize) -> (found: bool)
    requires
        at + context.len() <= lines.len(),
    ensures
        found == occurs_at(lines.deep_view(), context.deep_view(), at as int),
{
    let ghost a = lines.deep_view();
    let ghost c = context.deep_view();
    let mut k: usize = 0;
    while k < context.len()
        invariant
            k <= context.len(),
            at + context.len() <= lines.len(),
            a == lines.deep_view(),
            c == context.deep_view(),
            forall|m: int| 0 <= m < k ==> a[at + m] == #[trigger] c[m],
        decreases context.len() - k,
    {
        if lines[at + k] != context[k] {
            assert(a.subrange(at as int, at + c.len())[k as int] == a[at + k]);
            return false;
        }
        k += 1;
    }
    assert(a.subrange(at as int, at + c.len()) =~= c);
    true
}

/// The outcome of the search for a context.
enum Search {
    At(usize),
    Missing,
    Ambiguous,
}

/// Searches `lines` from line `from` on for every place where `context`
/// stands.
fn find_anchor(lines: &Vec<String>, context: &Vec<String>, from: usize) -> (found: Search)
    requires
        from <= lines.len(),
    ensures
        match found {
            Search::At(at) => anchor(lines.deep_view(), context.deep_view(), from as int)
                == Anchor::At(at as int) && from <= at && at + context.len() <= lines.len(),
            Search::Missing => anchor(lines.deep_view(), context.deep_view(), from as int)
                == Anchor::Missing,
            Search::Ambiguous => anchor(lines.deep_view(), context.deep_view(), from as int)
                == Anchor::Ambiguous,
        },
{
    let ghost a = lines.deep_view();
    let ghost c = context.deep_view();
    if context.len() == 0 {
        return Search::At(from);
    }
    if context.len() > lines.len() - from {
        return Search::Missing;
    }
    let last: usize = lines.len() - context.len();
    let mut at: usize = from;
    let mut seen: Option<usize> = None;
    while at <= last
        invariant
            from <= at <= last + 1,
            last + context.len() == lines.len(),
            context.len() > 0,
            a == lines.deep_view(),
            c == context.deep_view(),
            match seen {
                Some(first) => from <= first < at && occurs_at(a, c, first as int),
                None => true,
            },
            forall|p: int|
                from <= p < at && seen != Some(p as usize) ==> !#[trigger] occurs_at(a, c, p),
        decreases last + 1 - at,
    {
        if stands_at(lines, context, at) {
            match seen {
                Some(first) => {
                    assert(occurs_at(a, c, first as int) && occurs_at(a, c, at as int));
                    return Search::Ambiguous;
                },
                None => {
                    seen = Some(at);
                },
            }
        }
        at += 1;
    }
    match seen {
        Some(first) => {
            assert(occurs_at(a, c, first as int));
            assert forall|p: int, q: int|
                from <= p < q && occurs_at(a, c, p) implies !occurs_at(a, c, q) by {
                if occurs_at(a, c, q) {
                    assert(p < at && q < at);
                }
            }
            let ghost chosen = choose|p: int| from <= p && occurs_at(a, c, p);
            assert(chosen == first) by {
                if chosen < first {
                    assert(!occurs_at(a, c, first as int));
                } else if first < chosen {
                    assert(!occurs_at(a, c, chosen));
                }
            }
            Search::At(first)
        },
        None => Search::Missing,
    }
}

/// Finds where `hunk` applies, and checks the lines it deletes.
fn locate_hunk(hunk: &Hunk, lines: &Vec<String>, from: usize) -> (found: Result<usize, Error>)
    requires
        from <= lines.len(),
    ensures
        match found {
            Ok(at) => locate(hunk@, lines.deep_view(), from as int) == Ok::<int, ErrorView>(
                at as int,
            ) && from <= at && at + hunk.context_before.len() + hunk.deletions.len()
                <= lines.len(),
            Err(e) => locate(hunk@, lines.deep_view(), from as int) == Err::<int, ErrorView>(e@),
        },
{
    let ghost a = lines.deep_view();
    let ghost d = hunk.deletions.deep_view();
    match find_anchor(lines, &hunk.context_before, from) {
        Search::Missing => {
            let context = debug_of_lines(&hunk.context_before);
            Err(missing_context_error(context.as_str()))
        },
        Search::Ambiguous => {
            let context = debug_of_lines(&hunk.context_before);
            Err(ambiguous_context_error(context.as_str()))
        },
        Search::At(at) => {
            let start: usize = at + hunk.context_before.len();
            if hunk.deletions.len() > lines.len() - start {
                return Err(Error::Apply(String::from_str("Deletion extends past end of file")));
            }
            let mut k: usize = 0;
            while k < hunk.deletions.len()
                invariant
                    k <= hunk.deletions.len(),
                    start == at + hunk.context_before.len(),
                    start + hunk.deletions.len() <= lines.len(),
                    a == lines.deep_view(),
                    d == hunk.deletions.deep_view(),
                    anchor(a, hunk@.context_before, from as int) == Anchor::At(at as int),
                    forall|m: int| 0 <= m < k ==> #[trigger] agree_at(a, d, start as int, 0, m),
                decreases hunk.deletions.len() - k,
            {
                if lines[start + k] != hunk.deletions[k] {
                    proof {
                        assert(a[start + k] == lines[start + k]@);
                        assert(d[k as int] == hunk.deletions[k as int]@);
                        lemma_common_run_is(a, d, start as int, 0, d.len(), k as nat);
                    }
                    return Err(
                        mismatch_error(
                            start + k + 1,
                            hunk.deletions[k].as_str(),
                            lines[start + k].as_str(),
                        ),
                    );
                }
                assert(agree_at(a, d, start as int, 0, k as int));
                k += 1;
            }
            proof {
                lemma_common_run_is(a, d, start as int, 0, d.len(), d.len());
            }
            Ok(at)
        },
    }
}

impl FuDiff {
    /// Whether any hunk of the diff deletes a line.
    fn deletes_lines(&self) -> (any: bool)
        ensures
            any == deletes_lines(self@),
    {
        let mut k: usize = 0;
        while k < self.hunks.len()
            invariant
                k <= self.hunks.len(),
                forall|m: int| 0 <= m < k ==> (#[trigger] self@[m]).deletions.len() == 0,
            decreases self.hunks.len() - k,
        {
            if self.hunks[k].deletions.len() > 0 {
                assert(self@[k as int].deletions.len() > 0);
                return true;
            }
            k += 1;
        }
        false
    }

    /// Applies the diff to `input` and returns the patched text, or the
    /// error that tells why the diff does not fit.
    pub fn patch(&self, input: &str) -> (patched: Result<String, Error>)
        ensures
            text_result(patched) == patch_spec(self@, input@),
    {
        if self.hunks.len() == 0 {
            return Ok(String::from_str(input));
        }
        let chars = chars_of(input);
        let lines = lines_of_chars(&chars);
        if lines.len() == 0 && self.deletes_lines() {
            return Err(Error::Apply(String::from_str("Cannot apply patch to empty input")));
        }
        let ghost hunks = self@;
        let ghost a = lines.deep_view();
        let mut written: Vec<String> = Vec::new();
        let mut cursor: usize = 0;
        let mut k: usize = 0;
        assert(apply_hunks(hunks, a, 0) == after(
            written.deep_view(),
            apply_hunks(hunks.skip(0), a, 0),
        )) by {
            assert(hunks.skip(0) == hunks);
            assert(written.deep_view() =~= Seq::<Seq<char>>::empty());
            if apply_hunks(hunks, a, 0) is Ok {
                let applied = apply_hunks(hunks, a, 0)->Ok_0;
                assert(written.deep_view() + applied.lines == applied.lines);
            }
        }
        while k < self.hunks.len()
            invariant
                k <= self.hunks.len(),
                cursor <= lines.len(),
                hunks == self@,
                hunks.len() == self.hunks.len(),
                a == lines.deep_view(),
                a == split_lines(input@),
                !(a.len() == 0 && deletes_lines(hunks)),
                apply_hunks(hunks, a, 0) == after(
                    written.deep_view(),
                    apply_hunks(hunks.skip(k as int), a, cursor as int),
                ),
            decreases self.hunks.len() - k,
        {
            let hunk = &self.hunks[k];
            let ghost before = written.deep_view();
            assert(hunks.skip(k as int)[0] == hunk@);
            assert(hunks.skip(k as int).drop_first() == hunks.skip(k + 1));
            match locate_hunk(hunk, &lines, cursor) {
                Err(e) => {
                    return Err(e);
                },
                Ok(at) => {
                    let kept: usize = at + hunk.context_before.len();
                    append_lines(&mut written, &lines, cursor, kept);
                    append_lines(&mut written, &hunk.additions, 0, hunk.additions.len());
                    proof {
                        let next = kept + hunk.deletions.len();
                        let chunk = a.subrange(cursor as int, kept as int) + hunk@.additions;
                        assert(hunk@.additions.subrange(0, hunk@.additions.len() as int)
                            == hunk@.additions);
                        assert(written.deep_view() == before + chunk);
                        let rest = apply_hunks(hunks.skip(k + 1), a, next);
                        assert(apply_hunks(hunks.skip(k as int), a, cursor as int) == after(
                            chunk,
                            rest,
                        ));
                        if rest is Ok {
                            let tail = rest->Ok_0.lines;
                            assert(before + (chunk + tail) == (before + chunk) + tail);
                        }
                    }
                    cursor = kept + hunk.deletions.len();
                    k += 1;
                },
            }
        }
        let ghost applied = apply_hunks(hunks, a, 0)->Ok_0;
        assert(applied.end == cursor && applied.lines =~= written.deep_view());
        append_lines(&mut written, &lines, cursor, lines.len());
        assert(a.subrange(cursor as int, a.len() as int) == a.skip(cursor as int));
        let last = &self.hunks[self.hunks.len() - 1];
        assert(hunks.last() == last@);
        let input_newline = chars.len() > 0 && chars[chars.len() - 1] == '\n';
        let dropped = last.deletions.len() > 0 && cursor == lines.len() && last.additions.len()
            == 0 && last.context_after.len() == 0;
        Ok(assemble_text(&written, input_newline && !dropped))
    }

    /// Takes the diff back from `input`, a text to which it was applied:
    /// applies the diff in which every hunk has its additions and deletions
    /// exchanged.
    pub fn revert(&self, input: &str) -> (reverted: Result<String, Error>)
        ensures
            text_result(reverted) == revert_spec(self@, input@),
    {
        let mut hunks: Vec<Hunk> = Vec::new();
        let mut k: usize = 0;
        while k < self.hunks.len()
            invariant
                k <= self.hunks.len(),
                hunks.len() == k,
                forall|m: int| 0 <= m < k ==> (#[trigger] hunks[m])@ == self@[m].swapped(),
            decreases self.hunks.len() - k,
        {
            let hunk = &self.hunks[k];
            hunks.push(
                Hunk {
                    context_before: copy_lines(&hunk.context_before, 0, hunk.context_before.len()),
                    deletions: copy_lines(&hunk.additions, 0, hunk.additions.len()),
                    additions: copy_lines(&hunk.deletions, 0, hunk.deletions.len()),
                    context_after: copy_lines(&hunk.context_after, 0, hunk.context_after.len()),
                },
            );
            proof {
                let made = hunks[k as int]@;
                let want = self@[k as int].swapped();
                assert(made.context_before =~= want.context_before);
                assert(made.deletions =~= want.deletions);
                assert(made.additions =~= want.additions);
                assert(made.context_after =~= want.context_after);
            }
            k += 1;
        }
        let backwards = FuDiff { hunks };
        assert(backwards@ =~= swapped(self@));
        backwards.patch(input)
    }
}

} // verus!
