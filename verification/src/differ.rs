//! The differ: a greedy comparison of two texts, line by line, that looks a
//! bounded number of lines ahead for the place where they meet again.

use crate::model::{FuDiff, Hunk, HunkView};
use crate::lines::{
    agree_at, common_run, copy_lines, lemma_common_run, lemma_common_run_is, push_line, same_line,
};
use crate::text::{lines_of, split_lines};
use vstd::prelude::*;

verus! {

/// How many lines ahead, in each text, the differ looks for the next line
/// that the two texts share. It is also the most context lines that follow
/// a change.
pub const LOOKAHEAD: usize = 3;

/// The offsets that the search for a shared line tries: each at most
/// `LOOKAHEAD`, and not both zero.
pub open spec fn in_window(d: (int, int)) -> bool {
    0 <= d.0 <= LOOKAHEAD && 0 <= d.1 <= LOOKAHEAD && (d.0 > 0 || d.1 > 0)
}

/// The order in which offsets are tried: by their sum, and among equal sums
/// by the offset into the old text.
pub open spec fn nearer(d: (int, int), e: (int, int)) -> bool {
    d.0 + d.1 < e.0 + e.1 || (d.0 + d.1 == e.0 + e.1 && d.0 < e.0)
}

/// Whether the texts meet at the offsets `d` from lines `i` and `j`.
pub open spec fn is_sync(
    old: Seq<Seq<char>>,
    new: Seq<Seq<char>>,
    i: int,
    j: int,
    d: (int, int),
) -> bool {
    in_window(d) && same_line(old, new, i + d.0, j + d.1)
}

/// Whether `d` is the first of the offsets, in the order of the search, at
/// which the texts meet.
pub open spec fn is_nearest_sync(
    old: Seq<Seq<char>>,
    new: Seq<Seq<char>>,
    i: int,
    j: int,
    d: (int, int),
) -> bool {
    &&& is_sync(old, new, i, j, d)
    &&& forall|e: (int, int)| #[trigger] is_sync(old, new, i, j, e) ==> !nearer(e, d)
}

/// The offsets at which the texts first meet again, if they do within the
/// window.
pub open spec fn nearest_sync(
    old: Seq<Seq<char>>,
    new: Seq<Seq<char>>,
    i: int,
    j: int,
) -> Option<(int, int)> {
    if exists|d: (int, int)| is_nearest_sync(old, new, i, j, d) {
        Some(choose|d: (int, int)| is_nearest_sync(old, new, i, j, d))
    } else {
        None
    }
}

/// The hunks for what remains of the two texts from lines `i` and `j`, where
/// `context` holds the shared lines that directly precede them.
///
/// Where the texts meet again within the window, the lines skipped in each
/// become one hunk, and the shared lines that follow, `LOOKAHEAD` at most,
/// are handed on as the context of the next hunk. Where they do not, all
/// that remains of both becomes the last hunk.
pub open spec fn diff_from(
    old: Seq<Seq<char>>,
    new: Seq<Seq<char>>,
    i: int,
    j: int,
    context: Seq<Seq<char>>,
) -> Seq<HunkView>
    decreases old.len() - i + new.len() - j,
{
    if i >= old.len() && j >= new.len() {
        Seq::empty()
    } else {
        match nearest_sync(old, new, i, j) {
            Some(d) => {
                let run = common_run(old, new, i + d.0, j + d.1, LOOKAHEAD as nat) as int;
                proof {
                    lemma_common_run(old, new, i + d.0, j + d.1, LOOKAHEAD as nat);
                }
                seq![
                    HunkView {
                        context_before: context,
                        deletions: old.subrange(i, i + d.0),
                        additions: new.subrange(j, j + d.1),
                        context_after: Seq::empty(),
                    },
                ] + diff_from(
                    old,
                    new,
                    i + d.0 + run,
                    j + d.1 + run,
                    old.subrange(i + d.0, i + d.0 + run),
                )
            },
            None => seq![
                HunkView {
                    context_before: context,
                    deletions: old.subrange(i, old.len() as int),
                    additions: new.subrange(j, new.len() as int),
                    context_after: Seq::empty(),
                },
            ],
        }
    }
}

/// The hunks that turn the lines `old` into the lines `new`: the lines that
/// both start with become the context of the first hunk.
pub open spec fn diff_lines(old: Seq<Seq<char>>, new: Seq<Seq<char>>) -> Seq<HunkView> {
    let shared = common_run(old, new, 0, 0, old.len()) as int;
    diff_from(old, new, shared, shared, old.take(shared))
}

/// The hunks that turn the text `old` into the text `new`.
pub open spec fn diff_spec(old: Seq<char>, new: Seq<char>) -> Seq<HunkView> {
    diff_lines(split_lines(old), split_lines(new))
}

/// Searches the window for the nearest offsets at which the texts meet.
fn find_sync(old: &Vec<String>, new: &Vec<String>, i: usize, j: usize) -> (found: Option<
    (usize, usize),
>)
    requires
        i <= old.len(),
        j <= new.len(),
    ensures
        match found {
            Some(d) => nearest_sync(old.deep_view(), new.deep_view(), i as int, j as int) == Some(
                (d.0 as int, d.1 as int),
            ),
            None => nearest_sync(old.deep_view(), new.deep_view(), i as int, j as int) is None,
        },
{
    let ghost a = old.deep_view();
    let ghost b = new.deep_view();
    let mut sum: usize = 1;
    while sum <= 2 * LOOKAHEAD
        invariant
            1 <= sum <= 2 * LOOKAHEAD + 1,
            i <= old.len(),
            j <= new.len(),
            a == old.deep_view(),
            b == new.deep_view(),
            forall|e: (int, int)|
                e.0 + e.1 < sum ==> !#[trigger] is_sync(a, b, i as int, j as int, e),
        decreases 2 * LOOKAHEAD + 1 - sum,
    {
        let mut di: usize = if sum > LOOKAHEAD {
            sum - LOOKAHEAD
        } else {
            0
        };
        while di <= LOOKAHEAD && di <= sum
            invariant
                1 <= sum <= 2 * LOOKAHEAD,
                sum <= di + LOOKAHEAD,
                di <= sum + 1,
                i <= old.len(),
                j <= new.len(),
                a == old.deep_view(),
                b == new.deep_view(),
                forall|e: (int, int)|
                    e.0 + e.1 < sum ==> !#[trigger] is_sync(a, b, i as int, j as int, e),
                forall|e: (int, int)|
                    e.0 + e.1 == sum && e.0 < di ==> !#[trigger] is_sync(
                        a,
                        b,
                        i as int,
                        j as int,
                        e,
                    ),
            decreases LOOKAHEAD + 1 - di,
        {
            let dj: usize = sum - di;
            if di < old.len() - i && dj < new.len() - j && old[i + di] == new[j + dj] {
                proof {
                    let d = (di as int, dj as int);
                    assert(is_sync(a, b, i as int, j as int, d));
                    lemma_nearest_sync_is(a, b, i as int, j as int, d);
                }
                return Some((di, dj));
            }
            di += 1;
        }
        sum += 1;
    }
    proof {
        lemma_nearest_sync_none(a, b, i as int, j as int);
    }
    None
}

impl FuDiff {
    /// Computes the diff that turns the text `old` into the text `new`.
    pub fn diff(old: &str, new: &str) -> (diff: FuDiff)
        ensures
            diff@ == diff_spec(old@, new@),
    {
        let old_lines = lines_of(old);
        let new_lines = lines_of(new);
        let ghost a = old_lines.deep_view();
        let ghost b = new_lines.deep_view();
        let mut hunks: Vec<Hunk> = Vec::new();
        let mut context: Vec<String> = Vec::new();
        let mut i: usize = 0;
        while i < old_lines.len() && i < new_lines.len() && old_lines[i] == new_lines[i]
            invariant
                i <= old_lines.len(),
                i <= new_lines.len(),
                a == old_lines.deep_view(),
                b == new_lines.deep_view(),
                context.deep_view() == a.take(i as int),
                forall|k: int| 0 <= k < i ==> #[trigger] agree_at(a, b, 0, 0, k),
            decreases old_lines.len() - i,
        {
            push_line(&mut context, old_lines[i].clone());
            assert(agree_at(a, b, 0, 0, i as int));
            i += 1;
            assert(context.deep_view() =~= a.take(i as int));
        }
        proof {
            lemma_common_run_is(a, b, 0, 0, a.len(), i as nat);
        }
        let mut j: usize = i;
        let ghost mut done: Seq<HunkView> = Seq::empty();
        while i < old_lines.len() || j < new_lines.len()
            invariant
                i <= old_lines.len(),
                j <= new_lines.len(),
                a == old_lines.deep_view(),
                b == new_lines.deep_view(),
                a == split_lines(old@),
                b == split_lines(new@),
                hunks.len() == done.len(),
                forall|k: int| 0 <= k < hunks.len() ==> (#[trigger] hunks[k])@ == done[k],
                diff_lines(a, b) == done + diff_from(a, b, i as int, j as int, context.deep_view()),
            decreases old_lines.len() - i + new_lines.len() - j,
        {
            let ghost before = context.deep_view();
            match find_sync(&old_lines, &new_lines, i, j) {
                Some((di, dj)) => {
                    let deletions = copy_lines(&old_lines, i, i + di);
                    let additions = copy_lines(&new_lines, j, j + dj);
                    let from_old: usize = i + di;
                    let from_new: usize = j + dj;
                    let mut run: usize = 0;
                    let mut next_context: Vec<String> = Vec::new();
                    while run < LOOKAHEAD && run < old_lines.len() - from_old && run
                        < new_lines.len() - from_new && old_lines[from_old + run]
                        == new_lines[from_new + run]
                        invariant
                            run <= LOOKAHEAD,
                            from_old <= old_lines.len(),
                            from_new <= new_lines.len(),
                            run <= old_lines.len() - from_old,
                            run <= new_lines.len() - from_new,
                            a == old_lines.deep_view(),
                            b == new_lines.deep_view(),
                            next_context.deep_view() == a.subrange(
                                from_old as int,
                                from_old + run,
                            ),
                            forall|k: int|
                                0 <= k < run ==> #[trigger] agree_at(
                                    a,
                                    b,
                                    from_old as int,
                                    from_new as int,
                                    k,
                                ),
                        decreases LOOKAHEAD - run,
                    {
                        push_line(&mut next_context, old_lines[from_old + run].clone());
                        assert(agree_at(a, b, from_old as int, from_new as int, run as int));
                        run += 1;
                        assert(next_context.deep_view() =~= a.subrange(
                            from_old as int,
                            from_old + run,
                        ));
                    }
                    proof {
                        lemma_common_run_is(
                            a,
                            b,
                            from_old as int,
                            from_new as int,
                            LOOKAHEAD as nat,
                            run as nat,
                        );
                    }
                    let hunk = Hunk {
                        context_before: context,
                        deletions,
                        additions,
                        context_after: Vec::new(),
                    };
                    proof {
                        assert(hunk.context_after.deep_view() =~= Seq::<Seq<char>>::empty());
                        assert(done + (seq![hunk@] + diff_from(
                            a,
                            b,
                            from_old + run,
                            from_new + run,
                            next_context.deep_view(),
                        )) == done.push(hunk@) + diff_from(
                            a,
                            b,
                            from_old + run,
                            from_new + run,
                            next_context.deep_view(),
                        ));
                        done = done.push(hunk@);
                    }
                    hunks.push(hunk);
                    context = next_context;
                    i = from_old + run;
                    j = from_new + run;
                },
                None => {
                    let deletions = copy_lines(&old_lines, i, old_lines.len());
                    let additions = copy_lines(&new_lines, j, new_lines.len());
                    let hunk = Hunk {
                        context_before: context,
                        deletions,
                        additions,
                        context_after: Vec::new(),
                    };
                    proof {
                        assert(hunk.context_after.deep_view() =~= Seq::<Seq<char>>::empty());
                        assert(diff_from(a, b, i as int, j as int, before) == seq![hunk@]);
                        assert(done + seq![hunk@] == done.push(hunk@));
                        done = done.push(hunk@);
                    }
                    hunks.push(hunk);
                    let diff = FuDiff { hunks };
                    assert(diff@ =~= done);
                    return diff;
                },
            }
        }
        let diff = FuDiff { hunks };
        proof {
            assert(done + Seq::<HunkView>::empty() == done);
            assert(diff@ =~= done);
        }
        diff
    }
}

/// At most one pair of offsets is the nearest at which the texts meet, and
/// `nearest_sync` is that pair.
pub proof fn lemma_nearest_sync_is(
    old: Seq<Seq<char>>,
    new: Seq<Seq<char>>,
    i: int,
    j: int,
    d: (int, int),
)
    requires
        is_nearest_sync(old, new, i, j, d),
    ensures
        nearest_sync(old, new, i, j) == Some(d),
{
    let e = choose|e: (int, int)| is_nearest_sync(old, new, i, j, e);
    assert(is_sync(old, new, i, j, e));
    assert(is_sync(old, new, i, j, d));
    assert(!nearer(e, d) && !nearer(d, e));
}

/// Where no offsets in the window make the texts meet, there is no nearest.
pub proof fn lemma_nearest_sync_none(old: Seq<Seq<char>>, new: Seq<Seq<char>>, i: int, j: int)
    requires
        forall|e: (int, int)| !#[trigger] is_sync(old, new, i, j, e),
    ensures
        nearest_sync(old, new, i, j) is None,
{
}

} // verus!
