//! What holds of the differ and the patcher together: the laws first, then
//! the lemmas that they rest on.

use crate::differ::{
    diff_from, diff_lines, diff_spec, is_nearest_sync, is_sync, nearest_sync, LOOKAHEAD,
};
use crate::lines::{agree_at, common_run, lemma_common_run, lemma_common_run_is};
use crate::model::{ErrorView, HunkView};
use crate::patcher::{
    anchor, apply_hunks, locate, newline_kept, occurs_at, patch_spec, revert_spec, swapped, Anchor,
};
use crate::text::{assemble, split_lines};
use vstd::prelude::*;

verus! {

/// A text and itself differ in nothing: the diff has no hunk, and applying
/// it leaves the text as it is.
pub proof fn law_equal_texts_have_no_diff(text: Seq<char>)
    ensures
        diff_spec(text, text).len() == 0,
        patch_spec(diff_spec(text, text), text) == Ok::<Seq<char>, ErrorView>(text),
{
    let lines = split_lines(text);
    assert forall|k: int| 0 <= k < lines.len() implies #[trigger] agree_at(
        lines,
        lines,
        0,
        0,
        k,
    ) by {
    }
    lemma_common_run_is(lines, lines, 0, 0, lines.len(), lines.len());
}

/// Diff and patch are inverse: applying the diff of `old` and `new` to
/// `old` gives `new`.
///
/// This holds where the patch applies, that is, where no context of a hunk
/// occurs twice in `old`, and where `new` is written as the patcher writes:
/// as `old` itself where the two have the same lines, and else with line
/// feeds alone between its lines and one at its end exactly where the
/// patcher keeps that of `old`.
pub proof fn law_patch_inverts_diff(old: Seq<char>, new: Seq<char>)
    requires
        patch_spec(diff_spec(old, new), old) is Ok,
        new == if split_lines(old) == split_lines(new) {
            old
        } else {
            assemble(split_lines(new), newline_kept(diff_spec(old, new), old))
        },
    ensures
        patch_spec(diff_spec(old, new), old) == Ok::<Seq<char>, ErrorView>(new),
{
    lemma_patch_of_diff(old, new);
}

/// Revert is the inverse of patch: taking the diff of `old` and `new` back
/// from the text that applying it to `old` gave, gives `old`.
///
/// This holds where the patched text has the lines of `new`, where the
/// revert applies, that is, where no context of a hunk occurs twice in the
/// patched text, and where `old` is written as the patcher writes: with
/// line feeds alone between its lines and one at its end exactly where the
/// patcher keeps that of the patched text.
pub proof fn law_revert_inverts_patch(old: Seq<char>, new: Seq<char>, patched: Seq<char>)
    requires
        patch_spec(diff_spec(old, new), old) == Ok::<Seq<char>, ErrorView>(patched),
        split_lines(patched) == split_lines(new),
        revert_spec(diff_spec(old, new), patched) is Ok,
        split_lines(old) != split_lines(new) ==> old == assemble(
            split_lines(old),
            newline_kept(swapped(diff_spec(old, new)), patched),
        ),
    ensures
        revert_spec(diff_spec(old, new), patched) == Ok::<Seq<char>, ErrorView>(old),
{
    lemma_patch_of_diff(old, new);
    lemma_revert_of_diff(old, new, patched);
}

/// A hunk is applied only at a place that is beyond doubt: where `locate`
/// gives a line, that line is at or after the cursor, the context of the
/// hunk stands there and nowhere else from the cursor on, and the lines
/// that the hunk deletes follow it, word for word.
pub proof fn law_located_hunk_fits(hunk: HunkView, lines: Seq<Seq<char>>, from: int, at: int)
    requires
        0 <= from <= lines.len(),
        locate(hunk, lines, from) == Ok::<int, ErrorView>(at),
    ensures
        from <= at,
        occurs_at(lines, hunk.context_before, at),
        forall|other: int|
            from <= other && hunk.context_before.len() > 0 && #[trigger] occurs_at(
                lines,
                hunk.context_before,
                other,
            ) ==> other == at,
        occurs_at(lines, hunk.deletions, at + hunk.context_before.len()),
{
    let context = hunk.context_before;
    let start = at + context.len();
    let d = hunk.deletions.len();
    if context.len() == 0 {
        assert(lines.subrange(at, at) =~= context);
    } else {
        assert forall|other: int| from <= other && #[trigger] occurs_at(
            lines,
            context,
            other,
        ) implies other == at by {
            if other < at {
                assert(occurs_at(lines, context, other) && occurs_at(lines, context, at));
            } else if at < other {
                assert(occurs_at(lines, context, at) && occurs_at(lines, context, other));
            }
        }
    }
    lemma_common_run(lines, hunk.deletions, start, 0, d);
    assert forall|k: int| 0 <= k < d implies #[trigger] lines.subrange(start, start + d)[k]
        == hunk.deletions[k] by {
        assert(agree_at(lines, hunk.deletions, start, 0, k));
    }
    assert(lines.subrange(start, start + d) =~= hunk.deletions);
}

/// No hunk of a diff is empty: each deletes or adds a line. None carries
/// context after its change.
pub proof fn law_diff_hunks_change(old: Seq<char>, new: Seq<char>)
    ensures
        forall|k: int|
            0 <= k < diff_spec(old, new).len() ==> (#[trigger] diff_spec(old, new)[k]).has_changes()
                && diff_spec(old, new)[k].context_after.len() == 0,
{
    let a = split_lines(old);
    let b = split_lines(new);
    let shared = common_run(a, b, 0, 0, a.len()) as int;
    lemma_common_run(a, b, 0, 0, a.len());
    lemma_diff_from_changes(a, b, shared, shared, a.take(shared));
}

/// The diff of a text without lines and a text with lines is one hunk that
/// adds these lines, and nothing else.
pub proof fn law_diff_from_nothing(old: Seq<char>, new: Seq<char>)
    requires
        split_lines(old).len() == 0,
        split_lines(new).len() > 0,
    ensures
        diff_spec(old, new) == seq![
            HunkView {
                context_before: Seq::empty(),
                deletions: Seq::empty(),
                additions: split_lines(new),
                context_after: Seq::empty(),
            },
        ],
{
    let a = split_lines(old);
    let b = split_lines(new);
    assert forall|d: (int, int)| !#[trigger] is_sync(a, b, 0, 0, d) by {
    }
    let hunk = diff_spec(old, new)[0];
    assert(hunk.context_before =~= Seq::<Seq<char>>::empty());
    assert(hunk.deletions =~= Seq::<Seq<char>>::empty());
    assert(hunk.additions =~= b);
}

/// The diff of a text with lines and a text without lines is one hunk that
/// deletes these lines, and nothing else.
pub proof fn law_diff_to_nothing(old: Seq<char>, new: Seq<char>)
    requires
        split_lines(old).len() > 0,
        split_lines(new).len() == 0,
    ensures
        diff_spec(old, new) == seq![
            HunkView {
                context_before: Seq::empty(),
                deletions: split_lines(old),
                additions: Seq::empty(),
                context_after: Seq::empty(),
            },
        ],
{
    let a = split_lines(old);
    let b = split_lines(new);
    assert forall|d: (int, int)| !#[trigger] is_sync(a, b, 0, 0, d) by {
    }
    let hunk = diff_spec(old, new)[0];
    assert(hunk.context_before =~= Seq::<Seq<char>>::empty());
    assert(hunk.additions =~= Seq::<Seq<char>>::empty());
    assert(hunk.deletions =~= a);
}

/// Applying the diff of two texts to the first of them fails only where
/// the context of a hunk occurs more than once in it. Where it does not
/// fail, it writes the lines of the second text: the first text itself
/// where their lines are the same, and else these lines joined by line
/// feeds, with one more at the end as the patcher decides.
pub proof fn lemma_patch_of_diff(old: Seq<char>, new: Seq<char>)
    ensures
        match patch_spec(diff_spec(old, new), old) {
            Ok(text) => text == if split_lines(old) == split_lines(new) {
                old
            } else {
                assemble(split_lines(new), newline_kept(diff_spec(old, new), old))
            },
            Err(e) => e is AmbiguousMatch,
        },
{
    let a = split_lines(old);
    let b = split_lines(new);
    let hunks = diff_spec(old, new);
    lemma_no_hunks_iff_same_lines(a, b);
    if hunks.len() > 0 {
        lemma_diff_lines_describes(a, b);
        lemma_described_deletions(hunks, a, b, 0, 0);
        lemma_apply_described(hunks, a, b, 0, 0);
        assert(b.skip(0) == b);
    }
}

/// Taking the diff of two texts back from a text that has the lines of the
/// second fails only where the context of a hunk occurs more than once in
/// it. Where it does not fail, it writes the lines of the first text.
pub proof fn lemma_revert_of_diff(old: Seq<char>, new: Seq<char>, patched: Seq<char>)
    requires
        split_lines(patched) == split_lines(new),
    ensures
        match revert_spec(diff_spec(old, new), patched) {
            Ok(text) => text == if split_lines(old) == split_lines(new) {
                patched
            } else {
                assemble(split_lines(old), newline_kept(swapped(diff_spec(old, new)), patched))
            },
            Err(e) => e is AmbiguousMatch,
        },
{
    let a = split_lines(old);
    let b = split_lines(new);
    let hunks = diff_spec(old, new);
    let backwards = swapped(hunks);
    lemma_no_hunks_iff_same_lines(a, b);
    if hunks.len() > 0 {
        lemma_diff_lines_describes(a, b);
        lemma_swapped_describes(hunks, a, b, 0, 0);
        lemma_described_deletions(backwards, b, a, 0, 0);
        lemma_apply_described(backwards, b, a, 0, 0);
        assert(a.skip(0) == a);
    }
}

/// Whether the hunks account for all that differs between `source` from
/// line `i` and `target` from line `j`: each hunk's context stands at the
/// cursor in both, its deletions follow in `source` and its additions in
/// `target`, and after the last hunk both hold the same lines.
pub open spec fn describes(
    hunks: Seq<HunkView>,
    source: Seq<Seq<char>>,
    target: Seq<Seq<char>>,
    i: int,
    j: int,
) -> bool
    decreases hunks.len(),
{
    if hunks.len() == 0 {
        0 <= i <= source.len() && 0 <= j <= target.len() && source.skip(i) == target.skip(j)
    } else {
        let hunk = hunks[0];
        let kept_i = i + hunk.context_before.len();
        let kept_j = j + hunk.context_before.len();
        &&& 0 <= i
        &&& 0 <= j
        &&& kept_i + hunk.deletions.len() <= source.len()
        &&& kept_j + hunk.additions.len() <= target.len()
        &&& source.subrange(i, kept_i) == hunk.context_before
        &&& target.subrange(j, kept_j) == hunk.context_before
        &&& source.subrange(kept_i, kept_i + hunk.deletions.len()) == hunk.deletions
        &&& target.subrange(kept_j, kept_j + hunk.additions.len()) == hunk.additions
        &&& describes(
            hunks.drop_first(),
            source,
            target,
            kept_i + hunk.deletions.len(),
            kept_j + hunk.additions.len(),
        )
    }
}

/// The hunks that the differ makes for what remains of two texts describe
/// what differs between them from the start of the context handed on.
pub proof fn lemma_diff_describes(
    old: Seq<Seq<char>>,
    new: Seq<Seq<char>>,
    i: int,
    j: int,
    context: Seq<Seq<char>>,
)
    requires
        context.len() <= i <= old.len(),
        context.len() <= j <= new.len(),
        old.subrange(i - context.len(), i) == context,
        new.subrange(j - context.len(), j) == context,
    ensures
        describes(
            diff_from(old, new, i, j, context),
            old,
            new,
            i - context.len(),
            j - context.len(),
        ),
    decreases old.len() - i + new.len() - j,
{
    let hunks = diff_from(old, new, i, j, context);
    let c = context.len() as int;
    if i >= old.len() && j >= new.len() {
        assert(old.skip(i - c) == context);
        assert(new.skip(j - c) == context);
    } else {
        match nearest_sync(old, new, i, j) {
            Some(d) => {
                assert(is_nearest_sync(old, new, i, j, d));
                let from_old = i + d.0;
                let from_new = j + d.1;
                let run = common_run(old, new, from_old, from_new, LOOKAHEAD as nat) as int;
                lemma_common_run(old, new, from_old, from_new, LOOKAHEAD as nat);
                let next = old.subrange(from_old, from_old + run);
                let rest = diff_from(old, new, from_old + run, from_new + run, next);
                assert(hunks.drop_first() == rest);
                assert(new.subrange(from_new, from_new + run) == next) by {
                    assert forall|k: int| 0 <= k < run implies #[trigger] new.subrange(
                        from_new,
                        from_new + run,
                    )[k] == next[k] by {
                        assert(agree_at(old, new, from_old, from_new, k));
                    }
                    assert(new.subrange(from_new, from_new + run) =~= next);
                }
                lemma_diff_describes(old, new, from_old + run, from_new + run, next);
                assert(hunks[0].deletions == old.subrange(i, from_old));
                assert(hunks[0].additions == new.subrange(j, from_new));
                assert(describes(hunks, old, new, i - c, j - c));
            },
            None => {
                assert(hunks.drop_first() == Seq::<HunkView>::empty());
                assert(old.skip(old.len() as int) == new.skip(new.len() as int));
                assert(hunks[0].deletions == old.subrange(i, old.len() as int));
                assert(hunks[0].additions == new.subrange(j, new.len() as int));
                assert(describes(hunks.drop_first(), old, new, old.len() as int, new.len() as int));
                assert(describes(hunks, old, new, i - c, j - c));
            },
        }
    }
}

/// The hunks that the differ makes for two texts describe what differs
/// between them.
pub proof fn lemma_diff_lines_describes(old: Seq<Seq<char>>, new: Seq<Seq<char>>)
    ensures
        describes(diff_lines(old, new), old, new, 0, 0),
{
    let shared = common_run(old, new, 0, 0, old.len()) as int;
    lemma_common_run(old, new, 0, 0, old.len());
    assert(new.subrange(0, shared) == old.take(shared)) by {
        assert forall|k: int| 0 <= k < shared implies #[trigger] new.subrange(0, shared)[k]
            == old.take(shared)[k] by {
            assert(agree_at(old, new, 0, 0, k));
        }
        assert(new.subrange(0, shared) =~= old.take(shared));
    }
    lemma_diff_describes(old, new, shared, shared, old.take(shared));
}

/// Hunks that describe what differs between two texts describe it in the
/// other direction when they are read backwards.
pub proof fn lemma_swapped_describes(
    hunks: Seq<HunkView>,
    source: Seq<Seq<char>>,
    target: Seq<Seq<char>>,
    i: int,
    j: int,
)
    requires
        describes(hunks, source, target, i, j),
    ensures
        describes(swapped(hunks), target, source, j, i),
    decreases hunks.len(),
{
    if hunks.len() > 0 {
        let hunk = hunks[0];
        assert(swapped(hunks).drop_first() == swapped(hunks.drop_first()));
        lemma_swapped_describes(
            hunks.drop_first(),
            source,
            target,
            i + hunk.context_before.len() + hunk.deletions.len(),
            j + hunk.context_before.len() + hunk.additions.len(),
        );
    }
}

/// Hunks that describe what differs between two texts delete lines of the
/// first only: none where it has none left.
pub proof fn lemma_described_deletions(
    hunks: Seq<HunkView>,
    source: Seq<Seq<char>>,
    target: Seq<Seq<char>>,
    i: int,
    j: int,
)
    requires
        describes(hunks, source, target, i, j),
    ensures
        forall|k: int|
            0 <= k < hunks.len() ==> (#[trigger] hunks[k]).deletions.len() <= source.len() - i,
    decreases hunks.len(),
{
    if hunks.len() > 0 {
        let hunk = hunks[0];
        let rest = hunks.drop_first();
        lemma_described_deletions(
            rest,
            source,
            target,
            i + hunk.context_before.len() + hunk.deletions.len(),
            j + hunk.context_before.len() + hunk.additions.len(),
        );
        assert forall|k: int| 0 <= k < hunks.len() implies (#[trigger] hunks[k]).deletions.len()
            <= source.len() - i by {
            if k > 0 {
                assert(hunks[k] == rest[k - 1]);
            }
        }
    }
}

/// Applying hunks to the text whose change they describe fails only where a
/// context occurs more than once, and else writes the other text.
pub proof fn lemma_apply_described(
    hunks: Seq<HunkView>,
    source: Seq<Seq<char>>,
    target: Seq<Seq<char>>,
    i: int,
    j: int,
)
    requires
        describes(hunks, source, target, i, j),
    ensures
        match apply_hunks(hunks, source, i) {
            Ok(applied) => applied.lines + source.skip(applied.end) == target.skip(j) && i
                <= applied.end <= source.len(),
            Err(e) => e is AmbiguousMatch,
        },
    decreases hunks.len(),
{
    if hunks.len() == 0 {
        assert(Seq::<Seq<char>>::empty() + source.skip(i) == source.skip(i));
    } else {
        let hunk = hunks[0];
        let context = hunk.context_before;
        let c = context.len() as int;
        let d = hunk.deletions.len() as int;
        let a = hunk.additions.len() as int;
        let start = i + c;
        assert(occurs_at(source, context, i));
        if anchor(source, context, i) != Anchor::Ambiguous {
            if c > 0 {
                let chosen = choose|at: int| i <= at && occurs_at(source, context, at);
                assert(chosen == i) by {
                    if i < chosen {
                        assert(occurs_at(source, context, i) && occurs_at(source, context, chosen));
                    }
                }
            }
            assert(anchor(source, context, i) == Anchor::At(i));
            assert forall|k: int| 0 <= k < d implies #[trigger] agree_at(
                source,
                hunk.deletions,
                start,
                0,
                k,
            ) by {
                assert(source.subrange(start, start + d)[k] == source[start + k]);
            }
            lemma_common_run_is(source, hunk.deletions, start, 0, d as nat, d as nat);
            assert(locate(hunk, source, i) == Ok::<int, ErrorView>(i));
            let rest = hunks.drop_first();
            lemma_apply_described(rest, source, target, start + d, start - i + j + a);
            match apply_hunks(rest, source, start + d) {
                Ok(applied) => {
                    let written = source.subrange(i, start) + hunk.additions;
                    assert(written + applied.lines + source.skip(applied.end) == written + (
                    applied.lines + source.skip(applied.end)));
                    assert(target.subrange(j, j + c) + target.subrange(j + c, j + c + a)
                        + target.skip(j + c + a) == target.skip(j));
                },
                Err(e) => {},
            }
        }
    }
}

/// The differ makes no hunk exactly where the two texts have the same
/// lines.
pub proof fn lemma_no_hunks_iff_same_lines(old: Seq<Seq<char>>, new: Seq<Seq<char>>)
    ensures
        diff_lines(old, new).len() == 0 <==> old == new,
{
    let shared = common_run(old, new, 0, 0, old.len()) as int;
    lemma_common_run(old, new, 0, 0, old.len());
    if old == new {
        assert forall|k: int| 0 <= k < old.len() implies #[trigger] agree_at(old, new, 0, 0, k) by {
        }
        lemma_common_run_is(old, new, 0, 0, old.len(), old.len());
    }
    if diff_lines(old, new).len() == 0 {
        assert(shared >= old.len() && shared >= new.len());
        assert forall|k: int| 0 <= k < old.len() implies old[k] == new[k] by {
            assert(agree_at(old, new, 0, 0, k));
        }
        assert(old =~= new);
    }
}

/// Every hunk that the differ makes for what remains of two texts deletes
/// or adds a line, and carries no context after its change: the lines that
/// follow a change are the context of the next hunk.
pub proof fn lemma_diff_from_changes(
    old: Seq<Seq<char>>,
    new: Seq<Seq<char>>,
    i: int,
    j: int,
    context: Seq<Seq<char>>,
)
    requires
        0 <= i <= old.len(),
        0 <= j <= new.len(),
    ensures
        forall|k: int|
            0 <= k < diff_from(old, new, i, j, context).len() ==> (#[trigger] diff_from(
                old,
                new,
                i,
                j,
                context,
            )[k]).has_changes() && diff_from(old, new, i, j, context)[k].context_after.len() == 0,
    decreases old.len() - i + new.len() - j,
{
    let hunks = diff_from(old, new, i, j, context);
    if i >= old.len() && j >= new.len() {
    } else {
        match nearest_sync(old, new, i, j) {
            Some(d) => {
                assert(is_nearest_sync(old, new, i, j, d));
                let from_old = i + d.0;
                let from_new = j + d.1;
                let run = common_run(old, new, from_old, from_new, LOOKAHEAD as nat) as int;
                lemma_common_run(old, new, from_old, from_new, LOOKAHEAD as nat);
                let next = old.subrange(from_old, from_old + run);
                let rest = diff_from(old, new, from_old + run, from_new + run, next);
                lemma_diff_from_changes(old, new, from_old + run, from_new + run, next);
                assert forall|k: int| 0 <= k < hunks.len() implies (
                #[trigger] hunks[k]).has_changes() && hunks[k].context_after.len() == 0 by {
                    if k > 0 {
                        assert(hunks[k] == rest[k - 1]);
                    }
                }
            },
            None => {},
        }
    }
}

} // verus!
