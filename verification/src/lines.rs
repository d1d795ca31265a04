//! Sequences of lines: comparing two of them line by line, and copying.

use vstd::prelude::*;

verus! {

/// Whether line `i` of `old` and line `j` of `new` both exist and are equal.
pub open spec fn same_line(old: Seq<Seq<char>>, new: Seq<Seq<char>>, i: int, j: int) -> bool {
    0 <= i < old.len() && 0 <= j < new.len() && old[i] == new[j]
}

/// Whether the lines `k` further on, line `i + k` of `old` and line `j + k`
/// of `new`, both exist and are equal.
pub open spec fn agree_at(
    old: Seq<Seq<char>>,
    new: Seq<Seq<char>>,
    i: int,
    j: int,
    k: int,
) -> bool {
    same_line(old, new, i + k, j + k)
}

/// The number of lines, `limit` at most, on which `old` from line `i` and
/// `new` from line `j` agree before they first differ or one of them ends.
pub open spec fn common_run(
    old: Seq<Seq<char>>,
    new: Seq<Seq<char>>,
    i: int,
    j: int,
    limit: nat,
) -> nat
    decreases limit,
{
    if limit > 0 && same_line(old, new, i, j) {
        1 + common_run(old, new, i + 1, j + 1, (limit - 1) as nat)
    } else {
        0
    }
}

/// Appends one line to a vector of lines.
pub(crate) fn push_line(lines: &mut Vec<String>, line: String)
    ensures
        final(lines).deep_view() == old(lines).deep_view().push(line@),
{
    lines.push(line);
    assert(lines.deep_view() =~= old(lines).deep_view().push(line@));
}

/// Appends copies of the lines `source[from..to]` to `target`.
pub(crate) fn append_lines(target: &mut Vec<String>, source: &Vec<String>, from: usize, to: usize)
    requires
        from <= to <= source.len(),
    ensures
        final(target).deep_view() == old(target).deep_view() + source.deep_view().subrange(
            from as int,
            to as int,
        ),
{
    let ghost before = target.deep_view();
    let ghost all = source.deep_view();
    let mut k: usize = from;
    assert(before + all.subrange(from as int, from as int) == before);
    while k < to
        invariant
            from <= k <= to <= source.len(),
            all == source.deep_view(),
            target.deep_view() == before + all.subrange(from as int, k as int),
        decreases to - k,
    {
        push_line(target, source[k].clone());
        assert(all.subrange(from as int, k + 1) == all.subrange(from as int, k as int).push(
            all[k as int],
        ));
        assert((before + all.subrange(from as int, k as int)).push(all[k as int]) == before
            + all.subrange(from as int, k as int).push(all[k as int]));
        k += 1;
    }
}

/// A copy of the lines `lines[from..to]`.
pub(crate) fn copy_lines(lines: &Vec<String>, from: usize, to: usize) -> (copy: Vec<String>)
    requires
        from <= to <= lines.len(),
    ensures
        copy.deep_view() == lines.deep_view().subrange(from as int, to as int),
{
    let mut copy: Vec<String> = Vec::new();
    let mut k: usize = from;
    while k < to
        invariant
            from <= k <= to <= lines.len(),
            copy.len() == k - from,
            forall|m: int| 0 <= m < copy.len() ==> (#[trigger] copy[m])@ == lines[from + m]@,
        decreases to - k,
    {
        copy.push(lines[k].clone());
        k += 1;
    }
    assert(copy.deep_view() =~= lines.deep_view().subrange(from as int, to as int));
    copy
}

/// A common run is made of equal lines, stays within the limit, and ends at
/// the limit or where the lines differ.
pub proof fn lemma_common_run(
    old: Seq<Seq<char>>,
    new: Seq<Seq<char>>,
    i: int,
    j: int,
    limit: nat,
)
    ensures
        common_run(old, new, i, j, limit) <= limit,
        forall|k: int|
            0 <= k < common_run(old, new, i, j, limit) ==> #[trigger] agree_at(old, new, i, j, k),
        common_run(old, new, i, j, limit) < limit ==> !same_line(
            old,
            new,
            i + common_run(old, new, i, j, limit),
            j + common_run(old, new, i, j, limit),
        ),
        common_run(old, new, i, j, limit) > 0 ==> i + common_run(old, new, i, j, limit)
            <= old.len() && j + common_run(old, new, i, j, limit) <= new.len(),
    decreases limit,
{
    if limit > 0 && same_line(old, new, i, j) {
        lemma_common_run(old, new, i + 1, j + 1, (limit - 1) as nat);
        let rest = common_run(old, new, i + 1, j + 1, (limit - 1) as nat);
        assert forall|k: int| 0 <= k < 1 + rest implies #[trigger] agree_at(old, new, i, j, k) by {
            if k > 0 {
                assert(agree_at(old, new, i + 1, j + 1, k - 1));
            }
        }
    }
}

/// A run of `n` equal lines that ends at the limit, or where the lines
/// differ, is the common run.
pub proof fn lemma_common_run_is(
    old: Seq<Seq<char>>,
    new: Seq<Seq<char>>,
    i: int,
    j: int,
    limit: nat,
    n: nat,
)
    requires
        n <= limit,
        forall|k: int| 0 <= k < n ==> #[trigger] agree_at(old, new, i, j, k),
        n < limit ==> !same_line(old, new, i + n, j + n),
    ensures
        common_run(old, new, i, j, limit) == n,
    decreases limit,
{
    if n > 0 {
        assert(agree_at(old, new, i, j, 0));
        assert forall|k: int| 0 <= k < n - 1 implies #[trigger] agree_at(
            old,
            new,
            i + 1,
            j + 1,
            k,
        ) by {
            assert(agree_at(old, new, i, j, k + 1));
        }
        lemma_common_run_is(old, new, i + 1, j + 1, (limit - 1) as nat, (n - 1) as nat);
    }
}

} // verus!
