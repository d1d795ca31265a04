//! The data model: hunks, diffs and errors, each with its mathematical view.

use vstd::prelude::*;

verus! {

/// One contiguous edit region.
#[derive(Debug, Clone, PartialEq)]
pub struct Hunk {
    /// Lines that precede the change; they anchor the hunk in the target text.
    pub context_before: Vec<String>,
    /// Lines that must be present after the anchor, and are removed.
    pub deletions: Vec<String>,
    /// Lines that are inserted in their place.
    pub additions: Vec<String>,
    /// Lines that follow the change.
    pub context_after: Vec<String>,
}

/// A complete fuzzy diff: hunks in the order in which they apply.
#[derive(Debug)]
pub struct FuDiff {
    pub hunks: Vec<Hunk>,
}

/// Why a diff could not be read or applied.
#[derive(Debug)]
pub enum Error {
    /// The text is not a diff in the hunk format.
    Parse(String),
    /// A hunk does not fit the text it is applied to.
    Apply(String),
    /// The context of a hunk occurs more than once in the text.
    AmbiguousMatch(String),
}

/// A hunk as four sequences of lines, each line a sequence of characters.
pub struct HunkView {
    pub context_before: Seq<Seq<char>>,
    pub deletions: Seq<Seq<char>>,
    pub additions: Seq<Seq<char>>,
    pub context_after: Seq<Seq<char>>,
}

/// An error as its kind and the characters of its message.
pub enum ErrorView {
    Parse(Seq<char>),
    Apply(Seq<char>),
    AmbiguousMatch(Seq<char>),
}

impl View for Hunk {
    type V = HunkView;

    open spec fn view(&self) -> HunkView {
        HunkView {
            context_before: self.context_before.deep_view(),
            deletions: self.deletions.deep_view(),
            additions: self.additions.deep_view(),
            context_after: self.context_after.deep_view(),
        }
    }
}

impl View for FuDiff {
    type V = Seq<HunkView>;

    open spec fn view(&self) -> Seq<HunkView> {
        Seq::new(self.hunks@.len(), |k: int| self.hunks@[k]@)
    }
}

impl View for Error {
    type V = ErrorView;

    open spec fn view(&self) -> ErrorView {
        match self {
            Error::Parse(msg) => ErrorView::Parse(msg@),
            Error::Apply(msg) => ErrorView::Apply(msg@),
            Error::AmbiguousMatch(msg) => ErrorView::AmbiguousMatch(msg@),
        }
    }
}

impl HunkView {
    /// The hunk with no line in any of its four parts.
    pub open spec fn empty() -> HunkView {
        HunkView {
            context_before: Seq::empty(),
            deletions: Seq::empty(),
            additions: Seq::empty(),
            context_after: Seq::empty(),
        }
    }

    /// Whether the hunk changes anything: it deletes or adds a line.
    pub open spec fn has_changes(self) -> bool {
        self.deletions.len() > 0 || self.additions.len() > 0
    }

    /// The same hunk read backwards: what it added is deleted, and what it
    /// deleted is added.
    pub open spec fn swapped(self) -> HunkView {
        HunkView {
            context_before: self.context_before,
            deletions: self.additions,
            additions: self.deletions,
            context_after: self.context_after,
        }
    }
}

/// The view of a result that carries a text.
pub open spec fn text_result(r: Result<String, Error>) -> Result<Seq<char>, ErrorView> {
    match r {
        Ok(s) => Ok(s@),
        Err(e) => Err(e@),
    }
}

/// The view of a result that carries a diff.
pub open spec fn diff_result(r: Result<FuDiff, Error>) -> Result<Seq<HunkView>, ErrorView> {
    match r {
        Ok(d) => Ok(d@),
        Err(e) => Err(e@),
    }
}

} // verus!
