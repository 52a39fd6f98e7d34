//! Lines for the user.

use vstd::prelude::*;

verus! {

/// A line for the user, on stdout or on stderr.
#[derive(Debug, Clone, PartialEq, Eq)]
pub enum Line {
    Stdout(String),
    Stderr(String),
}

/// `Line` with its text taken as characters.
pub enum LineView {
    Stdout(Seq<char>),
    Stderr(Seq<char>),
}

impl View for Line {
    type V = LineView;

    open spec fn view(&self) -> LineView {
        match self {
            Line::Stdout(s) => LineView::Stdout(s@),
            Line::Stderr(s) => LineView::Stderr(s@),
        }
    }
}

/// The lines, each by its contents.
pub open spec fn lines_of(v: Seq<Line>) -> Seq<LineView> {
    v.map_values(|l: Line| l@)
}

/// `lines_of` commutes with `push`.
pub broadcast proof fn lemma_lines_push(v: Seq<Line>, l: Line)
    ensures
        #[trigger] lines_of(v.push(l)) == lines_of(v).push(l@),
{
    assert(lines_of(v.push(l)) =~= lines_of(v).push(l@));
}

}
