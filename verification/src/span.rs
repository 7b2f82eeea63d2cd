use vstd::prelude::*;

verus! {

/// Mathematical model of a deletable span: an inclusive range of character
/// indices `[start, end]` together with the zero-based line number on which
/// the span begins.
pub struct SpanModel {
    pub start: int,
    pub end: int,
    pub line: int,
}

impl SpanModel {
    /// A span is well formed when its bounds are ordered; it then covers at
    /// least one character.
    pub open spec fn wf(self) -> bool {
        0 <= self.start <= self.end
    }

    /// Number of characters the span covers.
    pub open spec fn span_len(self) -> int {
        self.end - self.start + 1
    }
}

/// A deletable character range `[start, end]` (inclusive on both ends) plus
/// the zero-based line number on which it begins.
#[derive(Clone, Copy, Debug, PartialEq, Eq, Structural)]
pub struct Deletion {
    pub start: usize,
    pub end: usize,
    pub line: usize,
}

impl View for Deletion {
    type V = SpanModel;

    open spec fn view(&self) -> SpanModel {
        SpanModel { start: self.start as int, end: self.end as int, line: self.line as int }
    }
}

impl Deletion {
    pub fn range(start: usize, end: usize, line: usize) -> (d: Self)
        ensures
            d@ == (SpanModel { start: start as int, end: end as int, line: line as int }),
    {
        Deletion { start, end, line }
    }

    /// Number of characters the span covers.
    pub fn len(&self) -> (n: usize)
        requires
            self@.wf(),
            self@.span_len() <= usize::MAX,
        ensures
            n == self@.span_len(),
    {
        self.end - self.start + 1
    }
}

/// The spans of `s`, as mathematical values.
pub open spec fn models_of(s: Seq<Deletion>) -> Seq<SpanModel> {
    s.map_values(|d: Deletion| d@)
}

/// The spans of `s` are ordered by start position.
pub open spec fn sorted_by_start(s: Seq<SpanModel>) -> bool {
    forall|a: int, b: int| 0 <= a < b < s.len() ==> s[a].start <= s[b].start
}

/// The spans in `s` are in ascending order and no two of them share a
/// character.
pub open spec fn spans_sorted_disjoint(s: Seq<SpanModel>) -> bool {
    forall|i: int, j: int| 0 <= i < j < s.len() ==> s[i].end < s[j].start
}

/// Every span in `s` is well formed and lies inside a document of `len`
/// characters.
pub open spec fn spans_in_bounds(s: Seq<SpanModel>, len: int) -> bool {
    forall|i: int| 0 <= i < s.len() ==> (#[trigger] s[i]).wf() && s[i].end < len
}

} // verus!
