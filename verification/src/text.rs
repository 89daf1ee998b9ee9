//! Spans of a text and its lines.

use vstd::prelude::*;

verus! {

/// A stretch of the text: the bytes from `start` up to, not including,
/// `end`.
#[derive(Clone, Copy, Debug, PartialEq, Eq, Structural)]
pub struct Span {
    pub start: usize,
    pub end: usize,
}

/// Where the line that begins at `from` ends: at the next line feed, or
/// at the end of the text.
pub open spec fn line_end(text: Seq<u8>, from: int) -> int
    decreases text.len() - from,
{
    if from >= text.len() {
        text.len() as int
    } else if text[from] == '\n' as u8 {
        from
    } else {
        line_end(text, from + 1)
    }
}

/// A line ends at or after its beginning, at the first line feed there
/// is, or else at the end of the text.
pub proof fn lemma_line_end_bounds(text: Seq<u8>, from: int)
    requires
        0 <= from <= text.len(),
    ensures
        from <= line_end(text, from) <= text.len(),
        line_end(text, from) < text.len() ==> text[line_end(text, from)] == '\n' as u8,
        forall|k: int| from <= k < line_end(text, from) ==> text[k] != '\n' as u8,
    decreases text.len() - from,
{
    if from < text.len() && text[from] != '\n' as u8 {
        lemma_line_end_bounds(text, from + 1);
    }
}

/// Finds where the line that begins at `from` ends.
pub fn find_line_end(text: &[u8], from: usize) -> (end: usize)
    requires
        from <= text.len(),
    ensures
        end == line_end(text@, from as int),
        from <= end <= text.len(),
{
    let mut end = from;
    while end < text.len() && text[end] != '\n' as u8
        invariant
            from <= end <= text.len(),
            line_end(text@, from as int) == line_end(text@, end as int),
        decreases text.len() - end,
    {
        end = end + 1;
    }
    proof {
        lemma_line_end_bounds(text@, from as int);
    }
    end
}

} // verus!
