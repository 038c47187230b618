//! Positions: anchors in the text, rows of the text, and rows on the screen.
use std::ops::{Range, RangeInclusive};
use vstd::prelude::*;

verus! {

/// Identifies a buffer, across all the buffers that an editor shows.
pub type BufferId = u64;

/// The side to which an anchor sticks when text is inserted exactly at it.
#[derive(Debug, Clone, Copy, PartialEq, Eq, Structural)]
pub enum Bias {
    Left,
    Right,
}

/// A position in the text of one buffer that survives edits.
#[derive(Debug, Clone, Copy, PartialEq, Eq, Structural)]
pub struct TextAnchor {
    pub timestamp: u64,
    pub offset: usize,
    pub bias: Bias,
}

/// A position in the text that the editor shows, which may be made of excerpts of
/// several buffers.
#[derive(Debug, Clone, Copy, PartialEq, Eq, Structural)]
pub struct Anchor {
    pub buffer_id: Option<BufferId>,
    pub excerpt_id: usize,
    pub text_anchor: TextAnchor,
}

/// Where an anchor stands relative to another one in some version of the text.
#[derive(Debug, Clone, Copy, PartialEq, Eq, Structural)]
pub enum AnchorOrder {
    Before,
    Same,
    After,
}

/// A position in the text by row and column.
#[derive(Debug, Clone, Copy, PartialEq, Eq, Structural)]
pub struct Point {
    pub row: u32,
    pub column: u32,
}

/// A row of the text that the editor shows.
#[derive(Debug, Clone, Copy, PartialEq, Eq, Structural)]
pub struct MultiBufferRow(pub u32);

/// A row on the screen, counted with folds, wraps and blocks applied.
#[derive(Debug, Clone, Copy, PartialEq, Eq, Structural)]
pub struct DisplayRow(pub u32);

/// A position on the screen.
#[derive(Debug, Clone, Copy, PartialEq, Eq, Structural)]
pub struct DisplayPoint {
    pub row: DisplayRow,
    pub column: u32,
}

/// The last point of what is highlighted for text that is shown from the first to the second
/// point: the row in which the text ends is left out, unless the text also starts in it.
pub open spec fn highlighted_end(display_range: Range<DisplayPoint>) -> DisplayPoint {
    if display_range.end.row.0 > display_range.start.row.0 {
        DisplayPoint {
            row: DisplayRow((display_range.end.row.0 - 1) as u32),
            column: display_range.end.column,
        }
    } else {
        display_range.end
    }
}

/// Turns the points between which a hunk is shown into the first and the last point of what
/// is highlighted.
pub fn to_inclusive_row_range(display_range: &Range<DisplayPoint>) -> (result: RangeInclusive<
    DisplayPoint,
>)
    ensures
        result@.start == display_range.start,
        result@.end == highlighted_end(*display_range),
        !result@.exhausted,
{
    let mut end = display_range.end;
    if end.row.0 > display_range.start.row.0 {
        end.row = DisplayRow(end.row.0 - 1);
    }
    RangeInclusive::new(display_range.start, end)
}

/// What is highlighted is never empty: it has as many rows as the text, and one if the text
/// ends in the row in which it starts.
pub proof fn highlight_has_rows(display_range: Range<DisplayPoint>)
    requires
        display_range.start.row.0 <= display_range.end.row.0,
    ensures
        display_range.start.row.0 <= highlighted_end(display_range).row.0,
        ({
            let rows = display_range.end.row.0 - display_range.start.row.0;
            highlighted_end(display_range).row.0 + 1 - display_range.start.row.0 == (if rows > 0 {
                rows
            } else {
                1
            })
        }),
        highlighted_end(display_range).column == display_range.end.column,
{
}

/// A copy of `range`.
pub fn copy_range<T: Copy>(range: &Range<T>) -> (copy: Range<T>)
    ensures
        copy == *range,
{
    Range { start: range.start, end: range.end }
}

/// Whether two ranges of anchors are the same.
pub fn same_anchors(a: &Range<Anchor>, b: &Range<Anchor>) -> (same: bool)
    ensures
        same == (*a == *b),
{
    a.start == b.start && a.end == b.end
}

/// Whether two ranges of display rows are the same.
pub fn same_rows(a: &Range<DisplayRow>, b: &Range<DisplayRow>) -> (same: bool)
    ensures
        same == (*a == *b),
{
    a.start == b.start && a.end == b.end
}

/// Whether two ranges of byte offsets are the same.
pub fn same_bytes(a: &Range<usize>, b: &Range<usize>) -> (same: bool)
    ensures
        same == (*a == *b),
{
    a.start == b.start && a.end == b.end
}

} // verus!
