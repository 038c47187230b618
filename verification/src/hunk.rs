//! Hunks of a diff, in the forms in which the editor meets them.
use std::ops::Range;
use vstd::prelude::*;

use crate::anchor::{copy_range, Anchor, BufferId, DisplayRow, MultiBufferRow, Point, TextAnchor};

verus! {

/// What a hunk did to the text.
#[derive(Debug, Clone, Copy, PartialEq, Eq, Structural)]
pub enum DiffHunkStatus {
    Added,
    Modified,
    Removed,
}

/// Identifies a block of custom content between the rows of an editor.
pub type CustomBlockId = usize;

/// A hunk of the diff between a buffer and its diff base.
#[derive(Debug, PartialEq, Eq)]
pub struct DiffHunk {
    /// The rows of the editor's text that the hunk covers.
    pub associated_range: Range<MultiBufferRow>,
    /// The buffer that the hunk belongs to.
    pub buffer_id: BufferId,
    /// The text of the buffer that the hunk covers.
    pub buffer_range: Range<TextAnchor>,
    /// The text of the diff base that the hunk replaced.
    pub diff_base_byte_range: Range<usize>,
}

impl Clone for DiffHunk {
    fn clone(&self) -> (copy: Self)
        ensures
            copy == *self,
    {
        DiffHunk {
            associated_range: copy_range(&self.associated_range),
            buffer_id: self.buffer_id,
            buffer_range: copy_range(&self.buffer_range),
            diff_base_byte_range: copy_range(&self.diff_base_byte_range),
        }
    }
}

/// How a hunk appears on the screen.
#[derive(Debug, PartialEq, Eq)]
pub enum DisplayDiffHunk {
    /// The hunk is hidden in a fold, which takes up one row.
    Folded { display_row: DisplayRow },
    /// The rows of the hunk are visible.
    Unfolded {
        diff_base_byte_range: Range<usize>,
        display_row_range: Range<DisplayRow>,
        multi_buffer_range: Range<Anchor>,
        status: DiffHunkStatus,
    },
}

/// A hunk that the user points at, or that is to be expanded.
#[derive(Debug, PartialEq, Eq)]
pub struct HoveredHunk {
    pub multi_buffer_range: Range<Anchor>,
    pub status: DiffHunkStatus,
    pub diff_base_byte_range: Range<usize>,
}

impl Clone for HoveredHunk {
    fn clone(&self) -> (copy: Self)
        ensures
            copy == *self,
    {
        HoveredHunk {
            multi_buffer_range: copy_range(&self.multi_buffer_range),
            status: self.status,
            diff_base_byte_range: copy_range(&self.diff_base_byte_range),
        }
    }
}

/// A hunk whose diff is shown inline.
#[derive(Debug, PartialEq, Eq)]
pub struct ExpandedHunk {
    /// The block that shows the removed text, where there is one.
    pub block: Option<CustomBlockId>,
    pub hunk_range: Range<Anchor>,
    pub diff_base_byte_range: Range<usize>,
    pub status: DiffHunkStatus,
    /// Whether the hunk has disappeared in a fold since it was expanded.
    pub folded: bool,
}

impl Clone for ExpandedHunk {
    fn clone(&self) -> (copy: Self)
        ensures
            copy == *self,
    {
        ExpandedHunk {
            block: self.block,
            hunk_range: copy_range(&self.hunk_range),
            diff_base_byte_range: copy_range(&self.diff_base_byte_range),
            status: self.status,
            folded: self.folded,
        }
    }
}

/// A hunk of the diff together with what one snapshot of the editor says of it.
#[derive(Debug, PartialEq, Eq)]
pub struct SnapshotHunk {
    pub hunk: DiffHunk,
    /// What the hunk did to the text.
    pub status: DiffHunkStatus,
    /// How the hunk appears on the screen.
    pub display: DisplayDiffHunk,
    /// The anchors at the points that `row_points` gives for the hunk.
    pub row_anchors: Range<Anchor>,
}

/// The buffer that a hovered hunk lies in, where one of its ends names it.
pub open spec fn hovered_buffer(hovered_hunk: HoveredHunk) -> Option<BufferId> {
    if hovered_hunk.multi_buffer_range.start.buffer_id is Some {
        hovered_hunk.multi_buffer_range.start.buffer_id
    } else {
        hovered_hunk.multi_buffer_range.end.buffer_id
    }
}

/// The hunk of the diff that a hovered hunk stands for, which covers `point_range` of
/// the text; none if neither end of the hovered hunk lies in a buffer.
pub fn to_diff_hunk(hovered_hunk: &HoveredHunk, point_range: &Range<Point>) -> (result: Option<
    DiffHunk,
>)
    ensures
        result is Some <==> hovered_buffer(*hovered_hunk) is Some,
        result matches Some(hunk) ==> {
            &&& Some(hunk.buffer_id) == hovered_buffer(*hovered_hunk)
            &&& hunk.associated_range.start.0 == point_range.start.row
            &&& hunk.associated_range.end.0 == point_range.end.row
            &&& hunk.buffer_range.start == hovered_hunk.multi_buffer_range.start.text_anchor
            &&& hunk.buffer_range.end == hovered_hunk.multi_buffer_range.end.text_anchor
            &&& hunk.diff_base_byte_range == hovered_hunk.diff_base_byte_range
        },
{
    let buffer_id: BufferId = match hovered_hunk.multi_buffer_range.start.buffer_id {
        Some(buffer_id) => buffer_id,
        None => match hovered_hunk.multi_buffer_range.end.buffer_id {
            Some(buffer_id) => buffer_id,
            None => {
                return None;
            },
        },
    };
    let buffer_range = Range {
        start: hovered_hunk.multi_buffer_range.start.text_anchor,
        end: hovered_hunk.multi_buffer_range.end.text_anchor,
    };
    Some(
        DiffHunk {
            associated_range: point_rows(point_range),
            buffer_id,
            buffer_range,
            diff_base_byte_range: copy_range(&hovered_hunk.diff_base_byte_range),
        },
    )
}

/// The rows from that of the first point to that of the second: those in which the
/// diff is searched for the hunk at these points.
pub fn point_rows(point_range: &Range<Point>) -> (rows: Range<MultiBufferRow>)
    ensures
        rows.start.0 == point_range.start.row,
        rows.end.0 == point_range.end.row,
{
    Range { start: MultiBufferRow(point_range.start.row), end: MultiBufferRow(point_range.end.row) }
}

/// The points at the start of a hunk's first row and of the row after its last one.
pub fn row_points(hunk: &DiffHunk) -> (points: Range<Point>)
    ensures
        points.start == (Point { row: hunk.associated_range.start.0, column: 0 }),
        points.end == (Point { row: hunk.associated_range.end.0, column: 0 }),
{
    Range {
        start: Point { row: hunk.associated_range.start.0, column: 0 },
        end: Point { row: hunk.associated_range.end.0, column: 0 },
    }
}

/// The one hunk among those of the diff in some rows; none if there are several.
pub fn buffer_diff_hunk(hunks_in_rows: &Vec<DiffHunk>) -> (result: Option<DiffHunk>)
    ensures
        result == the_only_hunk(hunks_in_rows@),
{
    if hunks_in_rows.len() == 1 {
        Some(hunks_in_rows[0].clone())
    } else {
        None
    }
}

/// The only element of a sequence of hunks, if it has exactly one.
pub open spec fn the_only_hunk(hunks: Seq<DiffHunk>) -> Option<DiffHunk> {
    if hunks.len() == 1 {
        Some(hunks[0])
    } else {
        None
    }
}

} // verus!
