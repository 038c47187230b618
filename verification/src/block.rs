//! The block that shows the text that a hunk removed.
use std::ops::Range;
use vstd::prelude::*;

use crate::anchor::{copy_range, Anchor, BufferId, DisplayRow, TextAnchor};
use crate::diff_base::{BufferState, TextId};
use crate::expanded::ModelId;
use crate::hunk::{CustomBlockId, DisplayDiffHunk, HoveredHunk};

verus! {

/// Whether a block scrolls with the text.
#[derive(Debug, Clone, Copy, PartialEq, Eq, Structural)]
pub enum BlockStyle {
    Fixed,
    Flex,
    Sticky,
}

/// The side of its position on which a block is.
#[derive(Debug, Clone, Copy, PartialEq, Eq, Structural)]
pub enum BlockDisposition {
    Above,
    Below,
}

/// A block to be inserted.
#[derive(Debug, Clone, Copy, PartialEq, Eq, Structural)]
pub struct BlockProperties {
    pub position: Anchor,
    /// The number of rows that the block takes up.
    pub height: u8,
    pub style: BlockStyle,
    pub disposition: BlockDisposition,
}

/// The read-only editor inside a block, which shows a part of a diff base.
#[derive(Debug, PartialEq, Eq)]
pub struct DeletedTextEditor {
    pub diff_base_buffer: ModelId,
    /// The part of the buffer that is shown.
    pub excerpt: Range<usize>,
    pub show_headers: bool,
    pub soft_wrap: bool,
    pub show_wrap_guides: bool,
    pub show_gutter: bool,
    pub forbid_vertical_scroll: bool,
    pub read_only: bool,
    /// Whether all the rows are highlighted as deleted text.
    pub highlight_all: bool,
}

/// How the line with the cursor is highlighted.
#[derive(Debug, Clone, Copy, PartialEq, Eq, Structural)]
pub enum CurrentLineHighlight {
    Off,
    Gutter,
    Line,
    All,
}

/// Something that happens to the editor inside a block.
#[derive(Debug, Clone, Copy, PartialEq, Eq, Structural)]
pub enum DeletedTextEvent {
    /// It loses the focus.
    Blurred,
    /// It gets the focus. With it comes how the editor around it highlights the current
    /// line, if that editor still exists and has a setting of its own.
    Focused { parent_highlight: Option<CurrentLineHighlight> },
    /// The settings change while it has the focus or not.
    SettingsChanged { focused: bool },
}

/// What follows for the editor inside a block.
#[derive(Debug, Clone, Copy, PartialEq, Eq, Structural)]
pub struct DeletedTextResponse {
    /// How the current line is to be highlighted from now on, or that the settings decide.
    pub highlight: Option<CurrentLineHighlight>,
    pub cancel_selections: bool,
    pub notify: bool,
}

/// What a click in the gutter of a block does.
#[derive(Debug, Clone, Copy, PartialEq, Eq, Structural)]
pub enum GutterClick {
    ToggleHunk,
    OpenContextMenu,
}

/// An edit that puts the text of a diff base back into a buffer.
#[derive(Debug, PartialEq, Eq)]
pub struct RevertEdit {
    pub buffer_id: BufferId,
    /// The text that is replaced.
    pub range: Range<TextAnchor>,
    /// The text that replaces it: a part of a diff base.
    pub diff_base: TextId,
    pub diff_base_byte_range: Range<usize>,
}

/// The larger of two heights.
pub open spec fn larger(a: u8, b: u8) -> u8 {
    if a < b {
        b
    } else {
        a
    }
}

/// The number of rows of an editor whose last row is `max_row`, not counting that row,
/// modulo 256.
pub fn editor_height(max_row: DisplayRow) -> (height: u8)
    ensures
        height == max_row.0 % 256,
{
    let row: u32 = max_row.0;
    assert((row as u8) == row % 256) by (bit_vector);
    #[verifier::truncate]
    (row as u8)
}

/// Describes the block for the deleted text of a hunk: it is above the hunk, and as high as
/// the editor inside it, whose last row is `max_row`, or as the deleted text, whichever is
/// more.
pub fn deleted_text_block(
    hunk: &HoveredHunk,
    deleted_text_height: u8,
    max_row: DisplayRow,
) -> (block: BlockProperties)
    ensures
        block == (BlockProperties {
            position: hunk.multi_buffer_range.start,
            height: larger((max_row.0 % 256) as u8, deleted_text_height),
            style: BlockStyle::Flex,
            disposition: BlockDisposition::Above,
        }),
{
    let inner: u8 = editor_height(max_row);
    let height: u8 = if inner < deleted_text_height {
        deleted_text_height
    } else {
        inner
    };
    BlockProperties {
        position: hunk.multi_buffer_range.start,
        height,
        style: BlockStyle::Flex,
        disposition: BlockDisposition::Above,
    }
}

/// The block that was inserted, if exactly one was.
pub fn inserted_block(new_block_ids: &Vec<CustomBlockId>) -> (block: Option<CustomBlockId>)
    ensures
        block == (if new_block_ids@.len() == 1 {
            Some(new_block_ids@[0])
        } else {
            None
        }),
{
    if new_block_ids.len() == 1 {
        Some(new_block_ids[0])
    } else {
        None
    }
}

/// How the hunk of a block appears beside it: visible, in the rows in which its two ends
/// are shown.
pub fn block_display_hunk(hunk: &HoveredHunk, display_rows: &Range<DisplayRow>) -> (display:
    DisplayDiffHunk)
    ensures
        display == (DisplayDiffHunk::Unfolded {
            diff_base_byte_range: hunk.diff_base_byte_range,
            display_row_range: *display_rows,
            multi_buffer_range: hunk.multi_buffer_range,
            status: hunk.status,
        }),
{
    DisplayDiffHunk::Unfolded {
        diff_base_byte_range: copy_range(&hunk.diff_base_byte_range),
        display_row_range: copy_range(display_rows),
        multi_buffer_range: copy_range(&hunk.multi_buffer_range),
        status: hunk.status,
    }
}

/// Decides what a click in the gutter of a block does: with the control key or the
/// platform key it toggles the hunk, else it opens the context menu.
pub fn gutter_click(control: bool, platform: bool) -> (click: GutterClick)
    ensures
        click == (if control || platform {
            GutterClick::ToggleHunk
        } else {
            GutterClick::OpenContextMenu
        }),
{
    if control || platform {
        GutterClick::ToggleHunk
    } else {
        GutterClick::OpenContextMenu
    }
}

/// Describes the editor that shows the deleted text of a hunk: the part of the diff base
/// that the hunk replaced, highlighted, with nothing around it, and not to be edited.
pub fn editor_with_deleted_text(diff_base_buffer: ModelId, hunk: &HoveredHunk) -> (editor:
    DeletedTextEditor)
    ensures
        editor == (DeletedTextEditor {
            diff_base_buffer,
            excerpt: hunk.diff_base_byte_range,
            show_headers: false,
            soft_wrap: false,
            show_wrap_guides: false,
            show_gutter: false,
            forbid_vertical_scroll: true,
            read_only: true,
            highlight_all: true,
        }),
{
    DeletedTextEditor {
        diff_base_buffer,
        excerpt: copy_range(&hunk.diff_base_byte_range),
        show_headers: false,
        soft_wrap: false,
        show_wrap_guides: false,
        show_gutter: false,
        forbid_vertical_scroll: true,
        read_only: true,
        highlight_all: true,
    }
}

/// Decides what follows for the editor inside a block. Without the focus it highlights no
/// current line; with it, it does as the editor around it.
pub fn respond(event: &DeletedTextEvent) -> (response: Option<DeletedTextResponse>)
    ensures
        response == match *event {
            DeletedTextEvent::Blurred => Some(
                DeletedTextResponse {
                    highlight: Some(CurrentLineHighlight::Off),
                    cancel_selections: true,
                    notify: true,
                },
            ),
            DeletedTextEvent::Focused { parent_highlight } => Some(
                DeletedTextResponse {
                    highlight: parent_highlight,
                    cancel_selections: false,
                    notify: true,
                },
            ),
            DeletedTextEvent::SettingsChanged { focused } => if focused {
                None
            } else {
                Some(
                    DeletedTextResponse {
                        highlight: Some(CurrentLineHighlight::Off),
                        cancel_selections: false,
                        notify: false,
                    },
                )
            },
        },
{
    match *event {
        DeletedTextEvent::Blurred => Some(
            DeletedTextResponse {
                highlight: Some(CurrentLineHighlight::Off),
                cancel_selections: true,
                notify: true,
            },
        ),
        DeletedTextEvent::Focused { parent_highlight } => Some(
            DeletedTextResponse {
                highlight: parent_highlight,
                cancel_selections: false,
                notify: true,
            },
        ),
        DeletedTextEvent::SettingsChanged { focused } => if focused {
            None
        } else {
            Some(
                DeletedTextResponse {
                    highlight: Some(CurrentLineHighlight::Off),
                    cancel_selections: false,
                    notify: false,
                },
            )
        },
    }
}

/// Describes the edit that reverts the hunk of a block. `buffer` is the buffer that the
/// hunk starts in, if it is still shown. There is no such edit without it or its diff base.
pub fn revert_edit(hunk: &HoveredHunk, buffer: &Option<BufferState>) -> (edit: Option<RevertEdit>)
    ensures
        edit is Some <==> (buffer is Some && buffer->0.diff_base is Some),
        edit matches Some(edit) ==> edit == (RevertEdit {
            buffer_id: buffer->0.remote_id,
            range: edit.range,
            diff_base: buffer->0.diff_base->0,
            diff_base_byte_range: hunk.diff_base_byte_range,
        }) && edit.range.start == hunk.multi_buffer_range.start.text_anchor && edit.range.end
            == hunk.multi_buffer_range.end.text_anchor,
{
    match buffer {
        Some(buffer) => match buffer.diff_base {
            Some(diff_base) => Some(
                RevertEdit {
                    buffer_id: buffer.remote_id,
                    range: Range {
                        start: hunk.multi_buffer_range.start.text_anchor,
                        end: hunk.multi_buffer_range.end.text_anchor,
                    },
                    diff_base,
                    diff_base_byte_range: copy_range(&hunk.diff_base_byte_range),
                },
            ),
            None => None,
        },
        None => None,
    }
}

} // verus!
