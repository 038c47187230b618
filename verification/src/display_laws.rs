//! What a caller can rely on of what is shown of a hunk, its block and its menu: of what goes
//! into each call, and what comes out of it.
use std::ops::{Range, RangeInclusive};
use vstd::prelude::*;

use crate::anchor::{
    copy_range, same_anchors, same_bytes, same_rows, to_inclusive_row_range, Anchor, DisplayPoint,
    DisplayRow, MultiBufferRow, Point,
};
use crate::block::{
    block_display_hunk, deleted_text_block, editor_height, editor_with_deleted_text, gutter_click,
    inserted_block, respond, revert_edit, BlockDisposition, BlockProperties, BlockStyle,
    CurrentLineHighlight, DeletedTextEditor, DeletedTextEvent, DeletedTextResponse, GutterClick,
    RevertEdit,
};
use crate::diff_base::BufferState;
use crate::editor::Editor;
use crate::expanded::ModelId;
use crate::hunk::{
    point_rows, row_points, to_diff_hunk, CustomBlockId, DiffHunk, DisplayDiffHunk, HoveredHunk,
};
use crate::menu::{
    file_rows, hunks_to_revert, revert_mode, HunkContextMenu, MenuAction, MenuCommand, RevertMode,
};
use crate::request_laws::is_hovered;

verus! {

// Positions and hunks.

/// A copy of a range has the same ends.
pub proof fn copy_has_the_same_ends(range: &Range<Anchor>, copy: Range<Anchor>)
    requires
        call_ensures(copy_range::<Anchor>, (range,), copy),
    ensures
        copy.start == range.start,
        copy.end == range.end,
{
}

/// Two ranges of the text are the same exactly if both of their ends are.
pub proof fn texts_are_told_apart(a: &Range<Anchor>, b: &Range<Anchor>, same: bool)
    requires
        call_ensures(same_anchors, (a, b), same),
    ensures
        same <==> a.start == b.start && a.end == b.end,
{
}

/// Two ranges of rows are the same exactly if both of their ends are.
pub proof fn rows_are_told_apart(a: &Range<DisplayRow>, b: &Range<DisplayRow>, same: bool)
    requires
        call_ensures(same_rows, (a, b), same),
    ensures
        same <==> a.start.0 == b.start.0 && a.end.0 == b.end.0,
{
}

/// Two ranges of bytes are the same exactly if both of their ends are.
pub proof fn bytes_are_told_apart(a: &Range<usize>, b: &Range<usize>, same: bool)
    requires
        call_ensures(same_bytes, (a, b), same),
    ensures
        same <==> a.start == b.start && a.end == b.end,
{
}

/// What is highlighted starts where the text does. It ends in the row before the one in which
/// the text ends, if that is below the first one, and else in that row; in the same column.
pub proof fn highlight_ends_before_the_last_row(
    shown: &Range<DisplayPoint>,
    highlighted: RangeInclusive<DisplayPoint>,
)
    requires
        call_ensures(to_inclusive_row_range, (shown,), highlighted),
    ensures
        highlighted@.start == shown.start,
        highlighted@.end.column == shown.end.column,
        shown.end.row.0 > shown.start.row.0 ==> highlighted@.end.row.0 + 1 == shown.end.row.0,
        shown.end.row.0 <= shown.start.row.0 ==> highlighted@.end.row.0 == shown.end.row.0,
        !highlighted@.exhausted,
{
}

/// A hovered hunk stands for a hunk of the diff exactly if one of its ends lies in a buffer.
pub proof fn hovered_hunk_stands_for_one_of_the_diff(
    hovered: &HoveredHunk,
    points: &Range<Point>,
    result: Option<DiffHunk>,
)
    requires
        call_ensures(to_diff_hunk, (hovered, points), result),
    ensures
        result is None <==> hovered.multi_buffer_range.start.buffer_id is None
            && hovered.multi_buffer_range.end.buffer_id is None,
        result is Some ==> is_hovered(result->0, *hovered, *points),
{
}

/// The rows of two points are those that they are in.
pub proof fn points_are_in_their_rows(points: &Range<Point>, rows: Range<MultiBufferRow>)
    requires
        call_ensures(point_rows, (points,), rows),
    ensures
        rows.start.0 == points.start.row,
        rows.end.0 == points.end.row,
{
}

/// The points of a hunk are the starts of the rows of its two ends. They are in these rows.
pub proof fn rows_start_in_the_first_column(
    hunk: &DiffHunk,
    points: Range<Point>,
    rows: Range<MultiBufferRow>,
)
    requires
        call_ensures(row_points, (hunk,), points),
        call_ensures(point_rows, (&points,), rows),
    ensures
        rows.start.0 == hunk.associated_range.start.0,
        rows.end.0 == hunk.associated_range.end.0,
        points.start.column == 0,
        points.end.column == 0,
{
}

// The block.

/// The height of the editor in a block is the number of its last row as long as that is less
/// than 256; from then on it starts over.
pub proof fn height_is_counted_in_a_byte(max_row: DisplayRow, height: u8)
    requires
        call_ensures(editor_height, (max_row,), height),
    ensures
        max_row.0 < 256 ==> height == max_row.0,
        exists|times: int| max_row.0 == #[trigger] (256 * times) + height,
{
    let times = max_row.0 as int / 256;
    assert(max_row.0 == 256 * times + height);
}

/// A block is above the start of its hunk, and as high as the higher one of the deleted text
/// and the editor that shows it.
pub proof fn block_has_room_for_both(
    hunk: &HoveredHunk,
    deleted_text_height: u8,
    max_row: DisplayRow,
    height: u8,
    block: BlockProperties,
)
    requires
        call_ensures(editor_height, (max_row,), height),
        call_ensures(deleted_text_block, (hunk, deleted_text_height, max_row), block),
    ensures
        block.position == hunk.multi_buffer_range.start,
        block.height >= deleted_text_height,
        block.height >= height,
        block.height == deleted_text_height || block.height == height,
        block.style == BlockStyle::Flex,
        block.disposition == BlockDisposition::Above,
{
}

/// The block that was inserted is the only one.
pub proof fn inserted_block_is_the_only_one(
    new_block_ids: &Vec<CustomBlockId>,
    block: Option<CustomBlockId>,
)
    requires
        call_ensures(inserted_block, (new_block_ids,), block),
    ensures
        block is Some <==> new_block_ids@.len() == 1,
        block is Some ==> block->0 == new_block_ids@[0],
{
}

/// The gutter of a block shows its hunk in its rows, never in a fold.
pub proof fn gutter_shows_the_hunk(
    hunk: &HoveredHunk,
    rows: &Range<DisplayRow>,
    display: DisplayDiffHunk,
)
    requires
        call_ensures(block_display_hunk, (hunk, rows), display),
    ensures
        display matches DisplayDiffHunk::Unfolded {
            diff_base_byte_range,
            display_row_range,
            multi_buffer_range,
            status,
        } && diff_base_byte_range == hunk.diff_base_byte_range && display_row_range == *rows
            && multi_buffer_range == hunk.multi_buffer_range && status == hunk.status,
{
}

/// A click in the gutter toggles the hunk exactly if one of the two keys is held.
pub proof fn keys_decide_what_a_click_does(control: bool, platform: bool, click: GutterClick)
    requires
        call_ensures(gutter_click, (control, platform), click),
    ensures
        click is ToggleHunk <==> control || platform,
        click is OpenContextMenu <==> !control && !platform,
{
}

/// The editor in a block shows exactly the text that its hunk replaced, and nothing around it;
/// it can neither be edited nor scrolled.
pub proof fn block_shows_the_deleted_text(
    diff_base_buffer: ModelId,
    hunk: &HoveredHunk,
    editor: DeletedTextEditor,
)
    requires
        call_ensures(editor_with_deleted_text, (diff_base_buffer, hunk), editor),
    ensures
        editor.diff_base_buffer == diff_base_buffer,
        editor.excerpt.start == hunk.diff_base_byte_range.start,
        editor.excerpt.end == hunk.diff_base_byte_range.end,
        editor.read_only && editor.forbid_vertical_scroll && editor.highlight_all,
        !editor.show_headers && !editor.soft_wrap && !editor.show_wrap_guides
            && !editor.show_gutter,
{
}

/// The editor in a block highlights no current line without the focus, and as the editor around
/// it does with the focus. Selections are cancelled exactly if it loses the focus, and it is
/// drawn again exactly if it loses or gets it.
pub proof fn line_is_highlighted_with_the_focus_only(
    event: &DeletedTextEvent,
    response: Option<DeletedTextResponse>,
)
    requires
        call_ensures(respond, (event,), response),
    ensures
        response is None <==> *event == (DeletedTextEvent::SettingsChanged { focused: true }),
        response is Some ==> {
            &&& response->0.highlight == (match *event {
                DeletedTextEvent::Focused { parent_highlight } => parent_highlight,
                _ => Some(CurrentLineHighlight::Off),
            })
            &&& response->0.cancel_selections <==> *event is Blurred
            &&& response->0.notify <==> !(*event is SettingsChanged)
        },
{
}

/// Reverting from a block puts exactly the text that the hunk replaced in the place of exactly
/// the text that it covers, wherever there is a diff base.
pub proof fn reverting_restores_the_replaced_text(
    hunk: &HoveredHunk,
    buffer: &Option<BufferState>,
    edit: Option<RevertEdit>,
)
    requires
        call_ensures(revert_edit, (hunk, buffer), edit),
    ensures
        edit is None <==> buffer is None || buffer->0.diff_base is None,
        edit matches Some(edit) ==> {
            &&& edit.buffer_id == buffer->0.remote_id
            &&& edit.range.start == hunk.multi_buffer_range.start.text_anchor
            &&& edit.range.end == hunk.multi_buffer_range.end.text_anchor
            &&& Some(edit.diff_base) == buffer->0.diff_base
            &&& edit.diff_base_byte_range.start == hunk.diff_base_byte_range.start
            &&& edit.diff_base_byte_range.end == hunk.diff_base_byte_range.end
        },
{
}

// The menu.

/// To revert a hunk is to revert the hovered one alone, if it lies in a buffer; to revert the
/// file is to revert all of its hunks, in order; and to toggle reverts none.
pub proof fn menu_reverts_what_it_says(
    command: MenuCommand,
    hovered: &HoveredHunk,
    points: &Range<Point>,
    file_hunks: Vec<DiffHunk>,
    hunks: Vec<DiffHunk>,
)
    requires
        call_ensures(hunks_to_revert, (command, hovered, points, file_hunks), hunks),
    ensures
        command == MenuCommand::RevertFile ==> hunks@ == file_hunks@,
        command == MenuCommand::ToggleHunk ==> hunks@.len() == 0,
        command == MenuCommand::RevertHunk ==> {
            &&& hunks@.len() <= 1
            &&& hunks@.len() == 0 <==> hovered.multi_buffer_range.start.buffer_id is None
                && hovered.multi_buffer_range.end.buffer_id is None
            &&& hunks@.len() == 1 ==> is_hovered(hunks@[0], *hovered, *points)
        },
{
}

/// The rows of a file go from the first to the last.
pub proof fn file_goes_to_its_last_row(max_row: MultiBufferRow, rows: Range<MultiBufferRow>)
    requires
        call_ensures(file_rows, (max_row,), rows),
    ensures
        rows.start.0 == 0,
        rows.end.0 == max_row.0,
{
}

/// Changes are applied exactly if there are any and the entry reverts; in a transaction exactly
/// if the entry reverts the file.
pub proof fn changes_are_applied_if_there_are_any(
    command: MenuCommand,
    has_changes: bool,
    mode: Option<RevertMode>,
)
    requires
        call_ensures(revert_mode, (command, has_changes), mode),
    ensures
        mode is Some <==> has_changes && command != MenuCommand::ToggleHunk,
        mode is Some ==> (mode->0 == RevertMode::InTransaction <==> command
            == MenuCommand::RevertFile),
{
}

/// The menu has an entry for each command, in a fixed order. The first offers to collapse
/// exactly if a visible expanded hunk covers exactly the text of the hunk, and else to expand.
pub proof fn menu_offers_what_can_be_done(
    editor: &Editor,
    hovered: &HoveredHunk,
    start_is_closer: bool,
    menu: HunkContextMenu,
)
    requires
        call_ensures(
            Editor::open_hunk_context_menu,
            (editor, hovered, start_is_closer),
            menu,
        ),
    ensures
        start_is_closer ==> menu.source == hovered.multi_buffer_range.start,
        !start_is_closer ==> menu.source == hovered.multi_buffer_range.end,
        menu.entries@.len() == 3,
        menu.entries@[0].command == MenuCommand::ToggleHunk,
        menu.entries@[0].action == Some(MenuAction::ToggleHunkDiff),
        (exists|i: int|
            {
                &&& 0 <= i < editor.expanded_hunks.hunks@.len()
                &&& !(#[trigger] editor.expanded_hunks.hunks@[i]).folded
                &&& editor.expanded_hunks.hunks@[i].hunk_range == hovered.multi_buffer_range
            }) ==> menu.entries@[0].label@ == "Collapse Hunk"@,
        (forall|i: int|
            0 <= i < editor.expanded_hunks.hunks@.len() ==> (
            #[trigger] editor.expanded_hunks.hunks@[i]).folded
                || editor.expanded_hunks.hunks@[i].hunk_range != hovered.multi_buffer_range)
            ==> menu.entries@[0].label@ == "Expand Hunk"@,
        menu.entries@[1].command == MenuCommand::RevertHunk,
        menu.entries@[1].action == Some(MenuAction::RevertSelectedHunks),
        menu.entries@[1].label@ == "Revert Hunk"@,
        menu.entries@[2].command == MenuCommand::RevertFile,
        menu.entries@[2].action is None,
        menu.entries@[2].label@ == "Revert File"@,
{
}

} // verus!
