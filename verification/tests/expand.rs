use std::ops::Range;

use hunk_diff::anchor::{
    Anchor, AnchorOrder, Bias, DisplayRow, MultiBufferRow, Point, TextAnchor,
};
use hunk_diff::block::{
    block_display_hunk, deleted_text_block, editor_height, editor_with_deleted_text, gutter_click,
    inserted_block, respond, revert_edit, BlockDisposition, BlockProperties, BlockStyle,
    CurrentLineHighlight, DeletedTextEditor, DeletedTextEvent, DeletedTextResponse, GutterClick,
    RevertEdit,
};
use hunk_diff::diff_base::{BufferState, LineEnding, NewBuffer};
use hunk_diff::editor::Editor;
use hunk_diff::expand::{
    deleted_line_count, find_place, DeletedText, ExpandStep, PendingExpansion, Placement,
};
use hunk_diff::expanded::{DiffBaseBuffer, ExpandedHunks};
use hunk_diff::hunk::{
    buffer_diff_hunk, point_rows, DiffHunk, DiffHunkStatus, DisplayDiffHunk, ExpandedHunk,
    HoveredHunk,
};
use hunk_diff::menu::{
    file_rows, hunks_to_revert, revert_mode, MenuAction, MenuCommand, MenuEntry, RevertMode,
};

fn anchor(offset: usize) -> Anchor {
    Anchor {
        buffer_id: Some(7),
        excerpt_id: 1,
        text_anchor: TextAnchor { timestamp: 4, offset, bias: Bias::Left },
    }
}

fn hovered(start: usize, end: usize, status: DiffHunkStatus) -> HoveredHunk {
    HoveredHunk {
        multi_buffer_range: anchor(start)..anchor(end),
        status,
        diff_base_byte_range: 10..20,
    }
}

fn expanded(start: usize, end: usize, block: Option<usize>) -> ExpandedHunk {
    ExpandedHunk {
        block,
        hunk_range: anchor(start)..anchor(end),
        diff_base_byte_range: 10..20,
        status: DiffHunkStatus::Modified,
        folded: false,
    }
}

fn diff_hunk(start: u32, end: u32, bytes: Range<usize>) -> DiffHunk {
    DiffHunk {
        associated_range: MultiBufferRow(start)..MultiBufferRow(end),
        buffer_id: 7,
        buffer_range: anchor(start as usize).text_anchor..anchor(end as usize).text_anchor,
        diff_base_byte_range: bytes,
    }
}

fn buffer_state() -> BufferState {
    BufferState {
        remote_id: 7,
        diff_base_version: 5,
        diff_base: Some(90),
        line_ending: LineEnding::Unix,
        language: None,
    }
}

fn editor_with(hunks: Vec<ExpandedHunk>) -> Editor {
    let mut expanded_hunks = ExpandedHunks::default();
    expanded_hunks.hunks = hunks;
    Editor { expanded_hunks }
}

fn pending(status: DiffHunkStatus) -> PendingExpansion {
    PendingExpansion { hunk: hovered(3, 5, status), diff_base: 90, deleted_bytes: 11..19 }
}

#[test]
fn a_given_diff_base_is_used() {
    let mut editor = editor_with(vec![]);
    // The deleted text is what the diff says now, not what the hunk was made with.
    let step = editor.expand_diff_hunk(
        Some(40),
        &hovered(3, 5, DiffHunkStatus::Modified),
        &vec![diff_hunk(3, 5, 11..19)],
        &vec![buffer_state()],
    );
    assert_eq!(
        step,
        ExpandStep::Measure { diff_base_buffer: 40, pending: pending(DiffHunkStatus::Modified) }
    );
}

#[test]
fn a_current_diff_base_is_used() {
    let mut editor = editor_with(vec![]);
    editor.expanded_hunks.diff_base.insert(7, DiffBaseBuffer { buffer: 41, diff_base_version: 5 });
    let step = editor.expand_diff_hunk(
        None,
        &hovered(3, 5, DiffHunkStatus::Modified),
        &vec![diff_hunk(3, 5, 11..19)],
        &vec![buffer_state()],
    );
    assert_eq!(
        step,
        ExpandStep::Measure { diff_base_buffer: 41, pending: pending(DiffHunkStatus::Modified) }
    );
    assert_eq!(editor.expanded_hunks.diff_base.len(), 1);
}

#[test]
fn an_outdated_diff_base_is_created_anew() {
    let mut editor = editor_with(vec![]);
    editor.expanded_hunks.diff_base.insert(7, DiffBaseBuffer { buffer: 41, diff_base_version: 4 });
    let step = editor.expand_diff_hunk(
        None,
        &hovered(3, 5, DiffHunkStatus::Modified),
        &vec![diff_hunk(3, 5, 11..19)],
        &vec![buffer_state()],
    );
    assert_eq!(
        step,
        ExpandStep::CreateDiffBase {
            new_buffer: NewBuffer { text: 90, line_ending: LineEnding::Unix, language: None },
            pending: pending(DiffHunkStatus::Modified),
        }
    );
    assert!(editor.expanded_hunks.diff_base.is_empty());
}

#[test]
fn a_hunk_needs_one_hunk_of_the_diff_one_buffer_and_a_diff_base() {
    let mut editor = editor_with(vec![]);
    editor.expanded_hunks.diff_base.insert(7, DiffBaseBuffer { buffer: 41, diff_base_version: 4 });
    let hunk = hovered(3, 5, DiffHunkStatus::Modified);
    let one = vec![diff_hunk(3, 5, 11..19)];
    let two = vec![diff_hunk(3, 4, 11..12), diff_hunk(4, 5, 13..14)];
    let buffers = vec![buffer_state()];
    assert_eq!(editor.expand_diff_hunk(None, &hunk, &vec![], &buffers), ExpandStep::Ignored);
    assert_eq!(editor.expand_diff_hunk(None, &hunk, &two, &buffers), ExpandStep::Ignored);
    assert_eq!(editor.expand_diff_hunk(None, &hunk, &one, &vec![]), ExpandStep::Ignored);
    let several = vec![buffer_state(), buffer_state()];
    assert_eq!(editor.expand_diff_hunk(None, &hunk, &one, &several), ExpandStep::Ignored);
    // So far no diff base has been looked up.
    assert_eq!(editor.expanded_hunks.diff_base.len(), 1);
    let mut untracked = buffer_state();
    untracked.diff_base = None;
    let untracked = vec![untracked];
    assert_eq!(editor.expand_diff_hunk(Some(40), &hunk, &one, &untracked), ExpandStep::Ignored);
    assert_eq!(editor.expanded_hunks.diff_base.len(), 1);
    assert_eq!(editor.expand_diff_hunk(None, &hunk, &one, &untracked), ExpandStep::Ignored);
    assert!(editor.expanded_hunks.diff_base.is_empty());
}

#[test]
fn the_only_hunk_of_the_rows_is_found() {
    assert_eq!(buffer_diff_hunk(&vec![]), None);
    assert_eq!(
        buffer_diff_hunk(&vec![diff_hunk(3, 5, 11..19)]),
        Some(diff_hunk(3, 5, 11..19))
    );
    assert_eq!(
        buffer_diff_hunk(&vec![diff_hunk(3, 4, 1..2), diff_hunk(4, 5, 3..4)]),
        None
    );
    assert_eq!(
        point_rows(&(Point { row: 3, column: 9 }..Point { row: 5, column: 1 })),
        MultiBufferRow(3)..MultiBufferRow(5)
    );
}

#[test]
fn a_place_is_found_by_halving() {
    let (before, same, after) = (AnchorOrder::Before, AnchorOrder::Same, AnchorOrder::After);
    assert_eq!(find_place(&vec![]), Err(0));
    assert_eq!(find_place(&vec![after, after]), Err(0));
    assert_eq!(find_place(&vec![before, before, after]), Err(2));
    assert_eq!(find_place(&vec![before, before]), Err(2));
    assert_eq!(find_place(&vec![before, same, after]), Ok(1));
    assert_eq!(find_place(&vec![same]), Ok(0));
    assert_eq!(find_place(&vec![before, before, before, same]), Ok(3));
}

#[test]
fn deleted_lines_are_counted_in_a_byte() {
    assert_eq!(deleted_line_count(&(4..4)), 0);
    assert_eq!(deleted_line_count(&(4..259)), 255);
    assert_eq!(deleted_line_count(&(4..260)), 0);
    assert_eq!(deleted_line_count(&(0..1000)), 232);
}

#[test]
fn an_added_hunk_is_highlighted_and_has_no_block() {
    let mut editor = editor_with(vec![expanded(8, 9, Some(2))]);
    let placement = editor
        .place_expansion(&pending(DiffHunkStatus::Added), 40, &(2..2), &vec![AnchorOrder::After])
        .unwrap();
    assert_eq!(
        placement,
        Placement {
            index: 0,
            hunk: hovered(3, 5, DiffHunkStatus::Added),
            highlight: Some(anchor(3)..anchor(5)),
            deleted_text: None,
        }
    );
    editor.finish_expansion(placement, &vec![6]);
    let mut added = expanded(3, 5, None);
    added.status = DiffHunkStatus::Added;
    assert_eq!(editor.expanded_hunks.hunks, vec![added, expanded(8, 9, Some(2))]);
}

#[test]
fn a_removed_hunk_has_a_block_and_is_not_highlighted() {
    let mut editor = editor_with(vec![expanded(1, 2, Some(2))]);
    let placement = editor
        .place_expansion(
            &pending(DiffHunkStatus::Removed),
            40,
            &(2..5),
            &vec![AnchorOrder::Before],
        )
        .unwrap();
    assert_eq!(
        placement,
        Placement {
            index: 1,
            hunk: hovered(3, 5, DiffHunkStatus::Removed),
            highlight: None,
            deleted_text: Some(DeletedText { diff_base_buffer: 40, height: 3 }),
        }
    );
    editor.finish_expansion(placement, &vec![6]);
    let mut removed = expanded(3, 5, Some(6));
    removed.status = DiffHunkStatus::Removed;
    assert_eq!(editor.expanded_hunks.hunks, vec![expanded(1, 2, Some(2)), removed]);
}

#[test]
fn a_modified_hunk_has_both() {
    let mut editor = editor_with(vec![expanded(1, 2, Some(2)), expanded(8, 9, Some(3))]);
    let starts = vec![AnchorOrder::Before, AnchorOrder::After];
    let placement = editor
        .place_expansion(&pending(DiffHunkStatus::Modified), 40, &(2..5), &starts)
        .unwrap();
    assert_eq!(placement.highlight, Some(anchor(3)..anchor(5)));
    assert_eq!(
        placement.deleted_text,
        Some(DeletedText { diff_base_buffer: 40, height: 3 })
    );
    // Without exactly one new block the hunk is expanded all the same.
    editor.finish_expansion(placement, &vec![6, 7]);
    assert_eq!(
        editor.expanded_hunks.hunks,
        vec![expanded(1, 2, Some(2)), expanded(3, 5, None), expanded(8, 9, Some(3))]
    );
}

#[test]
fn a_hunk_that_starts_where_another_does_has_no_place() {
    let editor = editor_with(vec![expanded(3, 4, Some(2))]);
    assert_eq!(
        editor.place_expansion(
            &pending(DiffHunkStatus::Modified),
            40,
            &(2..5),
            &vec![AnchorOrder::Same],
        ),
        None
    );
}

#[test]
fn a_collapsed_hunk_goes_back_to_its_place() {
    let hunks = vec![expanded(1, 2, Some(2)), expanded(3, 5, Some(6)), expanded(8, 9, Some(3))];
    let mut editor = editor_with(hunks.clone());
    editor.expanded_hunks.hunks.remove(1);
    let starts = vec![AnchorOrder::Before, AnchorOrder::After];
    let placement = editor
        .place_expansion(&pending(DiffHunkStatus::Modified), 40, &(2..5), &starts)
        .unwrap();
    assert_eq!(placement.index, 1);
    editor.finish_expansion(placement, &vec![6]);
    assert_eq!(editor.expanded_hunks.hunks, hunks);
}

#[test]
fn a_block_is_as_high_as_what_it_shows() {
    let hunk = hovered(3, 5, DiffHunkStatus::Removed);
    let block = |height: u8| BlockProperties {
        position: anchor(3),
        height,
        style: BlockStyle::Flex,
        disposition: BlockDisposition::Above,
    };
    assert_eq!(deleted_text_block(&hunk, 3, DisplayRow(2)), block(3));
    assert_eq!(deleted_text_block(&hunk, 3, DisplayRow(4)), block(4));
    assert_eq!(deleted_text_block(&hunk, 3, DisplayRow(257)), block(3));
    assert_eq!(editor_height(DisplayRow(511)), 255);
}

#[test]
fn one_inserted_block_is_expected() {
    assert_eq!(inserted_block(&vec![]), None);
    assert_eq!(inserted_block(&vec![6]), Some(6));
    assert_eq!(inserted_block(&vec![6, 7]), None);
}

#[test]
fn the_gutter_of_a_block_shows_the_hunk() {
    let hunk = hovered(3, 5, DiffHunkStatus::Removed);
    assert_eq!(
        block_display_hunk(&hunk, &(DisplayRow(4)..DisplayRow(6))),
        DisplayDiffHunk::Unfolded {
            diff_base_byte_range: 10..20,
            display_row_range: DisplayRow(4)..DisplayRow(6),
            multi_buffer_range: anchor(3)..anchor(5),
            status: DiffHunkStatus::Removed,
        }
    );
    assert_eq!(gutter_click(false, false), GutterClick::OpenContextMenu);
    assert_eq!(gutter_click(true, false), GutterClick::ToggleHunk);
    assert_eq!(gutter_click(false, true), GutterClick::ToggleHunk);
}

#[test]
fn the_editor_in_a_block_shows_the_deleted_text_only() {
    assert_eq!(
        editor_with_deleted_text(40, &hovered(3, 5, DiffHunkStatus::Removed)),
        DeletedTextEditor {
            diff_base_buffer: 40,
            excerpt: 10..20,
            show_headers: false,
            soft_wrap: false,
            show_wrap_guides: false,
            show_gutter: false,
            forbid_vertical_scroll: true,
            read_only: true,
            highlight_all: true,
        }
    );
}

#[test]
fn the_editor_in_a_block_highlights_a_line_with_the_focus_only() {
    let off = Some(CurrentLineHighlight::Off);
    assert_eq!(
        respond(&DeletedTextEvent::Blurred),
        Some(DeletedTextResponse { highlight: off, cancel_selections: true, notify: true })
    );
    let parent_highlight = Some(CurrentLineHighlight::Line);
    assert_eq!(
        respond(&DeletedTextEvent::Focused { parent_highlight }),
        Some(DeletedTextResponse {
            highlight: parent_highlight,
            cancel_selections: false,
            notify: true,
        })
    );
    assert_eq!(
        respond(&DeletedTextEvent::Focused { parent_highlight: None }),
        Some(DeletedTextResponse { highlight: None, cancel_selections: false, notify: true })
    );
    assert_eq!(respond(&DeletedTextEvent::SettingsChanged { focused: true }), None);
    assert_eq!(
        respond(&DeletedTextEvent::SettingsChanged { focused: false }),
        Some(DeletedTextResponse { highlight: off, cancel_selections: false, notify: false })
    );
}

#[test]
fn reverting_puts_the_deleted_text_back() {
    let hunk = hovered(3, 5, DiffHunkStatus::Modified);
    assert_eq!(
        revert_edit(&hunk, &Some(buffer_state())),
        Some(RevertEdit {
            buffer_id: 7,
            range: anchor(3).text_anchor..anchor(5).text_anchor,
            diff_base: 90,
            diff_base_byte_range: 10..20,
        })
    );
    assert_eq!(revert_edit(&hunk, &None), None);
    let mut untracked = buffer_state();
    untracked.diff_base = None;
    assert_eq!(revert_edit(&hunk, &Some(untracked)), None);
}

#[test]
fn the_menu_offers_to_collapse_what_is_expanded() {
    let mut hidden = expanded(3, 5, None);
    hidden.folded = true;
    let editor = editor_with(vec![hidden, expanded(8, 9, Some(2))]);
    let entry = |label: &'static str, action: Option<MenuAction>, command: MenuCommand| MenuEntry {
        label,
        action,
        command,
    };
    let toggle = Some(MenuAction::ToggleHunkDiff);
    let revert = Some(MenuAction::RevertSelectedHunks);

    let menu = editor.open_hunk_context_menu(&hovered(8, 9, DiffHunkStatus::Modified), true);
    assert_eq!(menu.source, anchor(8));
    assert_eq!(
        menu.entries,
        vec![
            entry("Collapse Hunk", toggle, MenuCommand::ToggleHunk),
            entry("Revert Hunk", revert, MenuCommand::RevertHunk),
            entry("Revert File", None, MenuCommand::RevertFile),
        ]
    );
    // A hunk in a fold does not count as expanded, nor does one with another end.
    let menu = editor.open_hunk_context_menu(&hovered(3, 5, DiffHunkStatus::Modified), false);
    assert_eq!(menu.source, anchor(5));
    assert_eq!(menu.entries[0], entry("Expand Hunk", toggle, MenuCommand::ToggleHunk));
    let menu = editor.open_hunk_context_menu(&hovered(8, 10, DiffHunkStatus::Modified), false);
    assert_eq!(menu.entries[0], entry("Expand Hunk", toggle, MenuCommand::ToggleHunk));
}

#[test]
fn the_menu_reverts_a_hunk_or_all_of_them() {
    let hunk = hovered(3, 5, DiffHunkStatus::Modified);
    let points = Point { row: 3, column: 0 }..Point { row: 5, column: 0 };
    let file = vec![diff_hunk(3, 5, 10..20), diff_hunk(8, 9, 30..40)];
    assert_eq!(
        hunks_to_revert(MenuCommand::RevertHunk, &hunk, &points, file.clone()),
        vec![diff_hunk(3, 5, 10..20)]
    );
    assert_eq!(hunks_to_revert(MenuCommand::RevertFile, &hunk, &points, file.clone()), file);
    assert_eq!(hunks_to_revert(MenuCommand::ToggleHunk, &hunk, &points, file.clone()), vec![]);
    let mut nowhere = hunk;
    nowhere.multi_buffer_range.start.buffer_id = None;
    nowhere.multi_buffer_range.end.buffer_id = None;
    assert_eq!(hunks_to_revert(MenuCommand::RevertHunk, &nowhere, &points, file), vec![]);

    assert_eq!(file_rows(MultiBufferRow(30)), MultiBufferRow(0)..MultiBufferRow(30));
    assert_eq!(revert_mode(MenuCommand::RevertHunk, true), Some(RevertMode::Plain));
    assert_eq!(revert_mode(MenuCommand::RevertFile, true), Some(RevertMode::InTransaction));
    assert_eq!(revert_mode(MenuCommand::ToggleHunk, true), None);
    assert_eq!(revert_mode(MenuCommand::RevertHunk, false), None);
    assert_eq!(revert_mode(MenuCommand::RevertFile, false), None);
}
