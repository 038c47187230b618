use std::collections::HashSet;
use std::ops::Range;

use hunk_diff::anchor::{Anchor, Bias, DisplayRow, MultiBufferRow, TextAnchor};
use hunk_diff::diff_base::{create_diff_base_buffer, BufferState, LineEnding, NewBuffer};
use hunk_diff::editor::Editor;
use hunk_diff::effect::Effect;
use hunk_diff::expanded::{DiffBaseBuffer, ExpandedHunks};
use hunk_diff::hunk::{
    DiffHunk, DiffHunkStatus, DisplayDiffHunk, ExpandedHunk, HoveredHunk, SnapshotHunk,
};
use hunk_diff::sync::{diff_base_to_create, SyncRequest};

const BUFFER: u64 = 7;
const OTHER: u64 = 8;

fn anchor_in(buffer: u64, offset: usize) -> Anchor {
    Anchor {
        buffer_id: Some(buffer),
        excerpt_id: 1,
        text_anchor: TextAnchor { timestamp: 0, offset, bias: Bias::Right },
    }
}

fn anchors(buffer: u64, start: usize, end: usize) -> Range<Anchor> {
    anchor_in(buffer, start)..anchor_in(buffer, end)
}

fn rows(start: u32, end: u32) -> Range<DisplayRow> {
    DisplayRow(start)..DisplayRow(end)
}

fn expanded(buffer: u64, start: usize, end: usize, block: Option<usize>) -> ExpandedHunk {
    ExpandedHunk {
        block,
        hunk_range: anchors(buffer, start, end),
        diff_base_byte_range: 10..20,
        status: DiffHunkStatus::Modified,
        folded: false,
    }
}

fn snapshot_hunk(
    buffer: u64,
    range: Range<u32>,
    bytes: Range<usize>,
    status: DiffHunkStatus,
) -> SnapshotHunk {
    let text = anchors(buffer, range.start as usize, range.end as usize);
    SnapshotHunk {
        hunk: DiffHunk {
            associated_range: MultiBufferRow(range.start)..MultiBufferRow(range.end),
            buffer_id: buffer,
            buffer_range: text.start.text_anchor..text.end.text_anchor,
            diff_base_byte_range: bytes.clone(),
        },
        status,
        display: DisplayDiffHunk::Unfolded {
            diff_base_byte_range: bytes,
            display_row_range: rows(range.start, range.end),
            multi_buffer_range: text.clone(),
            status,
        },
        row_anchors: text,
    }
}

fn visible(buffer: u64, start: u32, end: u32) -> SnapshotHunk {
    snapshot_hunk(buffer, start..end, 10..20, DiffHunkStatus::Modified)
}

fn in_fold(buffer: u64, start: u32, end: u32, row: u32) -> SnapshotHunk {
    let mut hunk = visible(buffer, start, end);
    hunk.display = DisplayDiffHunk::Folded { display_row: DisplayRow(row) };
    hunk
}

fn hovered(start: usize, end: usize, bytes: Range<usize>) -> HoveredHunk {
    HoveredHunk {
        multi_buffer_range: anchors(BUFFER, start, end),
        status: DiffHunkStatus::Modified,
        diff_base_byte_range: bytes,
    }
}

fn editor_with(hunks: Vec<ExpandedHunk>) -> Editor {
    let mut expanded_hunks = ExpandedHunks::default();
    expanded_hunks.hunks = hunks;
    Editor { expanded_hunks }
}

fn blocks(ids: &[usize]) -> HashSet<usize> {
    ids.iter().copied().collect()
}

fn buffer_state(diff_base_version: usize) -> BufferState {
    BufferState {
        remote_id: BUFFER,
        diff_base_version,
        diff_base: Some(90),
        line_ending: LineEnding::Windows,
        language: Some(3),
    }
}

fn request(diff_base_buffer: Option<u64>) -> SyncRequest {
    SyncRequest {
        buffer_id: BUFFER,
        diff_base_version: 5,
        diff_base_buffer,
        cancelled_task: None,
    }
}

#[test]
fn an_unchanged_diff_changes_nothing() {
    let hunks = vec![expanded(BUFFER, 3, 5, Some(1)), expanded(BUFFER, 8, 9, Some(2))];
    let mut editor = editor_with(hunks.clone());
    let diff = vec![visible(BUFFER, 0, 1), visible(BUFFER, 3, 5), visible(BUFFER, 8, 9)];
    let effects =
        editor.apply_sync(&request(Some(40)), None, &diff, &vec![rows(3, 5), rows(8, 9)]);
    assert_eq!(editor.expanded_hunks.hunks, hunks);
    assert_eq!(effects, vec![Effect::RemoveBlocks { blocks: blocks(&[]) }]);
    assert_eq!(
        editor.expanded_hunks.diff_base.get(&BUFFER),
        Some(&DiffBaseBuffer { buffer: 40, diff_base_version: 5 })
    );
}

#[test]
fn another_diff_base_drops_the_hunks_of_the_buffer() {
    let mut editor = editor_with(vec![
        expanded(BUFFER, 3, 5, Some(1)),
        expanded(OTHER, 8, 9, Some(2)),
        expanded(BUFFER, 12, 13, None),
    ]);
    let diff = vec![visible(BUFFER, 3, 5), visible(OTHER, 8, 9), visible(BUFFER, 12, 13)];
    let expanded_rows = vec![rows(3, 5), rows(8, 9), rows(12, 13)];
    let effects = editor.apply_sync(&request(None), Some(41), &diff, &expanded_rows);
    assert_eq!(editor.expanded_hunks.hunks, vec![expanded(OTHER, 8, 9, Some(2))]);
    assert_eq!(
        effects,
        vec![
            Effect::ClearHighlight { rows: anchors(BUFFER, 3, 5) },
            Effect::ClearHighlight { rows: anchors(BUFFER, 12, 13) },
            Effect::RemoveBlocks { blocks: blocks(&[1]) },
        ]
    );
    assert_eq!(
        editor.expanded_hunks.diff_base.get(&BUFFER),
        Some(&DiffBaseBuffer { buffer: 41, diff_base_version: 5 })
    );
}

#[test]
fn without_a_diff_base_nothing_is_remembered() {
    let mut editor = editor_with(vec![expanded(BUFFER, 3, 5, Some(1))]);
    let effects = editor.apply_sync(&request(None), None, &vec![], &vec![rows(3, 5)]);
    assert_eq!(editor.expanded_hunks.hunks, vec![]);
    assert_eq!(
        effects,
        vec![
            Effect::ClearHighlight { rows: anchors(BUFFER, 3, 5) },
            Effect::RemoveBlocks { blocks: blocks(&[1]) },
        ]
    );
    assert!(editor.expanded_hunks.diff_base.is_empty());
}

#[test]
fn a_changed_hunk_is_expanded_anew() {
    let mut editor = editor_with(vec![expanded(BUFFER, 3, 5, Some(1))]);
    let diff = vec![visible(BUFFER, 3, 6)];
    let effects = editor.apply_sync(&request(Some(40)), None, &diff, &vec![rows(3, 5)]);
    assert_eq!(editor.expanded_hunks.hunks, vec![]);
    assert_eq!(
        effects,
        vec![
            Effect::ClearHighlight { rows: anchors(BUFFER, 3, 5) },
            Effect::RemoveBlocks { blocks: blocks(&[1]) },
            Effect::Expand { diff_base_buffer: Some(40), hunk: hovered(3, 6, 10..20) },
        ]
    );
}

#[test]
fn other_bytes_or_another_status_are_a_change() {
    let other_bytes = snapshot_hunk(BUFFER, 3..5, 10..21, DiffHunkStatus::Modified);
    let mut editor = editor_with(vec![expanded(BUFFER, 3, 5, None)]);
    let effects =
        editor.apply_sync(&request(Some(40)), None, &vec![other_bytes], &vec![rows(3, 5)]);
    assert_eq!(editor.expanded_hunks.hunks, vec![]);
    assert_eq!(
        effects[2],
        Effect::Expand { diff_base_buffer: Some(40), hunk: hovered(3, 5, 10..21) }
    );

    let other_status = snapshot_hunk(BUFFER, 3..5, 10..20, DiffHunkStatus::Added);
    let mut editor = editor_with(vec![expanded(BUFFER, 3, 5, None)]);
    let effects =
        editor.apply_sync(&request(Some(40)), None, &vec![other_status], &vec![rows(3, 5)]);
    assert_eq!(editor.expanded_hunks.hunks, vec![]);
    let mut expected = hovered(3, 5, 10..20);
    expected.status = DiffHunkStatus::Added;
    assert_eq!(effects[2], Effect::Expand { diff_base_buffer: Some(40), hunk: expected });
}

#[test]
fn two_hunks_that_became_one_are_both_replaced_by_it() {
    let mut editor =
        editor_with(vec![expanded(BUFFER, 3, 5, Some(1)), expanded(BUFFER, 6, 8, Some(2))]);
    let diff = vec![visible(BUFFER, 3, 8)];
    let effects =
        editor.apply_sync(&request(Some(40)), None, &diff, &vec![rows(3, 5), rows(6, 8)]);
    assert_eq!(editor.expanded_hunks.hunks, vec![]);
    let again = Effect::Expand { diff_base_buffer: Some(40), hunk: hovered(3, 8, 10..20) };
    let again_twice =
        Effect::Expand { diff_base_buffer: Some(40), hunk: hovered(3, 8, 10..20) };
    assert_eq!(
        effects,
        vec![
            Effect::ClearHighlight { rows: anchors(BUFFER, 3, 5) },
            Effect::ClearHighlight { rows: anchors(BUFFER, 6, 8) },
            Effect::RemoveBlocks { blocks: blocks(&[1, 2]) },
            again,
            again_twice,
        ]
    );
}

#[test]
fn a_hunk_that_left_the_diff_is_dropped() {
    let mut editor =
        editor_with(vec![expanded(BUFFER, 3, 5, Some(1)), expanded(BUFFER, 20, 22, Some(2))]);
    let diff = vec![visible(BUFFER, 10, 12)];
    let effects =
        editor.apply_sync(&request(Some(40)), None, &diff, &vec![rows(3, 5), rows(20, 22)]);
    assert_eq!(editor.expanded_hunks.hunks, vec![]);
    assert_eq!(
        effects,
        vec![
            Effect::ClearHighlight { rows: anchors(BUFFER, 3, 5) },
            Effect::ClearHighlight { rows: anchors(BUFFER, 20, 22) },
            Effect::RemoveBlocks { blocks: blocks(&[1, 2]) },
        ]
    );
}

#[test]
fn a_hunk_that_disappears_in_a_fold_gives_up_its_block() {
    let mut editor =
        editor_with(vec![expanded(BUFFER, 3, 5, Some(1)), expanded(BUFFER, 8, 9, Some(2))]);
    // The fold may be in the row after the last one of the hunk.
    let diff = vec![in_fold(BUFFER, 3, 5, 5), visible(BUFFER, 8, 9)];
    let effects =
        editor.apply_sync(&request(Some(40)), None, &diff, &vec![rows(3, 5), rows(8, 9)]);
    let mut hidden = expanded(BUFFER, 3, 5, None);
    hidden.folded = true;
    assert_eq!(editor.expanded_hunks.hunks, vec![hidden, expanded(BUFFER, 8, 9, Some(2))]);
    assert_eq!(
        effects,
        vec![
            Effect::ClearHighlight { rows: anchors(BUFFER, 3, 5) },
            Effect::RemoveBlocks { blocks: blocks(&[1]) },
        ]
    );
}

#[test]
fn a_fold_elsewhere_is_skipped() {
    let mut editor = editor_with(vec![expanded(BUFFER, 8, 9, Some(2))]);
    let diff = vec![in_fold(BUFFER, 3, 5, 2), visible(BUFFER, 8, 9)];
    let effects = editor.apply_sync(&request(Some(40)), None, &diff, &vec![rows(8, 9)]);
    assert_eq!(editor.expanded_hunks.hunks, vec![expanded(BUFFER, 8, 9, Some(2))]);
    assert_eq!(effects, vec![Effect::RemoveBlocks { blocks: blocks(&[]) }]);
}

#[test]
fn a_hunk_that_was_in_a_fold_leaves_with_the_next_diff() {
    let mut hidden = expanded(BUFFER, 3, 5, None);
    hidden.folded = true;
    // Visible again: it is expanded anew.
    let mut editor = editor_with(vec![hidden.clone()]);
    let effects = editor.apply_sync(
        &request(Some(40)),
        None,
        &vec![visible(BUFFER, 3, 5)],
        &vec![rows(3, 5)],
    );
    assert_eq!(editor.expanded_hunks.hunks, vec![]);
    assert_eq!(effects.len(), 3);
    assert_eq!(
        effects[2],
        Effect::Expand { diff_base_buffer: Some(40), hunk: hovered(3, 5, 10..20) }
    );
    // Still in the fold: it is dropped.
    let mut editor = editor_with(vec![hidden]);
    let effects = editor.apply_sync(
        &request(Some(40)),
        None,
        &vec![in_fold(BUFFER, 3, 5, 3)],
        &vec![rows(3, 5)],
    );
    assert_eq!(editor.expanded_hunks.hunks, vec![]);
    assert_eq!(effects.len(), 2);
}

#[test]
fn hunks_of_other_buffers_do_not_decide() {
    let mut editor = editor_with(vec![expanded(BUFFER, 3, 5, Some(1))]);
    let diff = vec![visible(OTHER, 3, 6), visible(BUFFER, 3, 5)];
    let effects = editor.apply_sync(&request(Some(40)), None, &diff, &vec![rows(3, 5)]);
    assert_eq!(editor.expanded_hunks.hunks, vec![expanded(BUFFER, 3, 5, Some(1))]);
    assert_eq!(effects, vec![Effect::RemoveBlocks { blocks: blocks(&[]) }]);
}

#[test]
fn a_request_replaces_the_task_and_looks_up_the_diff_base() {
    let mut editor = editor_with(vec![]);
    editor
        .expanded_hunks
        .diff_base
        .insert(BUFFER, DiffBaseBuffer { buffer: 40, diff_base_version: 5 });
    let first = editor.sync_expanded_diff_hunks(&buffer_state(5), 21);
    assert_eq!(
        first,
        SyncRequest {
            buffer_id: BUFFER,
            diff_base_version: 5,
            diff_base_buffer: Some(40),
            cancelled_task: None,
        }
    );
    let second = editor.sync_expanded_diff_hunks(&buffer_state(6), 22);
    assert_eq!(
        second,
        SyncRequest {
            buffer_id: BUFFER,
            diff_base_version: 6,
            diff_base_buffer: None,
            cancelled_task: Some(21),
        }
    );
    assert!(editor.expanded_hunks.diff_base.is_empty());
    assert_eq!(editor.expanded_hunks.sync_tasks.get(&BUFFER), Some(&22));
}

#[test]
fn what_a_synchronization_worked_with_is_current_afterwards() {
    let mut editor = editor_with(vec![]);
    assert_eq!(editor.current_diff_base_buffer(&buffer_state(5)), None);
    editor.apply_sync(&request(None), Some(41), &vec![], &vec![]);
    assert_eq!(editor.current_diff_base_buffer(&buffer_state(5)), Some(41));
    assert_eq!(editor.current_diff_base_buffer(&buffer_state(5)), Some(41));
    // An outdated one is forgotten.
    assert_eq!(editor.current_diff_base_buffer(&buffer_state(6)), None);
    assert_eq!(editor.current_diff_base_buffer(&buffer_state(5)), None);
}

#[test]
fn the_buffer_of_a_diff_base_is_like_its_buffer() {
    assert_eq!(
        create_diff_base_buffer(&buffer_state(5)),
        Some(NewBuffer { text: 90, line_ending: LineEnding::Windows, language: Some(3) })
    );
    let mut untracked = buffer_state(5);
    untracked.diff_base = None;
    assert_eq!(create_diff_base_buffer(&untracked), None);
    // It is created for a request that came without one only.
    assert_eq!(
        diff_base_to_create(&request(None), &buffer_state(5)),
        Some(NewBuffer { text: 90, line_ending: LineEnding::Windows, language: Some(3) })
    );
    assert_eq!(diff_base_to_create(&request(None), &untracked), None);
    assert_eq!(diff_base_to_create(&request(Some(40)), &buffer_state(5)), None);
}

#[test]
fn a_fold_further_down_is_used_up_by_the_hunk_before() {
    let mut editor =
        editor_with(vec![expanded(BUFFER, 3, 5, Some(1)), expanded(BUFFER, 8, 9, Some(2))]);
    let diff = vec![in_fold(BUFFER, 8, 9, 8)];
    let effects =
        editor.apply_sync(&request(Some(40)), None, &diff, &vec![rows(3, 5), rows(8, 9)]);
    assert_eq!(editor.expanded_hunks.hunks, vec![]);
    assert_eq!(effects.len(), 3);
}
