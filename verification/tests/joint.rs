use std::collections::HashSet;
use std::ops::Range;

use hunk_diff::anchor::{Anchor, AnchorOrder, Bias, DisplayRow, MultiBufferRow, TextAnchor};
use hunk_diff::diff_base::{BufferState, LineEnding};
use hunk_diff::editor::{Editor, ExpandAllHunkDiffs, PlacedHunk, ToggleHunkDiff};
use hunk_diff::effect::Effect;
use hunk_diff::expand::ExpandStep;
use hunk_diff::expanded::{DiffBaseBuffer, ExpandedHunks};
use hunk_diff::hunk::{
    DiffHunk, DiffHunkStatus, DisplayDiffHunk, ExpandedHunk, HoveredHunk, SnapshotHunk,
};

const BUFFER: u64 = 7;
const DIFF_BASE: u64 = 40;

/// Each row of the text holds ten characters, and each takes up a row of the screen.
fn anchor(offset: usize) -> Anchor {
    Anchor {
        buffer_id: Some(BUFFER),
        excerpt_id: 1,
        text_anchor: TextAnchor { timestamp: 0, offset, bias: Bias::Left },
    }
}

fn row_of(anchor: &Anchor) -> DisplayRow {
    DisplayRow((anchor.text_anchor.offset / 10) as u32)
}

fn rows_of(range: &Range<Anchor>) -> Range<DisplayRow> {
    row_of(&range.start)..row_of(&range.end)
}

fn row_anchors(start: u32, end: u32) -> Range<Anchor> {
    anchor(start as usize * 10)..anchor(end as usize * 10)
}

fn visible(start: u32, end: u32) -> SnapshotHunk {
    let range = row_anchors(start, end);
    SnapshotHunk {
        hunk: DiffHunk {
            associated_range: MultiBufferRow(start)..MultiBufferRow(end),
            buffer_id: BUFFER,
            buffer_range: range.start.text_anchor..range.end.text_anchor,
            diff_base_byte_range: 10..20,
        },
        status: DiffHunkStatus::Modified,
        display: DisplayDiffHunk::Unfolded {
            diff_base_byte_range: 10..20,
            display_row_range: DisplayRow(start)..DisplayRow(end),
            multi_buffer_range: range.clone(),
            status: DiffHunkStatus::Modified,
        },
        row_anchors: range,
    }
}

fn in_fold(start: u32, end: u32, row: u32) -> SnapshotHunk {
    let mut hunk = visible(start, end);
    hunk.display = DisplayDiffHunk::Folded { display_row: DisplayRow(row) };
    hunk
}

fn entry(start: u32, end: u32, block: usize) -> ExpandedHunk {
    ExpandedHunk {
        block: Some(block),
        hunk_range: row_anchors(start, end),
        diff_base_byte_range: 10..20,
        status: DiffHunkStatus::Modified,
        folded: false,
    }
}

fn editor_with(hunks: Vec<ExpandedHunk>) -> Editor {
    let mut expanded_hunks = ExpandedHunks::default();
    expanded_hunks.hunks = hunks;
    expanded_hunks
        .diff_base
        .insert(BUFFER, DiffBaseBuffer { buffer: DIFF_BASE, diff_base_version: 5 });
    Editor { expanded_hunks }
}

fn buffer_state() -> BufferState {
    BufferState {
        remote_id: BUFFER,
        diff_base_version: 5,
        diff_base: Some(90),
        line_ending: LineEnding::Unix,
        language: None,
    }
}

fn expanded_rows(editor: &Editor) -> Vec<Range<DisplayRow>> {
    editor.expanded_hunks.hunks.iter().map(|hunk| rows_of(&hunk.hunk_range)).collect()
}

fn expand(editor: &mut Editor, diff_base: Option<u64>, hunk: &HoveredHunk, block: usize) {
    let rows = rows_of(&hunk.multi_buffer_range);
    let found = visible(rows.start.0, rows.end.0).hunk;
    match editor.expand_diff_hunk(diff_base, hunk, &vec![found], &vec![buffer_state()]) {
        ExpandStep::Measure { diff_base_buffer, pending } => {
            let start = hunk.multi_buffer_range.start.text_anchor.offset;
            let starts: Vec<AnchorOrder> = editor
                .expanded_hunks
                .hunks
                .iter()
                .map(|other| {
                    let offset = other.hunk_range.start.text_anchor.offset;
                    if offset < start {
                        AnchorOrder::Before
                    } else if offset == start {
                        AnchorOrder::Same
                    } else {
                        AnchorOrder::After
                    }
                })
                .collect();
            let placement = editor.place_expansion(&pending, diff_base_buffer, &(2..4), &starts);
            if let Some(placement) = placement {
                editor.finish_expansion(placement, &vec![block]);
            }
        }
        step => panic!("unexpected step {:?}", step),
    }
}

/// Expands what is to be expanded, with blocks that are counted from `first_block` on.
/// Returns the other effects.
fn perform(editor: &mut Editor, effects: Vec<Effect>, first_block: usize) -> Vec<Effect> {
    let mut block = first_block;
    let mut others = Vec::new();
    for effect in effects {
        match effect {
            Effect::Expand { diff_base_buffer, hunk } => {
                expand(editor, diff_base_buffer, &hunk, block);
                block += 1;
            }
            other => others.push(other),
        }
    }
    others
}

fn toggle(editor: &mut Editor, hunks: &Vec<SnapshotHunk>, first_block: usize) -> Vec<Effect> {
    let rows = expanded_rows(editor);
    let effects = editor.apply_toggle(hunks, &rows);
    perform(editor, effects, first_block)
}

fn sync(editor: &mut Editor, diff: &Vec<SnapshotHunk>, first_block: usize) -> Vec<Effect> {
    let request = editor.sync_expanded_diff_hunks(&buffer_state(), 21);
    let rows = expanded_rows(editor);
    let effects = editor.apply_sync(&request, None, diff, &rows);
    perform(editor, effects, first_block)
}

fn removed(ids: &[usize]) -> Effect {
    Effect::RemoveBlocks { blocks: ids.iter().copied().collect::<HashSet<usize>>() }
}

#[test]
fn toggling_a_hunk_twice_changes_nothing() {
    let before = vec![entry(3, 5, 1), entry(20, 21, 2)];
    for (start, end) in [(0, 1), (8, 9), (30, 34)] {
        let mut editor = editor_with(before.clone());
        let hunk = vec![visible(start, end)];
        assert_eq!(toggle(&mut editor, &hunk, 60), vec![removed(&[]), Effect::Notify]);
        assert_eq!(editor.expanded_hunks.hunks.len(), 3);
        assert!(editor.expanded_hunks.hunks.contains(&entry(start, end, 60)));
        assert_eq!(
            toggle(&mut editor, &hunk, 70),
            vec![
                Effect::ClearHighlight { rows: row_anchors(start, end) },
                removed(&[60]),
                Effect::Notify,
            ]
        );
        assert_eq!(editor.expanded_hunks.hunks, before);
    }
}

#[test]
fn expanding_all_twice_is_as_good_as_once() {
    let mut editor = editor_with(vec![]);
    let hunks = vec![visible(3, 5), visible(8, 8), visible(20, 21)];
    let diff: Vec<PlacedHunk> = hunks
        .iter()
        .map(|hunk| PlacedHunk {
            hunk: hunk.hunk.clone(),
            display_rows: rows_of(&hunk.row_anchors),
        })
        .collect();
    let request = editor.expand_all_hunk_diffs(&ExpandAllHunkDiffs, &diff, &vec![], 11);
    assert_eq!(
        request.hunks_to_toggle,
        vec![hunks[0].hunk.clone(), hunks[1].hunk.clone(), hunks[2].hunk.clone()]
    );
    toggle(&mut editor, &hunks, 1);
    let all = vec![entry(3, 5, 1), entry(8, 8, 2), entry(20, 21, 3)];
    assert_eq!(editor.expanded_hunks.hunks, all);

    let rows = expanded_rows(&editor);
    let request = editor.expand_all_hunk_diffs(&ExpandAllHunkDiffs, &diff, &rows, 12);
    assert_eq!(request.hunks_to_toggle, vec![]);
    assert_eq!(toggle(&mut editor, &vec![], 60), vec![removed(&[]), Effect::Notify]);
    assert_eq!(editor.expanded_hunks.hunks, all);
}

#[test]
fn synchronizing_twice_is_as_good_as_once() {
    let mut editor = editor_with(vec![entry(3, 5, 1), entry(8, 9, 2), entry(20, 21, 3)]);
    // The first hunk has grown, the second is as it was, and the third is gone.
    let diff = vec![visible(3, 6), visible(8, 9)];
    assert_eq!(
        sync(&mut editor, &diff, 60),
        vec![
            Effect::ClearHighlight { rows: row_anchors(3, 5) },
            Effect::ClearHighlight { rows: row_anchors(20, 21) },
            removed(&[1, 3]),
        ]
    );
    let after = vec![entry(3, 6, 60), entry(8, 9, 2)];
    assert_eq!(editor.expanded_hunks.hunks, after);
    assert_eq!(sync(&mut editor, &diff, 70), vec![removed(&[])]);
    assert_eq!(editor.expanded_hunks.hunks, after);
}

#[test]
fn two_expanded_hunks_in_the_rows_of_one_are_told_apart_by_the_second_synchronization() {
    // The second one starts within a row, so that the hunk of the diff finds a place before it.
    let mut second = entry(5, 6, 2);
    second.hunk_range.start = anchor(51);
    let mut editor = editor_with(vec![entry(3, 5, 1), second.clone()]);
    let diff = vec![visible(5, 6)];
    sync(&mut editor, &diff, 60);
    assert_eq!(editor.expanded_hunks.hunks, vec![entry(5, 6, 60), second]);
    sync(&mut editor, &diff, 70);
    assert_eq!(editor.expanded_hunks.hunks, vec![entry(5, 6, 60)]);
}

#[test]
fn a_hunk_that_starts_within_a_row_stays_where_no_other_touches_it() {
    let mut within = entry(8, 9, 2);
    within.hunk_range.start = anchor(81);
    let mut editor = editor_with(vec![entry(3, 5, 1), within.clone()]);
    let diff = vec![visible(3, 6), visible(8, 9)];
    sync(&mut editor, &diff, 60);
    assert_eq!(editor.expanded_hunks.hunks, vec![entry(3, 6, 60), within.clone()]);
    assert_eq!(sync(&mut editor, &diff, 70), vec![removed(&[])]);
    assert_eq!(editor.expanded_hunks.hunks, vec![entry(3, 6, 60), within]);
}

#[test]
fn a_hunk_that_comes_out_of_its_fold_is_expanded_anew() {
    let mut editor = editor_with(vec![entry(3, 5, 1)]);
    assert_eq!(
        sync(&mut editor, &vec![in_fold(3, 5, 3)], 60),
        vec![Effect::ClearHighlight { rows: row_anchors(3, 5) }, removed(&[1])]
    );
    assert!(editor.expanded_hunks.hunks[0].folded);
    assert_eq!(editor.expanded_hunks.hunks[0].block, None);
    assert_eq!(
        sync(&mut editor, &vec![visible(3, 5)], 60),
        vec![Effect::ClearHighlight { rows: row_anchors(3, 5) }, removed(&[])]
    );
    assert_eq!(editor.expanded_hunks.hunks, vec![entry(3, 5, 60)]);
}

#[test]
fn nothing_outdated_stays_visible() {
    let mut outdated = entry(8, 9, 2);
    outdated.diff_base_byte_range = 11..20;
    let mut editor = editor_with(vec![entry(3, 5, 1), outdated]);
    // The fold hides neither of the two.
    let diff = vec![visible(3, 5), in_fold(6, 7, 6), visible(8, 9)];
    assert_eq!(
        sync(&mut editor, &diff, 60),
        vec![Effect::ClearHighlight { rows: row_anchors(8, 9) }, removed(&[2])]
    );
    assert_eq!(editor.expanded_hunks.hunks, vec![entry(3, 5, 1), entry(8, 9, 60)]);
}

#[test]
fn a_toggle_waits_for_the_one_before_whatever_is_synchronized() {
    let mut editor = editor_with(vec![]);
    editor.toggle_hunk_diff(&ToggleHunkDiff, vec![], 11);
    editor.sync_expanded_diff_hunks(&buffer_state(), 12);
    let mut other = buffer_state();
    other.remote_id = 8;
    editor.sync_expanded_diff_hunks(&other, 13);
    editor.sync_expanded_diff_hunks(&buffer_state(), 14);
    let request = editor.toggle_hunk_diff(&ToggleHunkDiff, vec![], 15);
    assert_eq!(request.previous_task, Some(11));
    assert_eq!(editor.expanded_hunks.sync_tasks.get(&BUFFER), Some(&14));
    assert_eq!(editor.expanded_hunks.sync_tasks.get(&8), Some(&13));
}
