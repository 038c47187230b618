use std::collections::HashSet;
use std::ops::Range;

use hunk_diff::anchor::{
    to_inclusive_row_range, Anchor, Bias, DisplayPoint, DisplayRow, MultiBufferRow, Point,
    TextAnchor,
};
use hunk_diff::diff_base::{BufferState, LineEnding};
use hunk_diff::editor::{Editor, ExpandAllHunkDiffs, PlacedHunk, ToggleHunkDiff};
use hunk_diff::effect::Effect;
use hunk_diff::expanded::{DiffBaseBuffer, ExpandedHunks};
use hunk_diff::hunk::{
    row_points, to_diff_hunk, DiffHunk, DiffHunkStatus, DisplayDiffHunk, ExpandedHunk, HoveredHunk,
    SnapshotHunk,
};

fn anchor(offset: usize) -> Anchor {
    Anchor {
        buffer_id: Some(7),
        excerpt_id: 1,
        text_anchor: TextAnchor { timestamp: 0, offset, bias: Bias::Left },
    }
}

fn anchors(start: usize, end: usize) -> Range<Anchor> {
    anchor(start)..anchor(end)
}

fn rows(start: u32, end: u32) -> Range<DisplayRow> {
    DisplayRow(start)..DisplayRow(end)
}

fn diff_hunk(start: u32, end: u32) -> DiffHunk {
    DiffHunk {
        associated_range: MultiBufferRow(start)..MultiBufferRow(end),
        buffer_id: 7,
        buffer_range: anchor(start as usize).text_anchor..anchor(end as usize).text_anchor,
        diff_base_byte_range: 10..20,
    }
}

fn expanded(start: usize, end: usize, block: Option<usize>) -> ExpandedHunk {
    ExpandedHunk {
        block,
        hunk_range: anchors(start, end),
        diff_base_byte_range: 10..20,
        status: DiffHunkStatus::Modified,
        folded: false,
    }
}

/// A hunk that is visible in the given rows. Its anchors differ from those of its rows in
/// the text by 1000.
fn visible(start: u32, end: u32) -> SnapshotHunk {
    SnapshotHunk {
        hunk: diff_hunk(start, end),
        status: DiffHunkStatus::Modified,
        display: DisplayDiffHunk::Unfolded {
            diff_base_byte_range: 10..20,
            display_row_range: rows(start, end),
            multi_buffer_range: anchors(start as usize, end as usize),
            status: DiffHunkStatus::Modified,
        },
        row_anchors: anchors(start as usize + 1000, end as usize + 1000),
    }
}

fn folded(start: u32, end: u32, row: u32) -> SnapshotHunk {
    SnapshotHunk {
        hunk: diff_hunk(start, end),
        status: DiffHunkStatus::Modified,
        display: DisplayDiffHunk::Folded { display_row: DisplayRow(row) },
        row_anchors: anchors(start as usize + 1000, end as usize + 1000),
    }
}

fn hovered(start: usize, end: usize) -> HoveredHunk {
    HoveredHunk {
        multi_buffer_range: anchors(start, end),
        status: DiffHunkStatus::Modified,
        diff_base_byte_range: 10..20,
    }
}

fn editor_with(hunks: Vec<ExpandedHunk>) -> Editor {
    let mut expanded_hunks = ExpandedHunks::default();
    expanded_hunks.hunks = hunks;
    Editor { expanded_hunks }
}

fn blocks(ids: &[usize]) -> HashSet<usize> {
    ids.iter().copied().collect()
}

fn expand(start: usize, end: usize) -> Effect {
    Effect::Expand { diff_base_buffer: None, hunk: hovered(start, end) }
}

#[test]
fn toggling_an_expanded_hunk_collapses_it() {
    let mut editor = editor_with(vec![expanded(3, 5, Some(1)), expanded(8, 9, Some(2))]);
    let effects = editor.apply_toggle(&vec![visible(8, 9)], &vec![rows(3, 5), rows(8, 9)]);
    assert_eq!(editor.expanded_hunks.hunks, vec![expanded(3, 5, Some(1))]);
    assert_eq!(
        effects,
        vec![
            Effect::ClearHighlight { rows: anchors(8, 9) },
            Effect::RemoveBlocks { blocks: blocks(&[2]) },
            Effect::Notify,
        ]
    );
}

#[test]
fn toggling_a_hunk_that_is_not_expanded_expands_it() {
    let mut editor = editor_with(vec![expanded(8, 9, Some(2))]);
    let effects = editor.apply_toggle(&vec![visible(3, 5)], &vec![rows(8, 9)]);
    assert_eq!(editor.expanded_hunks.hunks, vec![expanded(8, 9, Some(2))]);
    assert_eq!(
        effects,
        vec![Effect::RemoveBlocks { blocks: blocks(&[]) }, expand(3, 5), Effect::Notify]
    );
}

#[test]
fn hunks_after_the_last_expanded_one_are_expanded_by_their_rows() {
    let mut editor = editor_with(vec![expanded(3, 5, None)]);
    let toggles = vec![visible(3, 5), visible(8, 9), folded(12, 13, 10)];
    let effects = editor.apply_toggle(&toggles, &vec![rows(3, 5)]);
    assert_eq!(editor.expanded_hunks.hunks, vec![]);
    assert_eq!(
        effects,
        vec![
            Effect::ClearHighlight { rows: anchors(3, 5) },
            Effect::RemoveBlocks { blocks: blocks(&[]) },
            expand(1008, 1009),
            expand(1012, 1013),
            Effect::Notify,
        ]
    );
}

#[test]
fn toggling_several_hunks_collapses_and_expands() {
    let mut editor = editor_with(vec![
        expanded(3, 5, Some(1)),
        expanded(8, 9, Some(2)),
        expanded(20, 21, Some(3)),
    ]);
    let toggles = vec![visible(0, 1), visible(3, 5), visible(12, 14), visible(20, 21)];
    let effects =
        editor.apply_toggle(&toggles, &vec![rows(3, 5), rows(8, 9), rows(20, 21)]);
    assert_eq!(editor.expanded_hunks.hunks, vec![expanded(8, 9, Some(2))]);
    assert_eq!(
        effects,
        vec![
            Effect::ClearHighlight { rows: anchors(3, 5) },
            Effect::ClearHighlight { rows: anchors(20, 21) },
            Effect::RemoveBlocks { blocks: blocks(&[1, 3]) },
            expand(0, 1),
            expand(12, 14),
            Effect::Notify,
        ]
    );
}

#[test]
fn a_folded_hunk_is_skipped_before_an_expanded_one() {
    let mut editor = editor_with(vec![expanded(8, 9, Some(2))]);
    let effects =
        editor.apply_toggle(&vec![folded(2, 3, 2), visible(8, 9)], &vec![rows(8, 9)]);
    assert_eq!(editor.expanded_hunks.hunks, vec![]);
    assert_eq!(
        effects,
        vec![
            Effect::ClearHighlight { rows: anchors(8, 9) },
            Effect::RemoveBlocks { blocks: blocks(&[2]) },
            Effect::Notify,
        ]
    );
}

#[test]
fn an_expanded_hunk_in_a_fold_stays() {
    let mut hidden = expanded(3, 5, None);
    hidden.folded = true;
    let mut editor = editor_with(vec![hidden.clone()]);
    let effects = editor.apply_toggle(&vec![visible(3, 5)], &vec![rows(3, 5)]);
    assert_eq!(editor.expanded_hunks.hunks, vec![hidden]);
    assert_eq!(
        effects,
        vec![Effect::RemoveBlocks { blocks: blocks(&[]) }, expand(1003, 1005), Effect::Notify]
    );
}

#[test]
fn hunks_that_touch_are_not_told_apart() {
    // The second hunk starts in the row in which the first one ends, so it is dealt with
    // while the first one is gone through.
    let mut editor = editor_with(vec![expanded(3, 5, Some(1)), expanded(5, 6, Some(2))]);
    let effects = editor.apply_toggle(&vec![visible(5, 6)], &vec![rows(3, 5), rows(5, 6)]);
    assert_eq!(editor.expanded_hunks.hunks.len(), 2);
    assert_eq!(
        effects,
        vec![Effect::RemoveBlocks { blocks: blocks(&[]) }, expand(5, 6), Effect::Notify]
    );
}

#[test]
fn toggling_nothing_only_notifies() {
    let mut editor = editor_with(vec![expanded(3, 5, Some(1))]);
    let effects = editor.apply_toggle(&vec![], &vec![rows(3, 5)]);
    assert_eq!(editor.expanded_hunks.hunks, vec![expanded(3, 5, Some(1))]);
    assert_eq!(effects, vec![Effect::RemoveBlocks { blocks: blocks(&[]) }, Effect::Notify]);
}

#[test]
fn toggle_requests_wait_for_each_other() {
    let mut editor = editor_with(vec![]);
    let first = editor.toggle_hunk_diff(&ToggleHunkDiff, vec![diff_hunk(3, 5)], 11);
    assert_eq!(first.hunks_to_toggle, vec![diff_hunk(3, 5)]);
    assert_eq!(first.previous_task, None);
    assert!(!first.refresh_selections);
    let second = editor.toggle_hunk_diff(&ToggleHunkDiff, vec![], 12);
    assert_eq!(second.hunks_to_toggle, vec![]);
    assert_eq!(second.previous_task, Some(11));
    assert_eq!(editor.expanded_hunks.toggle_task, Some(12));
}

#[test]
fn a_hovered_hunk_is_toggled_by_its_rows() {
    let mut editor = editor_with(vec![]);
    let points = Point { row: 3, column: 0 }..Point { row: 5, column: 2 };
    let request = editor.toggle_hovered_hunk(&hovered(3, 5), &points, 11).unwrap();
    assert_eq!(request.hunks_to_toggle, vec![diff_hunk(3, 5)]);
    assert!(request.refresh_selections);
    assert_eq!(editor.expanded_hunks.toggle_task, Some(11));
}

#[test]
fn a_hovered_hunk_without_a_buffer_is_not_toggled() {
    let mut editor = editor_with(vec![]);
    let points = Point { row: 3, column: 0 }..Point { row: 5, column: 0 };
    let mut hunk = hovered(3, 5);
    hunk.multi_buffer_range.start.buffer_id = None;
    hunk.multi_buffer_range.end.buffer_id = None;
    assert_eq!(editor.toggle_hovered_hunk(&hunk, &points, 11), None);
    assert_eq!(editor.expanded_hunks.toggle_task, None);
    // The end alone is enough.
    hunk.multi_buffer_range.end.buffer_id = Some(9);
    assert_eq!(to_diff_hunk(&hunk, &points).unwrap().buffer_id, 9);
}

#[test]
fn expanding_all_leaves_out_what_is_expanded() {
    let mut hidden = expanded(30, 31, None);
    hidden.folded = true;
    let mut editor = editor_with(vec![expanded(3, 5, None), hidden]);
    let diff = vec![
        PlacedHunk { hunk: diff_hunk(3, 5), display_rows: rows(3, 5) },
        PlacedHunk { hunk: diff_hunk(8, 9), display_rows: rows(8, 9) },
        PlacedHunk { hunk: diff_hunk(30, 31), display_rows: rows(30, 31) },
    ];
    let expanded_rows = vec![rows(3, 5), rows(30, 31)];
    let request = editor.expand_all_hunk_diffs(&ExpandAllHunkDiffs, &diff, &expanded_rows, 11);
    assert_eq!(request.hunks_to_toggle, vec![diff_hunk(8, 9), diff_hunk(30, 31)]);
    assert_eq!(request.previous_task, None);
    // A hunk that starts in the same row but ends in another one is not the same.
    let diff = vec![PlacedHunk { hunk: diff_hunk(3, 6), display_rows: rows(3, 6) }];
    let request = editor.expand_all_hunk_diffs(&ExpandAllHunkDiffs, &diff, &expanded_rows, 12);
    assert_eq!(request.hunks_to_toggle, vec![diff_hunk(3, 6)]);
    assert_eq!(request.previous_task, Some(11));
}

#[test]
fn of_expanded_hunks_in_the_same_row_the_last_counts() {
    let mut editor = editor_with(vec![expanded(3, 3, None), expanded(4, 5, None)]);
    let expanded_rows = vec![rows(3, 3), rows(3, 5)];
    let diff = vec![
        PlacedHunk { hunk: diff_hunk(3, 3), display_rows: rows(3, 3) },
        PlacedHunk { hunk: diff_hunk(4, 5), display_rows: rows(3, 5) },
    ];
    let request = editor.expand_all_hunk_diffs(&ExpandAllHunkDiffs, &diff, &expanded_rows, 11);
    assert_eq!(request.hunks_to_toggle, vec![diff_hunk(3, 3)]);
}

#[test]
fn clearing_removes_everything() {
    let mut editor = editor_with(vec![expanded(3, 5, Some(1)), expanded(8, 9, Some(4))]);
    editor.expanded_hunks.diff_base.insert(7, DiffBaseBuffer { buffer: 40, diff_base_version: 1 });
    let buffer = BufferState {
        remote_id: 7,
        diff_base_version: 1,
        diff_base: Some(1),
        line_ending: LineEnding::Unix,
        language: None,
    };
    editor.toggle_hunk_diff(&ToggleHunkDiff, vec![], 11);
    editor.sync_expanded_diff_hunks(&buffer, 12);
    let cleared = editor.clear_clicked_diff_hunks();
    assert!(cleared.removed_blocks);
    assert_eq!(
        cleared.effects,
        vec![Effect::ClearAllHighlights, Effect::RemoveBlocks { blocks: blocks(&[1, 4]) }]
    );
    assert_eq!(editor.expanded_hunks.hunks, vec![]);
    assert_eq!(editor.expanded_hunks.toggle_task, None);
    assert!(editor.expanded_hunks.sync_tasks.is_empty());
    assert_eq!(editor.expanded_hunks.diff_base.len(), 1);
}

#[test]
fn clearing_without_blocks_says_so() {
    let mut editor = editor_with(vec![expanded(3, 5, None)]);
    let cleared = editor.clear_clicked_diff_hunks();
    assert!(!cleared.removed_blocks);
    assert_eq!(cleared.effects, vec![Effect::ClearAllHighlights]);
    assert_eq!(editor.expanded_hunks.hunks, vec![]);
}

#[test]
fn hunks_are_listed_with_and_without_folded_ones() {
    let mut hidden = expanded(3, 5, None);
    hidden.folded = true;
    let editor = editor_with(vec![hidden.clone(), expanded(8, 9, Some(1))]);
    assert_eq!(editor.expanded_hunks.hunks(true), vec![&hidden, &expanded(8, 9, Some(1))]);
    assert_eq!(editor.expanded_hunks.hunks(false), vec![&expanded(8, 9, Some(1))]);
}

#[test]
fn toggling_twice_restores_the_expanded_hunks() {
    let before = vec![expanded(3, 5, Some(1)), expanded(20, 21, Some(3))];
    let mut editor = editor_with(before.clone());
    let new = expanded(8, 9, Some(2));
    editor.expanded_hunks.hunks.insert(1, new);
    let effects =
        editor.apply_toggle(&vec![visible(8, 9)], &vec![rows(3, 5), rows(8, 9), rows(20, 21)]);
    assert_eq!(editor.expanded_hunks.hunks, before);
    assert_eq!(
        effects,
        vec![
            Effect::ClearHighlight { rows: anchors(8, 9) },
            Effect::RemoveBlocks { blocks: blocks(&[2]) },
            Effect::Notify,
        ]
    );
}

#[test]
fn the_last_row_is_not_highlighted() {
    let point = |row: u32, column: u32| DisplayPoint { row: DisplayRow(row), column };
    assert_eq!(to_inclusive_row_range(&(point(3, 1)..point(6, 2))), point(3, 1)..=point(5, 2));
    assert_eq!(to_inclusive_row_range(&(point(3, 1)..point(3, 2))), point(3, 1)..=point(3, 2));
    assert_eq!(to_inclusive_row_range(&(point(3, 0)..point(4, 0))), point(3, 0)..=point(3, 0));
}

#[test]
fn a_hunk_lies_between_the_starts_of_its_rows() {
    assert_eq!(
        row_points(&diff_hunk(3, 5)),
        Point { row: 3, column: 0 }..Point { row: 5, column: 0 }
    );
}

#[test]
fn expanding_all_collapses_nothing_and_then_finds_nothing() {
    let hunks = vec![expanded(3, 5, Some(1)), expanded(20, 21, Some(2))];
    let mut editor = editor_with(hunks.clone());
    let placed = |start: u32, end: u32| PlacedHunk {
        hunk: diff_hunk(start, end),
        display_rows: rows(start, end),
    };
    let diff = vec![placed(3, 5), placed(8, 9), placed(20, 21)];
    let expanded_rows = vec![rows(3, 5), rows(20, 21)];
    let request = editor.expand_all_hunk_diffs(&ExpandAllHunkDiffs, &diff, &expanded_rows, 11);
    assert_eq!(request.hunks_to_toggle, vec![diff_hunk(8, 9)]);
    let effects = editor.apply_toggle(&vec![visible(8, 9)], &expanded_rows);
    assert_eq!(editor.expanded_hunks.hunks, hunks);
    assert_eq!(
        effects,
        vec![Effect::RemoveBlocks { blocks: blocks(&[]) }, expand(8, 9), Effect::Notify]
    );
    editor.expanded_hunks.hunks.insert(1, expanded(8, 9, Some(3)));
    let expanded_rows = vec![rows(3, 5), rows(8, 9), rows(20, 21)];
    let request = editor.expand_all_hunk_diffs(&ExpandAllHunkDiffs, &diff, &expanded_rows, 12);
    assert_eq!(request.hunks_to_toggle, vec![]);
}

#[test]
fn what_the_menu_offers_to_collapse_is_collapsed() {
    let mut editor = editor_with(vec![expanded(3, 5, Some(1)), expanded(8, 9, Some(2))]);
    let menu = editor.open_hunk_context_menu(&hovered(8, 9), false);
    assert_eq!(menu.entries[0].label, "Collapse Hunk");
    editor.apply_toggle(&vec![visible(8, 9)], &vec![rows(3, 5), rows(8, 9)]);
    let menu = editor.open_hunk_context_menu(&hovered(8, 9), false);
    assert_eq!(menu.entries[0].label, "Expand Hunk");
}
