//! The context menu of a hunk.
use std::ops::Range;
use vstd::prelude::*;

use crate::anchor::{same_anchors, Anchor, MultiBufferRow, Point};
use crate::editor::Editor;
use crate::hunk::{hovered_buffer, to_diff_hunk, DiffHunk, ExpandedHunk, HoveredHunk};

verus! {

/// What an entry of the menu does.
#[derive(Debug, Clone, Copy, PartialEq, Eq, Structural)]
pub enum MenuCommand {
    ToggleHunk,
    RevertHunk,
    RevertFile,
}

/// A command of the editor whose key binding is shown beside an entry.
#[derive(Debug, Clone, Copy, PartialEq, Eq, Structural)]
pub enum MenuAction {
    ToggleHunkDiff,
    RevertSelectedHunks,
}

/// An entry of the menu.
#[derive(Debug, Clone, Copy, PartialEq, Eq)]
pub struct MenuEntry {
    pub label: &'static str,
    pub action: Option<MenuAction>,
    pub command: MenuCommand,
}

/// The menu of a hunk.
#[derive(Debug, PartialEq, Eq)]
pub struct HunkContextMenu {
    /// The end of the hunk to which the menu is pinned.
    pub source: Anchor,
    pub entries: Vec<MenuEntry>,
}

/// How changes that revert hunks are applied.
#[derive(Debug, Clone, Copy, PartialEq, Eq, Structural)]
pub enum RevertMode {
    /// As they are.
    Plain,
    /// In a transaction of their own.
    InTransaction,
}

/// Whether a visible one of `hunks` covers exactly the text of `range`.
pub open spec fn is_expanded(hunks: Seq<ExpandedHunk>, range: Range<Anchor>) -> bool {
    exists|i: int|
        0 <= i < hunks.len() && !(#[trigger] hunks[i]).folded && hunks[i].hunk_range == range
}

/// Whether `menu_entry` is made of the given parts.
pub open spec fn entry_is(
    menu_entry: MenuEntry,
    label: Seq<char>,
    action: Option<MenuAction>,
    command: MenuCommand,
) -> bool {
    menu_entry.label@ == label && menu_entry.action == action && menu_entry.command == command
}

/// The hunks that an entry of the menu reverts: the hunk of the menu, which covers
/// `point_range` of the text, or `file_hunks`, the hunks of the diff in the rows that
/// `file_rows` gives.
pub fn hunks_to_revert(
    command: MenuCommand,
    hovered_hunk: &HoveredHunk,
    point_range: &Range<Point>,
    file_hunks: Vec<DiffHunk>,
) -> (hunks: Vec<DiffHunk>)
    ensures
        command is ToggleHunk ==> hunks@.len() == 0,
        command is RevertFile ==> hunks@ == file_hunks@,
        command is RevertHunk ==> {
            &&& hovered_buffer(*hovered_hunk) is None ==> hunks@.len() == 0
            &&& hovered_buffer(*hovered_hunk) is Some ==> {
                &&& hunks@.len() == 1
                &&& Some(hunks@[0].buffer_id) == hovered_buffer(*hovered_hunk)
                &&& hunks@[0].associated_range.start.0 == point_range.start.row
                &&& hunks@[0].associated_range.end.0 == point_range.end.row
                &&& hunks@[0].buffer_range.start
                    == hovered_hunk.multi_buffer_range.start.text_anchor
                &&& hunks@[0].buffer_range.end == hovered_hunk.multi_buffer_range.end.text_anchor
                &&& hunks@[0].diff_base_byte_range == hovered_hunk.diff_base_byte_range
            }
        },
{
    match command {
        MenuCommand::ToggleHunk => Vec::new(),
        MenuCommand::RevertHunk => {
            let mut hunks: Vec<DiffHunk> = Vec::new();
            match to_diff_hunk(hovered_hunk, point_range) {
                Some(hunk) => {
                    hunks.push(hunk);
                },
                None => {},
            }
            hunks
        },
        MenuCommand::RevertFile => file_hunks,
    }
}

/// The rows in which the diff is searched for hunks when all of them are reverted.
pub fn file_rows(max_row: MultiBufferRow) -> (rows: Range<MultiBufferRow>)
    ensures
        rows.start.0 == 0,
        rows.end == max_row,
{
    Range { start: MultiBufferRow(0), end: max_row }
}

/// Decides how the changes that an entry of the menu has led to are applied; not at all if
/// there are none.
pub fn revert_mode(command: MenuCommand, has_changes: bool) -> (mode: Option<RevertMode>)
    ensures
        mode == (if !has_changes {
            None
        } else {
            match command {
                MenuCommand::ToggleHunk => None,
                MenuCommand::RevertHunk => Some(RevertMode::Plain),
                MenuCommand::RevertFile => Some(RevertMode::InTransaction),
            }
        }),
{
    if !has_changes {
        return None;
    }
    match command {
        MenuCommand::ToggleHunk => None,
        MenuCommand::RevertHunk => Some(RevertMode::Plain),
        MenuCommand::RevertFile => Some(RevertMode::InTransaction),
    }
}

impl Editor {
    /// Describes the menu of a hunk that the user points at. `start_is_closer` says whether
    /// the place that was clicked is closer to the start of the hunk than to its end.
    pub fn open_hunk_context_menu(
        &self,
        hovered_hunk: &HoveredHunk,
        start_is_closer: bool,
    ) -> (menu: HunkContextMenu)
        ensures
            menu.source == (if start_is_closer {
                hovered_hunk.multi_buffer_range.start
            } else {
                hovered_hunk.multi_buffer_range.end
            }),
            menu.entries@.len() == 3,
            entry_is(
                menu.entries@[0],
                if is_expanded(self.expanded_hunks.hunks@, hovered_hunk.multi_buffer_range) {
                    "Collapse Hunk"@
                } else {
                    "Expand Hunk"@
                },
                Some(MenuAction::ToggleHunkDiff),
                MenuCommand::ToggleHunk,
            ),
            entry_is(
                menu.entries@[1],
                "Revert Hunk"@,
                Some(MenuAction::RevertSelectedHunks),
                MenuCommand::RevertHunk,
            ),
            entry_is(menu.entries@[2], "Revert File"@, None, MenuCommand::RevertFile),
    {
        let expanded = self.has_expanded(&hovered_hunk.multi_buffer_range);
        let source = if start_is_closer {
            hovered_hunk.multi_buffer_range.start
        } else {
            hovered_hunk.multi_buffer_range.end
        };
        let mut entries: Vec<MenuEntry> = Vec::new();
        entries.push(
            MenuEntry {
                label: if expanded {
                    "Collapse Hunk"
                } else {
                    "Expand Hunk"
                },
                action: Some(MenuAction::ToggleHunkDiff),
                command: MenuCommand::ToggleHunk,
            },
        );
        entries.push(
            MenuEntry {
                label: "Revert Hunk",
                action: Some(MenuAction::RevertSelectedHunks),
                command: MenuCommand::RevertHunk,
            },
        );
        entries.push(
            MenuEntry { label: "Revert File", action: None, command: MenuCommand::RevertFile },
        );
        HunkContextMenu { source, entries }
    }

    /// Whether a visible expanded hunk covers exactly the text of `range`.
    fn has_expanded(&self, range: &Range<Anchor>) -> (expanded: bool)
        ensures
            expanded == is_expanded(self.expanded_hunks.hunks@, *range),
    {
        let mut i: usize = 0;
        while i < self.expanded_hunks.hunks.len()
            invariant
                i <= self.expanded_hunks.hunks@.len(),
                forall|j: int|
                    0 <= j < i ==> (#[trigger] self.expanded_hunks.hunks@[j]).folded
                        || self.expanded_hunks.hunks@[j].hunk_range != *range,
            decreases self.expanded_hunks.hunks@.len() - i,
        {
            let hunk = &self.expanded_hunks.hunks[i];
            if !hunk.folded && same_anchors(&hunk.hunk_range, range) {
                return true;
            }
            i = i + 1;
        }
        false
    }
}

} // verus!
