//! The editor, as far as its expanded hunks are concerned: what starts a change of them.
use std::collections::{HashMap, HashSet};
use std::ops::Range;
use vstd::prelude::*;

use crate::anchor::{BufferId, DisplayRow, Point};
use crate::diff_base::{current_diff_base, BufferState};
use crate::effect::{effect_views, Effect, EffectView};
use crate::expanded::{blocks_of, lemma_blocks_of_push, ExpandedHunks, TaskId};
use crate::hunk::{
    hovered_buffer, to_diff_hunk, CustomBlockId, DiffHunk, ExpandedHunk, HoveredHunk,
};
use crate::sync::SyncRequest;

verus! {

broadcast use vstd::std_specs::hash::group_hash_axioms;

/// An editor with its expanded hunks.
#[derive(Debug)]
pub struct Editor {
    pub expanded_hunks: ExpandedHunks,
}

/// The command to toggle the hunks in the selections.
#[derive(Debug, Clone, Copy, PartialEq, Eq, Structural)]
pub struct ToggleHunkDiff;

/// The command to expand all the hunks.
#[derive(Debug, Clone, Copy, PartialEq, Eq, Structural)]
pub struct ExpandAllHunkDiffs;

/// Hunks to be toggled by a task of their own.
#[derive(Debug, PartialEq, Eq)]
pub struct ToggleRequest {
    pub hunks_to_toggle: Vec<DiffHunk>,
    /// The task that toggled hunks before, for which the new one waits.
    pub previous_task: Option<TaskId>,
    /// Whether the selections are to be placed anew once the task has been started.
    pub refresh_selections: bool,
}

/// A hunk of the diff with the rows in which its first row and the row after its last one
/// are shown.
#[derive(Debug, PartialEq, Eq)]
pub struct PlacedHunk {
    pub hunk: DiffHunk,
    pub display_rows: Range<DisplayRow>,
}

/// What clearing the expanded hunks has led to.
#[derive(Debug, PartialEq, Eq)]
pub struct ClearedHunks {
    /// Whether there were blocks to remove.
    pub removed_blocks: bool,
    /// What is to be done on the screen, in this order.
    pub effects: Vec<Effect>,
}

/// The rows after the first `count` of the expanded hunks, by the row in which the hunk
/// starts. Hunks that have disappeared in a fold are left out, and of several hunks that
/// start in the same row the last one counts.
pub open spec fn expanded_row_ends(
    hunks: Seq<ExpandedHunk>,
    rows: Seq<Range<DisplayRow>>,
    count: nat,
) -> Map<u32, u32>
    decreases count,
{
    if count == 0 {
        Map::empty()
    } else {
        let before = expanded_row_ends(hunks, rows, (count - 1) as nat);
        if hunks[count - 1].folded {
            before
        } else {
            before.insert(rows[count - 1].start.0, rows[count - 1].end.0)
        }
    }
}

/// The hunk in question, unless some hunk is expanded in the same rows.
pub open spec fn unless_expanded(hunk: PlacedHunk, row_ends: Map<u32, u32>) -> Option<DiffHunk> {
    if row_ends.contains_key(hunk.display_rows.start.0) && row_ends[hunk.display_rows.start.0]
        == hunk.display_rows.end.0 {
        None
    } else {
        Some(hunk.hunk)
    }
}

/// The hunks of the diff that are not expanded.
pub open spec fn unexpanded_hunks(
    hunks: Seq<ExpandedHunk>,
    rows: Seq<Range<DisplayRow>>,
    diff: Seq<PlacedHunk>,
) -> Seq<DiffHunk> {
    let row_ends = expanded_row_ends(hunks, rows, hunks.len());
    diff.filter_map(|hunk: PlacedHunk| unless_expanded(hunk, row_ends))
}

/// What clearing `hunks` does on the screen.
pub open spec fn clear_all_effects(hunks: Seq<ExpandedHunk>) -> Seq<EffectView> {
    if blocks_of(hunks).is_empty() {
        seq![EffectView::ClearAllHighlights]
    } else {
        seq![
            EffectView::ClearAllHighlights,
            EffectView::RemoveBlocks { blocks: blocks_of(hunks) },
        ]
    }
}

impl Editor {
    /// Toggles a hunk that the user points at, which covers `point_range` of the text, in
    /// the new task `task`. Nothing happens if the hunk lies in no buffer.
    pub fn toggle_hovered_hunk(
        &mut self,
        hovered_hunk: &HoveredHunk,
        point_range: &Range<Point>,
        task: TaskId,
    ) -> (result: Option<ToggleRequest>)
        ensures
            result is Some <==> hovered_buffer(*hovered_hunk) is Some,
            result matches Some(request) ==> {
                &&& request.hunks_to_toggle@.len() == 1
                &&& Some(request.hunks_to_toggle@[0].buffer_id) == hovered_buffer(*hovered_hunk)
                &&& request.hunks_to_toggle@[0].associated_range.start.0 == point_range.start.row
                &&& request.hunks_to_toggle@[0].associated_range.end.0 == point_range.end.row
                &&& request.hunks_to_toggle@[0].buffer_range.start
                    == hovered_hunk.multi_buffer_range.start.text_anchor
                &&& request.hunks_to_toggle@[0].buffer_range.end
                    == hovered_hunk.multi_buffer_range.end.text_anchor
                &&& request.hunks_to_toggle@[0].diff_base_byte_range
                    == hovered_hunk.diff_base_byte_range
                &&& request.refresh_selections
                &&& request.previous_task == old(self).expanded_hunks.hunk_update_tasks().get(None)
                &&& final(self).expanded_hunks.hunk_update_tasks()
                    == old(self).expanded_hunks.hunk_update_tasks().insert(None, task)
                &&& final(self).expanded_hunks.hunks == old(self).expanded_hunks.hunks
                &&& final(self).expanded_hunks.diff_base == old(self).expanded_hunks.diff_base
            },
            result is None ==> *final(self) == *old(self),
    {
        match to_diff_hunk(hovered_hunk, point_range) {
            Some(diff_hunk) => {
                let mut hunks_to_toggle: Vec<DiffHunk> = Vec::new();
                hunks_to_toggle.push(diff_hunk);
                let mut request = self.toggle_hunks_expanded(hunks_to_toggle, task);
                request.refresh_selections = true;
                Some(request)
            },
            None => None,
        }
    }

    /// Toggles the hunks of the diff in the selections, `selected_hunks`, in the new task
    /// `task`.
    pub fn toggle_hunk_diff(
        &mut self,
        _action: &ToggleHunkDiff,
        selected_hunks: Vec<DiffHunk>,
        task: TaskId,
    ) -> (request: ToggleRequest)
        ensures
            request.hunks_to_toggle@ == selected_hunks@,
            !request.refresh_selections,
            request.previous_task == old(self).expanded_hunks.hunk_update_tasks().get(None),
            final(self).expanded_hunks.hunk_update_tasks()
                == old(self).expanded_hunks.hunk_update_tasks().insert(None, task),
            final(self).expanded_hunks.hunks == old(self).expanded_hunks.hunks,
            final(self).expanded_hunks.diff_base == old(self).expanded_hunks.diff_base,
    {
        self.toggle_hunks_expanded(selected_hunks, task)
    }

    /// Expands the hunks of the diff that are not expanded yet, in the new task `task`.
    /// `diff` are the hunks of the diff, and `expanded_rows` the rows in which the expanded
    /// hunks are shown, both in the same snapshot.
    pub fn expand_all_hunk_diffs(
        &mut self,
        _action: &ExpandAllHunkDiffs,
        diff: &Vec<PlacedHunk>,
        expanded_rows: &Vec<Range<DisplayRow>>,
        task: TaskId,
    ) -> (request: ToggleRequest)
        requires
            expanded_rows@.len() == old(self).expanded_hunks.hunks@.len(),
        ensures
            request.hunks_to_toggle@ == unexpanded_hunks(
                old(self).expanded_hunks.hunks@,
                expanded_rows@,
                diff@,
            ),
            !request.refresh_selections,
            request.previous_task == old(self).expanded_hunks.hunk_update_tasks().get(None),
            final(self).expanded_hunks.hunk_update_tasks()
                == old(self).expanded_hunks.hunk_update_tasks().insert(None, task),
            final(self).expanded_hunks.hunks == old(self).expanded_hunks.hunks,
            final(self).expanded_hunks.diff_base == old(self).expanded_hunks.diff_base,
    {
        let ghost hunks = self.expanded_hunks.hunks@;
        let mut row_ends: HashMap<u32, u32> = HashMap::new();
        let mut i: usize = 0;
        while i < self.expanded_hunks.hunks.len()
            invariant
                *self == *old(self),
                hunks == self.expanded_hunks.hunks@,
                i <= hunks.len(),
                expanded_rows@.len() == hunks.len(),
                row_ends@ == expanded_row_ends(hunks, expanded_rows@, i as nat),
            decreases hunks.len() - i,
        {
            if !self.expanded_hunks.hunks[i].folded {
                row_ends.insert(expanded_rows[i].start.0, expanded_rows[i].end.0);
            }
            i = i + 1;
        }
        let ghost unless = |hunk: PlacedHunk| unless_expanded(hunk, row_ends@);
        let mut hunks_to_toggle: Vec<DiffHunk> = Vec::new();
        let mut j: usize = 0;
        while j < diff.len()
            invariant
                j <= diff.len(),
                unless == (|hunk: PlacedHunk| unless_expanded(hunk, row_ends@)),
                hunks_to_toggle@ == diff@.take(j as int).filter_map(unless),
            decreases diff.len() - j,
        {
            proof {
                assert(diff@.take(j + 1).drop_last() =~= diff@.take(j as int));
                assert(diff@.take(j + 1).last() == diff@[j as int]);
            }
            let ghost before = hunks_to_toggle@;
            let expanded = match row_ends.get(&diff[j].display_rows.start.0) {
                Some(row_end) => *row_end == diff[j].display_rows.end.0,
                None => false,
            };
            if !expanded {
                hunks_to_toggle.push(diff[j].hunk.clone());
                assert(hunks_to_toggle@ =~= before + seq![diff@[j as int].hunk]);
            }
            j = j + 1;
        }
        assert(diff@.take(diff@.len() as int) =~= diff@);
        self.toggle_hunks_expanded(hunks_to_toggle, task)
    }

    /// Asks for hunks to be toggled in the new task `task`, which waits for the task that
    /// toggled hunks before.
    pub fn toggle_hunks_expanded(
        &mut self,
        hunks_to_toggle: Vec<DiffHunk>,
        task: TaskId,
    ) -> (request: ToggleRequest)
        ensures
            request.hunks_to_toggle@ == hunks_to_toggle@,
            !request.refresh_selections,
            request.previous_task == old(self).expanded_hunks.hunk_update_tasks().get(None),
            final(self).expanded_hunks.hunk_update_tasks()
                == old(self).expanded_hunks.hunk_update_tasks().insert(None, task),
            final(self).expanded_hunks.hunks == old(self).expanded_hunks.hunks,
            final(self).expanded_hunks.diff_base == old(self).expanded_hunks.diff_base,
    {
        let previous_task = self.expanded_hunks.toggle_task;
        self.expanded_hunks.toggle_task = Some(task);
        assert(self.expanded_hunks.hunk_update_tasks()
            =~= old(self).expanded_hunks.hunk_update_tasks().insert(None, task));
        ToggleRequest { hunks_to_toggle, previous_task, refresh_selections: false }
    }

    /// Asks for the expanded hunks of a buffer to be synchronized with the diff in the new
    /// task `task`, in place of an earlier one for this buffer.
    pub fn sync_expanded_diff_hunks(&mut self, buffer: &BufferState, task: TaskId) -> (request:
        SyncRequest)
        ensures
            request == (SyncRequest {
                buffer_id: buffer.remote_id,
                diff_base_version: buffer.diff_base_version,
                diff_base_buffer: current_diff_base(old(self).expanded_hunks, *buffer),
                cancelled_task: old(self).expanded_hunks.hunk_update_tasks().get(
                    Some(buffer.remote_id),
                ),
            }),
            final(self).expanded_hunks.hunk_update_tasks()
                == old(self).expanded_hunks.hunk_update_tasks().insert(
                Some(buffer.remote_id),
                task,
            ),
            final(self).expanded_hunks.diff_base@ == (if request.diff_base_buffer is Some {
                old(self).expanded_hunks.diff_base@
            } else {
                old(self).expanded_hunks.diff_base@.remove(buffer.remote_id)
            }),
            final(self).expanded_hunks.hunks == old(self).expanded_hunks.hunks,
    {
        let cancelled_task = self.expanded_hunks.sync_tasks.remove(&buffer.remote_id);
        let diff_base_buffer = self.current_diff_base_buffer(buffer);
        self.expanded_hunks.sync_tasks.insert(buffer.remote_id, task);
        assert(self.expanded_hunks.hunk_update_tasks()
            =~= old(self).expanded_hunks.hunk_update_tasks().insert(
            Some(buffer.remote_id),
            task,
        ));
        SyncRequest {
            buffer_id: buffer.remote_id,
            diff_base_version: buffer.diff_base_version,
            diff_base_buffer,
            cancelled_task,
        }
    }

    /// Collapses all the hunks and cancels all the tasks. Says whether there were blocks to
    /// remove.
    pub fn clear_clicked_diff_hunks(&mut self) -> (cleared: ClearedHunks)
        ensures
            cleared.removed_blocks == !blocks_of(old(self).expanded_hunks.hunks@).is_empty(),
            effect_views(cleared.effects@) == clear_all_effects(old(self).expanded_hunks.hunks@),
            final(self).expanded_hunks.hunks@ == Seq::<ExpandedHunk>::empty(),
            final(self).expanded_hunks.hunk_update_tasks() == Map::<
                Option<BufferId>,
                TaskId,
            >::empty(),
            final(self).expanded_hunks.diff_base == old(self).expanded_hunks.diff_base,
            final(self).expanded_hunks.well_formed(),
    {
        self.expanded_hunks.toggle_task = None;
        self.expanded_hunks.sync_tasks.clear();
        let mut effects: Vec<Effect> = Vec::new();
        effects.push(Effect::ClearAllHighlights);
        let ghost hunks = self.expanded_hunks.hunks@;
        let mut to_remove: HashSet<CustomBlockId> = HashSet::new();
        assert(hunks.take(0) =~= Seq::empty());
        assert(to_remove@ =~= blocks_of(hunks.take(0)));
        let mut i: usize = 0;
        while i < self.expanded_hunks.hunks.len()
            invariant
                hunks == self.expanded_hunks.hunks@,
                i <= hunks.len(),
                to_remove@ == blocks_of(hunks.take(i as int)),
            decreases hunks.len() - i,
        {
            proof {
                assert(hunks.take(i + 1) =~= hunks.take(i as int).push(hunks[i as int]));
                lemma_blocks_of_push(hunks.take(i as int), hunks[i as int]);
            }
            match self.expanded_hunks.hunks[i].block {
                Some(block) => {
                    to_remove.insert(block);
                },
                None => {},
            }
            i = i + 1;
        }
        assert(hunks.take(hunks.len() as int) =~= hunks);
        self.expanded_hunks.hunks.clear();
        assert(self.expanded_hunks.hunk_update_tasks() =~= Map::empty());
        if to_remove.is_empty() {
            assert(effect_views(effects@) =~= clear_all_effects(hunks));
            ClearedHunks { removed_blocks: false, effects }
        } else {
            effects.push(Effect::RemoveBlocks { blocks: to_remove });
            assert(effect_views(effects@) =~= clear_all_effects(hunks));
            ClearedHunks { removed_blocks: true, effects }
        }
    }
}

/// Hunks are toggled by one task after the other: a task that was started to toggle hunks is
/// the one for which the next waits, whatever buffers are synchronized in between. Each of
/// `later` follows from the one before when the buffer in `buffers` is synchronized by the
/// task in `sync_tasks`.
pub proof fn toggle_tasks_wait_for_each_other(
    before: ExpandedHunks,
    toggle_task: TaskId,
    later: Seq<ExpandedHunks>,
    buffers: Seq<BufferId>,
    sync_tasks: Seq<TaskId>,
)
    requires
        later.len() == buffers.len() + 1,
        sync_tasks.len() == buffers.len(),
        later[0].hunk_update_tasks() == before.hunk_update_tasks().insert(None, toggle_task),
        forall|i: int|
            0 <= i < buffers.len() ==> later[i + 1].hunk_update_tasks()
                == later[i].hunk_update_tasks().insert(
                Some(#[trigger] buffers[i]),
                sync_tasks[i],
            ),
    ensures
        later.last().hunk_update_tasks().get(None) == Some(toggle_task),
        later.last().toggle_task == Some(toggle_task),
        later[0].sync_tasks@ == before.sync_tasks@,
    decreases later.len(),
{
    let first = later[0];
    assert(first.hunk_update_tasks().contains_key(None));
    assert forall|buffer_id: BufferId|
        #![trigger first.sync_tasks@.dom().contains(buffer_id)]
        #![trigger first.sync_tasks@[buffer_id]]
        {
            &&& first.sync_tasks@.dom().contains(buffer_id) == before.sync_tasks@.dom().contains(
                buffer_id,
            )
            &&& first.sync_tasks@.dom().contains(buffer_id) ==> first.sync_tasks@[buffer_id]
                == before.sync_tasks@[buffer_id]
        } by {
        let key = Some(buffer_id);
        let tasks = before.hunk_update_tasks();
        assert(first.hunk_update_tasks().contains_key(key) == tasks.contains_key(key));
        if tasks.contains_key(key) {
            assert(first.hunk_update_tasks()[key] == tasks[key]);
        }
    }
    assert(first.sync_tasks@ =~= before.sync_tasks@);
    if buffers.len() > 0 {
        let count = buffers.len() - 1;
        assert forall|i: int| 0 <= i < buffers.drop_last().len() implies later.drop_last()[i
            + 1].hunk_update_tasks() == later.drop_last()[i].hunk_update_tasks().insert(
            Some(#[trigger] buffers.drop_last()[i]),
            sync_tasks.drop_last()[i],
        ) by {
            assert(buffers.drop_last()[i] == buffers[i]);
        }
        toggle_tasks_wait_for_each_other(
            before,
            toggle_task,
            later.drop_last(),
            buffers.drop_last(),
            sync_tasks.drop_last(),
        );
        assert(later.drop_last().last() == later[count]);
        assert(later[count + 1].hunk_update_tasks() == later[count].hunk_update_tasks().insert(
            Some(buffers[count]),
            sync_tasks[count],
        ));
        assert(later.last().hunk_update_tasks().contains_key(None));
    }
}

} // verus!
