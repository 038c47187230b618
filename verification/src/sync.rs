//! Synchronizing the expanded hunks of a buffer with a diff that was computed anew.
use std::collections::HashSet;
use std::ops::Range;
use vstd::prelude::*;

use crate::anchor::{copy_range, same_bytes, same_rows, Anchor, BufferId, DisplayRow};
use crate::diff_base::{create_diff_base_buffer, diff_base_contents, BufferState, NewBuffer};
use crate::editor::Editor;
use crate::effect::{
    clear_effects, effect_views, expand_effects, push_expand_effects, removal_effects, Effect,
    EffectView,
};
use crate::expanded::{
    blocks_of, hunks_well_formed, lemma_blocks_of_push, ranges_of, DiffBaseBuffer, ModelId, TaskId,
};
use crate::hunk::{CustomBlockId, DisplayDiffHunk, ExpandedHunk, HoveredHunk, SnapshotHunk};
use crate::sync_laws::sync_keeps_well_formed;
use crate::toggle::{shown_rows, visible_hunk};

verus! {

broadcast use vstd::std_specs::hash::group_hash_axioms;

/// A synchronization that was asked for, with what was known then.
#[derive(Debug, Clone, Copy, PartialEq, Eq, Structural)]
pub struct SyncRequest {
    pub buffer_id: BufferId,
    /// The version of the diff base.
    pub diff_base_version: usize,
    /// The buffer that shows this version of the diff base, if there was one.
    pub diff_base_buffer: Option<ModelId>,
    /// An earlier task for the same buffer, which is to be cancelled.
    pub cancelled_task: Option<TaskId>,
}

/// What becomes of an expanded hunk.
#[derive(Debug, Clone, Copy, PartialEq, Eq, Structural)]
pub enum SyncVerdict {
    /// It stays as it is.
    Keep,
    /// It has disappeared in a fold.
    Fold,
    /// It is no longer part of the diff.
    Drop,
    /// It has changed, and is expanded anew as it is now.
    Reexpand,
}

/// The hunks of one buffer.
pub open spec fn hunks_in_buffer(hunks: Seq<SnapshotHunk>, buffer_id: BufferId) -> Seq<
    SnapshotHunk,
> {
    hunks.filter(|hunk: SnapshotHunk| hunk.hunk.buffer_id == buffer_id)
}

/// Whether an expanded hunk starts in a buffer.
pub open spec fn starts_in(hunk: ExpandedHunk, buffer_id: BufferId) -> bool {
    hunk.hunk_range.start.buffer_id == Some(buffer_id)
}

/// Whether a hunk of the diff decides what becomes of an expanded hunk in `rows`. One in a
/// fold does if the fold is in these rows, unless the expanded hunk had disappeared in a
/// fold before. A visible one does unless it lies above these rows.
pub open spec fn decides(
    expanded: ExpandedHunk,
    rows: Range<DisplayRow>,
    hunk: SnapshotHunk,
) -> bool {
    match hunk.display {
        DisplayDiffHunk::Folded { display_row } => !expanded.folded && rows.start.0 <= display_row.0
            <= rows.end.0,
        DisplayDiffHunk::Unfolded { display_row_range, .. } => rows.start.0
            <= display_row_range.end.0,
    }
}

/// The first hunk of the diff, from the one at `from` on, that decides what becomes of an
/// expanded hunk in `rows`; their number if there is none.
pub open spec fn deciding_hunk(
    expanded: ExpandedHunk,
    rows: Range<DisplayRow>,
    diff: Seq<SnapshotHunk>,
    from: int,
) -> int
    decreases diff.len() - from,
{
    if from >= diff.len() || decides(expanded, rows, diff[from]) {
        from
    } else {
        deciding_hunk(expanded, rows, diff, from + 1)
    }
}

/// Whether an expanded hunk in `rows` is, unchanged, the given hunk of the diff.
pub open spec fn is_unchanged(
    expanded: ExpandedHunk,
    rows: Range<DisplayRow>,
    hunk: SnapshotHunk,
) -> bool {
    &&& !expanded.folded
    &&& shown_rows(hunk) == Some(rows)
    &&& expanded.status == hunk.status
    &&& expanded.diff_base_byte_range == hunk.hunk.diff_base_byte_range
}

/// What becomes of an expanded hunk in `rows` if the hunk of the diff at `at` decides.
pub open spec fn sync_verdict(
    expanded: ExpandedHunk,
    rows: Range<DisplayRow>,
    diff: Seq<SnapshotHunk>,
    at: int,
) -> SyncVerdict {
    if at >= diff.len() {
        SyncVerdict::Drop
    } else {
        match diff[at].display {
            DisplayDiffHunk::Folded { .. } => SyncVerdict::Fold,
            DisplayDiffHunk::Unfolded { display_row_range, .. } => {
                if rows.end.0 < display_row_range.start.0 {
                    SyncVerdict::Drop
                } else if is_unchanged(expanded, rows, diff[at]) {
                    SyncVerdict::Keep
                } else {
                    SyncVerdict::Reexpand
                }
            },
        }
    }
}

/// What becomes of the expanded hunks while they are gone through in order.
pub struct SyncOutcome {
    /// The hunks that stay expanded.
    pub kept: Seq<ExpandedHunk>,
    /// The hunks that leave the screen, as they were.
    pub released: Seq<ExpandedHunk>,
    /// The hunks to be expanded anew.
    pub reexpand: Seq<HoveredHunk>,
    /// The number of hunks of the diff that have been dealt with.
    pub next: int,
}

/// What becomes of one more expanded hunk. One of another buffer stays; if the diff base
/// is another one than before, any other leaves. Else the diff decides.
pub open spec fn sync_step(
    before: SyncOutcome,
    expanded: ExpandedHunk,
    rows: Range<DisplayRow>,
    diff: Seq<SnapshotHunk>,
    buffer_id: BufferId,
    diff_base_unchanged: bool,
) -> SyncOutcome {
    let at = deciding_hunk(expanded, rows, diff, before.next);
    if !starts_in(expanded, buffer_id) {
        SyncOutcome { kept: before.kept.push(expanded), ..before }
    } else if !diff_base_unchanged {
        SyncOutcome { released: before.released.push(expanded), ..before }
    } else {
        match sync_verdict(expanded, rows, diff, at) {
            SyncVerdict::Keep => SyncOutcome {
                kept: before.kept.push(expanded),
                next: at + 1,
                ..before
            },
            SyncVerdict::Fold => SyncOutcome {
                kept: before.kept.push(ExpandedHunk { folded: true, block: None, ..expanded }),
                released: before.released.push(expanded),
                next: at + 1,
                ..before
            },
            SyncVerdict::Drop => SyncOutcome {
                released: before.released.push(expanded),
                next: at,
                ..before
            },
            SyncVerdict::Reexpand => SyncOutcome {
                released: before.released.push(expanded),
                reexpand: before.reexpand.push(visible_hunk(diff[at])->0),
                next: at,
                ..before
            },
        }
    }
}

/// What has become of the first `count` of the expanded hunks, which are shown in `rows`.
pub open spec fn sync_outcome(
    hunks: Seq<ExpandedHunk>,
    rows: Seq<Range<DisplayRow>>,
    diff: Seq<SnapshotHunk>,
    buffer_id: BufferId,
    diff_base_unchanged: bool,
    count: nat,
) -> SyncOutcome
    decreases count,
{
    if count == 0 {
        SyncOutcome {
            kept: Seq::empty(),
            released: Seq::empty(),
            reexpand: Seq::empty(),
            next: 0,
        }
    } else {
        sync_step(
            sync_outcome(hunks, rows, diff, buffer_id, diff_base_unchanged, (count - 1) as nat),
            hunks[count - 1],
            rows[count - 1],
            diff,
            buffer_id,
            diff_base_unchanged,
        )
    }
}

/// What becomes of the expanded hunks when all of them have been gone through. `diff`
/// holds the hunks of the diff in all the buffers.
pub open spec fn synced(
    hunks: Seq<ExpandedHunk>,
    rows: Seq<Range<DisplayRow>>,
    diff: Seq<SnapshotHunk>,
    buffer_id: BufferId,
    diff_base_unchanged: bool,
) -> SyncOutcome {
    sync_outcome(
        hunks,
        rows,
        hunks_in_buffer(diff, buffer_id),
        buffer_id,
        diff_base_unchanged,
        hunks.len(),
    )
}

/// What a synchronization does on the screen: the hunks that leave are taken off, and, if
/// there is a buffer of the diff base, those that have changed are expanded anew.
pub open spec fn sync_effects(outcome: SyncOutcome, diff_base_buffer: Option<ModelId>) -> Seq<
    EffectView,
> {
    let removal = clear_effects(ranges_of(outcome.released)).push(
        EffectView::RemoveBlocks { blocks: blocks_of(outcome.released) },
    );
    if diff_base_buffer is Some {
        removal + expand_effects(diff_base_buffer, outcome.reexpand)
    } else {
        removal
    }
}

/// The buffer of the diff base with which a synchronization works: the one that was there
/// when it was asked for, or else the one that was created for it.
pub open spec fn sync_diff_base(request: SyncRequest, created: Option<ModelId>) -> Option<ModelId> {
    if request.diff_base_buffer is Some {
        request.diff_base_buffer
    } else {
        created
    }
}

/// Describes the buffer of the diff base that is to be created for a synchronization, where
/// the request came without one. `buffer` is the buffer in question, as it is now.
pub fn diff_base_to_create(request: &SyncRequest, buffer: &BufferState) -> (result: Option<
    NewBuffer,
>)
    ensures
        result == (if request.diff_base_buffer is Some {
            None
        } else {
            diff_base_contents(*buffer)
        }),
{
    match request.diff_base_buffer {
        Some(_) => None,
        None => create_diff_base_buffer(buffer),
    }
}

impl Editor {
    /// Carries out a synchronization. `created` is the buffer of the diff base that was
    /// created for it, if the request came without one and one could be created. `diff`
    /// are the hunks of the diff in the order of the text, and `expanded_rows` the rows in
    /// which the expanded hunks are shown, both in the same snapshot. Returns what is to be
    /// done on the screen, in this order.
    pub fn apply_sync(
        &mut self,
        request: &SyncRequest,
        created: Option<ModelId>,
        diff: &Vec<SnapshotHunk>,
        expanded_rows: &Vec<Range<DisplayRow>>,
    ) -> (effects: Vec<Effect>)
        requires
            expanded_rows@.len() == old(self).expanded_hunks.hunks@.len(),
        ensures
            final(self).expanded_hunks.hunks@ == synced(
                old(self).expanded_hunks.hunks@,
                expanded_rows@,
                diff@,
                request.buffer_id,
                request.diff_base_buffer is Some,
            ).kept,
            final(self).expanded_hunks.diff_base@ == match sync_diff_base(*request, created) {
                Some(buffer) => old(self).expanded_hunks.diff_base@.insert(
                    request.buffer_id,
                    DiffBaseBuffer { buffer, diff_base_version: request.diff_base_version },
                ),
                None => old(self).expanded_hunks.diff_base@,
            },
            final(self).expanded_hunks.toggle_task == old(self).expanded_hunks.toggle_task,
            final(self).expanded_hunks.sync_tasks == old(self).expanded_hunks.sync_tasks,
            effect_views(effects@) == sync_effects(
                synced(
                    old(self).expanded_hunks.hunks@,
                    expanded_rows@,
                    diff@,
                    request.buffer_id,
                    request.diff_base_buffer is Some,
                ),
                sync_diff_base(*request, created),
            ),
            old(self).expanded_hunks.well_formed() ==> final(self).expanded_hunks.well_formed(),
    {
        let diff_base_unchanged = request.diff_base_buffer.is_some();
        let diff_base_buffer = match request.diff_base_buffer {
            Some(buffer) => Some(buffer),
            None => created,
        };
        match diff_base_buffer {
            Some(buffer) => {
                self.expanded_hunks.diff_base.insert(
                    request.buffer_id,
                    DiffBaseBuffer { buffer, diff_base_version: request.diff_base_version },
                );
            },
            None => {},
        }
        let buffer_id = request.buffer_id;
        let buffer_hunks = Self::select_hunks(diff, buffer_id);
        let mut kept: Vec<ExpandedHunk> = Vec::new();
        let mut highlights_to_remove: Vec<Range<Anchor>> = Vec::new();
        let mut blocks_to_remove: HashSet<CustomBlockId> = HashSet::new();
        let mut hunks_to_reexpand: Vec<HoveredHunk> = Vec::new();
        let mut next: usize = 0;
        let ghost hunks = self.expanded_hunks.hunks@;
        let ghost rows = expanded_rows@;
        let ghost recalculated = buffer_hunks@.unref();
        let ghost mut released: Seq<ExpandedHunk> = Seq::empty();
        let ghost diff_base = self.expanded_hunks.diff_base@;

        assert(ranges_of(released) =~= highlights_to_remove@);
        assert(blocks_of(released) =~= blocks_to_remove@);
        let mut i: usize = 0;
        while i < self.expanded_hunks.hunks.len()
            invariant
                self.expanded_hunks.hunks@ == hunks,
                rows == expanded_rows@,
                recalculated == buffer_hunks@.unref(),
                rows.len() == hunks.len(),
                i <= hunks.len(),
                next <= recalculated.len(),
                highlights_to_remove@ == ranges_of(released),
                blocks_to_remove@ == blocks_of(released),
                sync_outcome(
                    hunks,
                    rows,
                    recalculated,
                    buffer_id,
                    diff_base_unchanged,
                    i as nat,
                ) == (SyncOutcome {
                    kept: kept@,
                    released,
                    reexpand: hunks_to_reexpand@,
                    next: next as int,
                }),
                self.expanded_hunks.diff_base@ == diff_base,
                self.expanded_hunks.toggle_task == old(self).expanded_hunks.toggle_task,
                self.expanded_hunks.sync_tasks == old(self).expanded_hunks.sync_tasks,
            decreases hunks.len() - i,
        {
            let expanded_hunk = &self.expanded_hunks.hunks[i];
            if expanded_hunk.hunk_range.start.buffer_id != Some(buffer_id) {
                kept.push(expanded_hunk.clone());
            } else {
                let mut verdict = SyncVerdict::Drop;
                if diff_base_unchanged {
                    let (at, decided) = Self::judge_hunk(
                        expanded_hunk,
                        &expanded_rows[i],
                        &buffer_hunks,
                        next,
                    );
                    next = at;
                    verdict = decided;
                }
                match verdict {
                    SyncVerdict::Keep => {
                        assert(next < buffer_hunks.len());
                        next = next + 1;
                        kept.push(expanded_hunk.clone());
                    },
                    SyncVerdict::Fold => {
                        assert(next < buffer_hunks.len());
                        next = next + 1;
                        let mut folded_hunk = expanded_hunk.clone();
                        folded_hunk.folded = true;
                        folded_hunk.block = None;
                        kept.push(folded_hunk);
                    },
                    SyncVerdict::Drop => {},
                    SyncVerdict::Reexpand => {
                        Self::push_visible(&mut hunks_to_reexpand, buffer_hunks[next]);
                    },
                }
                if verdict != SyncVerdict::Keep {
                    match expanded_hunk.block {
                        Some(block) => {
                            blocks_to_remove.insert(block);
                        },
                        None => {},
                    }
                    highlights_to_remove.push(copy_range(&expanded_hunk.hunk_range));
                    proof {
                        lemma_blocks_of_push(released, *expanded_hunk);
                        released = released.push(*expanded_hunk);
                        assert(ranges_of(released) =~= highlights_to_remove@);
                        assert(blocks_of(released) =~= blocks_to_remove@);
                    }
                }
            }
            i = i + 1;
        }

        proof {
            if hunks_well_formed(hunks) {
                sync_keeps_well_formed(hunks, rows, diff@, buffer_id, diff_base_unchanged);
            }
        }
        self.expanded_hunks.hunks = kept;
        let mut effects = removal_effects(highlights_to_remove, blocks_to_remove);
        if diff_base_buffer.is_some() {
            push_expand_effects(&mut effects, diff_base_buffer, hunks_to_reexpand);
        }
        effects
    }

    /// The hunks of one buffer, among those of the diff in all the buffers.
    fn select_hunks<'a>(diff: &'a Vec<SnapshotHunk>, buffer_id: BufferId) -> (selected: Vec<
        &'a SnapshotHunk,
    >)
        ensures
            selected@.unref() == hunks_in_buffer(diff@, buffer_id),
    {
        let mut selected: Vec<&'a SnapshotHunk> = Vec::new();
        let ghost in_buffer = |hunk: SnapshotHunk| hunk.hunk.buffer_id == buffer_id;
        proof {
            reveal(Seq::filter);
            assert(selected@.unref() =~= diff@.take(0).filter(in_buffer));
        }
        let mut i: usize = 0;
        while i < diff.len()
            invariant
                i <= diff.len(),
                in_buffer == (|hunk: SnapshotHunk| hunk.hunk.buffer_id == buffer_id),
                selected@.unref() == diff@.take(i as int).filter(in_buffer),
            decreases diff.len() - i,
        {
            proof {
                reveal(Seq::filter);
                assert(diff@.take(i + 1).drop_last() =~= diff@.take(i as int));
                assert(diff@.take(i + 1).last() == diff@[i as int]);
            }
            let ghost before = selected@;
            if diff[i].hunk.buffer_id == buffer_id {
                selected.push(&diff[i]);
                assert(selected@.unref() =~= before.unref().push(diff@[i as int]));
            }
            i = i + 1;
        }
        assert(diff@.take(diff@.len() as int) =~= diff@);
        selected
    }

    /// Finds the hunk of the diff, from the one at `from` on, that decides what becomes of
    /// an expanded hunk in `rows`, and what it decides.
    fn judge_hunk(
        expanded_hunk: &ExpandedHunk,
        rows: &Range<DisplayRow>,
        diff: &Vec<&SnapshotHunk>,
        from: usize,
    ) -> (result: (usize, SyncVerdict))
        requires
            from <= diff@.len(),
        ensures
            result.0 == deciding_hunk(*expanded_hunk, *rows, diff@.unref(), from as int),
            from <= result.0 <= diff@.len(),
            result.1 == sync_verdict(*expanded_hunk, *rows, diff@.unref(), result.0 as int),
    {
        let ghost hunks = diff@.unref();
        let mut next: usize = from;
        while next < diff.len()
            invariant
                hunks == diff@.unref(),
                from <= next <= diff@.len(),
                deciding_hunk(*expanded_hunk, *rows, hunks, from as int) == deciding_hunk(
                    *expanded_hunk,
                    *rows,
                    hunks,
                    next as int,
                ),
            decreases diff.len() - next,
        {
            let buffer_hunk = diff[next];
            assert(hunks[next as int] == *buffer_hunk);
            match &buffer_hunk.display {
                DisplayDiffHunk::Folded { display_row } => {
                    if !expanded_hunk.folded && rows.start.0 <= display_row.0 && display_row.0
                        <= rows.end.0 {
                        return (next, SyncVerdict::Fold);
                    }
                },
                DisplayDiffHunk::Unfolded { display_row_range, .. } => {
                    if rows.start.0 <= display_row_range.end.0 {
                        if rows.end.0 < display_row_range.start.0 {
                            return (next, SyncVerdict::Drop);
                        } else if !expanded_hunk.folded && same_rows(rows, display_row_range)
                            && expanded_hunk.status == buffer_hunk.status && same_bytes(
                            &expanded_hunk.diff_base_byte_range,
                            &buffer_hunk.hunk.diff_base_byte_range,
                        ) {
                            return (next, SyncVerdict::Keep);
                        } else {
                            return (next, SyncVerdict::Reexpand);
                        }
                    }
                },
            }
            next = next + 1;
        }
        (next, SyncVerdict::Drop)
    }

    /// Adds a hunk, as it is visible, to `hunks`.
    fn push_visible(hunks: &mut Vec<HoveredHunk>, hunk: &SnapshotHunk)
        ensures
            final(hunks)@ == match visible_hunk(*hunk) {
                Some(visible) => old(hunks)@.push(visible),
                None => old(hunks)@,
            },
    {
        match &hunk.display {
            DisplayDiffHunk::Folded { .. } => {},
            DisplayDiffHunk::Unfolded {
                diff_base_byte_range,
                multi_buffer_range,
                status,
                ..
            } => {
                hunks.push(
                    HoveredHunk {
                        multi_buffer_range: copy_range(multi_buffer_range),
                        status: *status,
                        diff_base_byte_range: copy_range(diff_base_byte_range),
                    },
                );
            },
        }
    }
}

} // verus!
