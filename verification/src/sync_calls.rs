//! What a caller can rely on when the hunks of a buffer are synchronized with a diff: of what
//! goes into the call, and what comes out of it.
use std::ops::Range;
use vstd::prelude::*;

use crate::anchor::{BufferId, DisplayRow};
use crate::call_laws::{
    expand_from, lemma_effects_are_as_viewed, lemma_filter_is_chosen, take_off,
};
use crate::editor::Editor;
use crate::effect::{clear_effects, effect_views, expand_effects, Effect, EffectView};
use crate::expanded::{blocks_of, ranges_of, ModelId};
use crate::hunk::{DisplayDiffHunk, ExpandedHunk, HoveredHunk, SnapshotHunk};
use crate::order::{chosen, lemma_chosen_agree};
use crate::sync::{
    deciding_hunk, decides, hunks_in_buffer, is_unchanged, starts_in, sync_effects, sync_outcome,
    sync_verdict, SyncRequest, SyncVerdict,
};
use crate::sync_laws::{
    buffer_rows_apart, diff_in_order, lemma_deciding_hunk, lemma_none_before, still_in_diff,
    sync_is_exact,
};
use crate::toggle::shown_rows;

verus! {

/// The hunks of one buffer, among those of the diff in all the buffers: all of them, in order.
pub open spec fn of_buffer(diff: Seq<SnapshotHunk>, buffer_id: BufferId) -> Seq<SnapshotHunk> {
    chosen(diff, |k: int| diff[k].hunk.buffer_id == buffer_id, diff.len())
}

/// Whether a fold, in its row of the screen, hides a hunk in `rows` that was visible so far.
pub open spec fn is_hidden_by(
    hunk: ExpandedHunk,
    rows: Range<DisplayRow>,
    found: SnapshotHunk,
) -> bool {
    found.display matches DisplayDiffHunk::Folded { display_row } && !hunk.folded && rows.start.0
        <= display_row.0 && display_row.0 <= rows.end.0
}

/// Whether a hunk of the diff is visible above `rows`.
pub open spec fn is_above(found: SnapshotHunk, rows: Range<DisplayRow>) -> bool {
    found.display matches DisplayDiffHunk::Unfolded { display_row_range, .. } && rows.start.0
        > display_row_range.end.0
}

/// Whether a hunk of the diff is visible below `rows`, and not above them.
pub open spec fn is_beyond(found: SnapshotHunk, rows: Range<DisplayRow>) -> bool {
    found.display matches DisplayDiffHunk::Unfolded { display_row_range, .. } && rows.start.0
        <= display_row_range.end.0 && rows.end.0 < display_row_range.start.0
}

/// Whether a hunk of the diff is visible in `rows` or touches them.
pub open spec fn is_met_by(found: SnapshotHunk, rows: Range<DisplayRow>) -> bool {
    found.display matches DisplayDiffHunk::Unfolded { display_row_range, .. } && rows.start.0
        <= display_row_range.end.0 && display_row_range.start.0 <= rows.end.0
}

/// Whether a visible expanded hunk in `rows` is a hunk of the diff in all respects: the rows,
/// what it did to the text, and the part of the diff base that it replaced.
pub open spec fn is_same(
    hunk: ExpandedHunk,
    rows: Range<DisplayRow>,
    found: SnapshotHunk,
) -> bool {
    &&& !hunk.folded
    &&& found.display matches DisplayDiffHunk::Unfolded { display_row_range, .. }
        && display_row_range.start.0 == rows.start.0 && display_row_range.end.0 == rows.end.0
    &&& hunk.status == found.status
    &&& hunk.diff_base_byte_range.start == found.hunk.diff_base_byte_range.start
    &&& hunk.diff_base_byte_range.end == found.hunk.diff_base_byte_range.end
}

/// Whether a hunk of the buffer in `rows` is held against its diff from `from` up to `to`, and
/// what becomes of it. It goes past the hunks above it and past the folds that do not hide it.
/// If it is the next one in all respects, or hidden by it, that one is used up. Else it is left
/// for the next: either it is met, and is what the hunk has become, or it lies beyond.
pub open spec fn is_judged(
    hunk: ExpandedHunk,
    rows: Range<DisplayRow>,
    diff: Seq<SnapshotHunk>,
    from: int,
    to: int,
    verdict: SyncVerdict,
) -> bool {
    let at = if verdict == SyncVerdict::Keep || verdict == SyncVerdict::Fold {
        to - 1
    } else {
        to
    };
    &&& 0 <= from <= at <= diff.len()
    &&& forall|k: int|
        #![trigger diff[k]]
        from <= k < at ==> is_above(diff[k], rows) || (diff[k].display is Folded && !is_hidden_by(
            hunk,
            rows,
            diff[k],
        ))
    &&& verdict != SyncVerdict::Drop ==> at < diff.len()
    &&& verdict == SyncVerdict::Keep ==> is_met_by(diff[at], rows) && is_same(hunk, rows, diff[at])
    &&& verdict == SyncVerdict::Fold ==> is_hidden_by(hunk, rows, diff[at])
    &&& verdict == SyncVerdict::Reexpand ==> is_met_by(diff[at], rows) && !is_same(
        hunk,
        rows,
        diff[at],
    )
    &&& verdict == SyncVerdict::Drop ==> at == diff.len() || is_beyond(diff[at], rows)
}

/// Whether the expanded hunks are judged one after the other, each from where the one before
/// has left off. Those of other buffers stay, and all of this buffer leave if its diff base has
/// become another one, without a look at the diff.
pub open spec fn are_judged(
    hunks: Seq<ExpandedHunk>,
    rows: Seq<Range<DisplayRow>>,
    diff: Seq<SnapshotHunk>,
    buffer_id: BufferId,
    diff_base_unchanged: bool,
    ends: Seq<int>,
    verdicts: Seq<SyncVerdict>,
) -> bool {
    &&& ends.len() == hunks.len() + 1
    &&& verdicts.len() == hunks.len()
    &&& ends[0] == 0
    &&& forall|i: int|
        #![trigger hunks[i]]
        0 <= i < hunks.len() ==> if hunks[i].hunk_range.start.buffer_id != Some(buffer_id) {
            verdicts[i] == SyncVerdict::Keep && ends[i + 1] == ends[i]
        } else if !diff_base_unchanged {
            verdicts[i] == SyncVerdict::Drop && ends[i + 1] == ends[i]
        } else {
            is_judged(hunks[i], rows[i], diff, ends[i], ends[i + 1], verdicts[i])
        }
}

/// The expanded hunks as they are where they stay: without a block and in a fold, if that hides
/// them now.
pub open spec fn as_kept(hunks: Seq<ExpandedHunk>, verdicts: Seq<SyncVerdict>) -> Seq<
    ExpandedHunk,
> {
    Seq::new(
        hunks.len(),
        |i: int|
            if verdicts[i] == SyncVerdict::Fold {
                ExpandedHunk {
                    block: None,
                    hunk_range: hunks[i].hunk_range,
                    diff_base_byte_range: hunks[i].diff_base_byte_range,
                    status: hunks[i].status,
                    folded: true,
                }
            } else {
                hunks[i]
            },
    )
}

/// What the expanded hunks have become where they are expanded anew: the hunks of the diff at
/// which they have left off, with what the screen says of them.
pub open spec fn as_changed(
    hunks: Seq<ExpandedHunk>,
    diff: Seq<SnapshotHunk>,
    ends: Seq<int>,
) -> Seq<HoveredHunk> {
    Seq::new(
        hunks.len(),
        |i: int|
            match diff[ends[i + 1]].display {
                DisplayDiffHunk::Unfolded {
                    diff_base_byte_range,
                    multi_buffer_range,
                    status,
                    ..
                } => HoveredHunk { multi_buffer_range, status, diff_base_byte_range },
                DisplayDiffHunk::Folded { .. } => arbitrary(),
            },
    )
}

/// What a synchronization leads to, given what becomes of each expanded hunk. Those that stay
/// do so in order. Those that leave or are hidden are taken off the screen. What the others
/// have become is expanded anew, if there is a buffer of the diff base.
pub open spec fn is_sync_result(
    hunks: Seq<ExpandedHunk>,
    diff: Seq<SnapshotHunk>,
    ends: Seq<int>,
    verdicts: Seq<SyncVerdict>,
    diff_base_buffer: Option<ModelId>,
    after: Seq<ExpandedHunk>,
    effects: Seq<Effect>,
) -> bool {
    let gone = chosen(hunks, |i: int| verdicts[i] != SyncVerdict::Keep, hunks.len());
    let changed = chosen(
        as_changed(hunks, diff, ends),
        |i: int| verdicts[i] == SyncVerdict::Reexpand,
        hunks.len(),
    );
    &&& after == chosen(
        as_kept(hunks, verdicts),
        |i: int| verdicts[i] == SyncVerdict::Keep || verdicts[i] == SyncVerdict::Fold,
        hunks.len(),
    )
    &&& take_off(effects, gone)
    &&& diff_base_buffer is None ==> effects.len() == gone.len() + 1
    &&& diff_base_buffer is Some ==> {
        &&& effects.len() == gone.len() + 1 + changed.len()
        &&& expand_from(effects, gone.len() as int + 1, diff_base_buffer, changed)
    }
}

/// The buffer of the diff base with which a synchronization works.
pub open spec fn works_with(request: SyncRequest, created: Option<ModelId>) -> Option<ModelId> {
    match request.diff_base_buffer {
        Some(found) => Some(found),
        None => created,
    }
}

/// A synchronization judges each expanded hunk of its buffer by the hunks of the diff in that
/// buffer, whatever these did to the text, and leaves the others alone. It remembers the buffer
/// of the diff base with which it works. Nothing else changes.
pub proof fn synchronizing_does_what_the_diff_says(
    editor: &mut Editor,
    request: &SyncRequest,
    created: Option<ModelId>,
    diff: &Vec<SnapshotHunk>,
    rows: &Vec<Range<DisplayRow>>,
    effects: Vec<Effect>,
)
    requires
        rows@.len() == old(editor).expanded_hunks.hunks@.len(),
        call_ensures(Editor::apply_sync, (editor, request, created, diff, rows), effects),
    ensures
        exists|ends: Seq<int>, verdicts: Seq<SyncVerdict>|
            #![trigger are_judged(
                old(editor).expanded_hunks.hunks@,
                rows@,
                of_buffer(diff@, request.buffer_id),
                request.buffer_id,
                request.diff_base_buffer is Some,
                ends,
                verdicts,
            )]
            are_judged(
                old(editor).expanded_hunks.hunks@,
                rows@,
                of_buffer(diff@, request.buffer_id),
                request.buffer_id,
                request.diff_base_buffer is Some,
                ends,
                verdicts,
            ) && is_sync_result(
                old(editor).expanded_hunks.hunks@,
                of_buffer(diff@, request.buffer_id),
                ends,
                verdicts,
                works_with(*request, created),
                final(editor).expanded_hunks.hunks@,
                effects@,
            ),
        works_with(*request, created) is None ==> final(editor).expanded_hunks.diff_base@
            == old(editor).expanded_hunks.diff_base@,
        works_with(*request, created) is Some ==> {
            let held = final(editor).expanded_hunks.diff_base@;
            &&& held.contains_key(request.buffer_id)
            &&& Some(held[request.buffer_id].buffer) == works_with(*request, created)
            &&& held[request.buffer_id].diff_base_version == request.diff_base_version
            &&& held.remove(request.buffer_id)
                == old(editor).expanded_hunks.diff_base@.remove(request.buffer_id)
        },
        final(editor).expanded_hunks.toggle_task == old(editor).expanded_hunks.toggle_task,
        final(editor).expanded_hunks.sync_tasks@ == old(editor).expanded_hunks.sync_tasks@,
{
    let hunks = old(editor).expanded_hunks.hunks@;
    let id = request.buffer_id;
    let unchanged = request.diff_base_buffer is Some;
    let selected = of_buffer(diff@, id);
    lemma_of_buffer(diff@, id);
    lemma_judged(hunks, rows@, selected, id, unchanged);
    lemma_sync_result(
        hunks,
        rows@,
        selected,
        id,
        unchanged,
        works_with(*request, created),
        effects@,
    );
    let before = old(editor).expanded_hunks.diff_base@;
    let after = final(editor).expanded_hunks.diff_base@;
    if works_with(*request, created) is Some {
        assert(after.remove(id) =~= before.remove(id));
    }
}

/// A hunk that the diff still has stays: if the expanded hunks of the buffer are a row apart,
/// and the hunks of the diff in that buffer are visible and a row apart, then a visible one for
/// which some hunk of the whole diff has the same buffer, rows, status and part of the diff
/// base is still there afterwards, with its block.
pub proof fn synchronizing_keeps_what_the_diff_has(
    editor: &mut Editor,
    request: &SyncRequest,
    created: Option<ModelId>,
    diff: &Vec<SnapshotHunk>,
    rows: &Vec<Range<DisplayRow>>,
    effects: Vec<Effect>,
    i: int,
    d: int,
)
    requires
        rows@.len() == old(editor).expanded_hunks.hunks@.len(),
        call_ensures(Editor::apply_sync, (editor, request, created, diff, rows), effects),
        request.diff_base_buffer is Some,
        forall|j: int, k: int|
            #![trigger rows@[j], rows@[k]]
            0 <= j < k < rows@.len() && is_of(old(editor).expanded_hunks.hunks@[j], *request)
                && is_of(old(editor).expanded_hunks.hunks@[k], *request) ==> rows@[j].end.0
                < rows@[k].start.0,
        forall|j: int|
            #![trigger rows@[j]]
            0 <= j < rows@.len() && is_of(old(editor).expanded_hunks.hunks@[j], *request)
                ==> rows@[j].start.0 <= rows@[j].end.0,
        forall|k: int|
            #![trigger diff@[k]]
            0 <= k < diff@.len() && diff@[k].hunk.buffer_id == request.buffer_id ==> (
            diff@[k].display matches DisplayDiffHunk::Unfolded { display_row_range, .. }
                && display_row_range.start.0 <= display_row_range.end.0),
        forall|k: int, l: int|
            #![trigger diff@[k], diff@[l]]
            0 <= k < l < diff@.len() && diff@[k].hunk.buffer_id == request.buffer_id
                && diff@[l].hunk.buffer_id == request.buffer_id ==> (diff@[k].display
                matches DisplayDiffHunk::Unfolded { display_row_range: upper, .. } && (
            diff@[l].display matches DisplayDiffHunk::Unfolded { display_row_range: lower, .. }
                && upper.end.0 < lower.start.0)),
        0 <= i < rows@.len(),
        is_of(old(editor).expanded_hunks.hunks@[i], *request),
        0 <= d < diff@.len(),
        diff@[d].hunk.buffer_id == request.buffer_id,
        is_same(old(editor).expanded_hunks.hunks@[i], rows@[i], diff@[d]),
    ensures
        final(editor).expanded_hunks.hunks@.contains(old(editor).expanded_hunks.hunks@[i]),
{
    let hunks = old(editor).expanded_hunks.hunks@;
    let id = request.buffer_id;
    let selected = hunks_in_buffer(diff@, id);
    lemma_of_buffer(diff@, id);
    let choice = |k: int| diff@[k].hunk.buffer_id == id;
    let indices = lemma_chosen_indices(diff@, choice, diff@.len());
    assert forall|k: int| #![trigger selected[k]] 0 <= k < selected.len() implies
        shown_rows(selected[k]) is Some && shown_rows(
        selected[k],
    )->0.start.0 <= shown_rows(selected[k])->0.end.0 by {
        assert(selected[k] == diff@[indices[k]]);
    }
    assert forall|k: int, l: int| #![trigger selected[k], selected[l]] 0 <= k < l
        < selected.len() implies shown_rows(selected[k])->0.end.0
        < shown_rows(selected[l])->0.start.0 by {
        assert(selected[k] == diff@[indices[k]] && selected[l] == diff@[indices[l]]);
        assert(indices[k] < indices[l]);
    }
    assert(diff_in_order(selected));
    assert(buffer_rows_apart(hunks, rows@, id));
    sync_is_exact(hunks, rows@, diff@, id);
    assert(choice(d));
    let at = choose|at: int| 0 <= at < indices.len() && indices[at] == d;
    assert(selected[at] == diff@[d]);
    assert(is_unchanged(hunks[i], rows@[i], selected[at]));
    assert(still_in_diff(hunks[i], rows@[i], selected));
    let stays = |j: int|
        !starts_in(hunks[j], id) || still_in_diff(hunks[j], rows@[j], selected);
    assert(stays(i));
    lemma_chosen_contains(hunks, stays, hunks.len(), i);
}

/// Whether an expanded hunk starts in the buffer that is synchronized.
pub open spec fn is_of(hunk: ExpandedHunk, request: SyncRequest) -> bool {
    hunk.hunk_range.start.buffer_id == Some(request.buffer_id)
}

proof fn lemma_of_buffer(diff: Seq<SnapshotHunk>, buffer_id: BufferId)
    ensures
        hunks_in_buffer(diff, buffer_id) == of_buffer(diff, buffer_id),
{
    let in_buffer = |hunk: SnapshotHunk| hunk.hunk.buffer_id == buffer_id;
    lemma_filter_is_chosen(diff, in_buffer, diff.len());
    assert(diff.take(diff.len() as int) =~= diff);
    lemma_chosen_agree(
        diff,
        diff,
        |k: int| in_buffer(diff[k]),
        |k: int| diff[k].hunk.buffer_id == buffer_id,
        diff.len(),
    );
}

/// The indices of what is chosen: they ascend, and all that are chosen are among them.
proof fn lemma_chosen_indices<T>(
    elements: Seq<T>,
    choice: spec_fn(int) -> bool,
    count: nat,
) -> (indices: Seq<int>)
    requires
        count <= elements.len(),
    ensures
        indices.len() == chosen(elements, choice, count).len(),
        forall|k: int|
            #![trigger indices[k]]
            0 <= k < indices.len() ==> 0 <= indices[k] < count && choice(indices[k]) && chosen(
                elements,
                choice,
                count,
            )[k] == elements[indices[k]],
        forall|k: int, l: int|
            #![trigger indices[k], indices[l]]
            0 <= k < l < indices.len() ==> indices[k] < indices[l],
        forall|i: int| 0 <= i < count && #[trigger] choice(i) ==> indices.contains(i),
    decreases count,
{
    if count == 0 {
        Seq::empty()
    } else {
        let before = lemma_chosen_indices(elements, choice, (count - 1) as nat);
        if choice(count - 1) {
            let indices = before.push(count - 1);
            assert forall|i: int| 0 <= i < count && #[trigger] choice(i) implies indices.contains(
                i,
            ) by {
                if i < count - 1 {
                    let k = choose|k: int| 0 <= k < before.len() && before[k] == i;
                    assert(indices[k] == i);
                } else {
                    assert(indices[before.len() as int] == i);
                }
            }
            indices
        } else {
            before
        }
    }
}

proof fn lemma_chosen_contains<T>(
    elements: Seq<T>,
    choice: spec_fn(int) -> bool,
    count: nat,
    i: int,
)
    requires
        count <= elements.len(),
        0 <= i < count,
        choice(i),
    ensures
        chosen(elements, choice, count).contains(elements[i]),
{
    let indices = lemma_chosen_indices(elements, choice, count);
    let k = choose|k: int| 0 <= k < indices.len() && indices[k] == i;
    assert(chosen(elements, choice, count)[k] == elements[i]);
}

/// Where each expanded hunk begins in the diff.
spec fn next_after(
    hunks: Seq<ExpandedHunk>,
    rows: Seq<Range<DisplayRow>>,
    diff: Seq<SnapshotHunk>,
    buffer_id: BufferId,
    diff_base_unchanged: bool,
) -> Seq<int> {
    Seq::new(
        hunks.len() + 1,
        |i: int|
            sync_outcome(hunks, rows, diff, buffer_id, diff_base_unchanged, i as nat).next,
    )
}

/// What becomes of each expanded hunk.
spec fn verdicts_on(
    hunks: Seq<ExpandedHunk>,
    rows: Seq<Range<DisplayRow>>,
    diff: Seq<SnapshotHunk>,
    buffer_id: BufferId,
    diff_base_unchanged: bool,
) -> Seq<SyncVerdict> {
    Seq::new(
        hunks.len(),
        |i: int|
            {
                let from = sync_outcome(
                    hunks,
                    rows,
                    diff,
                    buffer_id,
                    diff_base_unchanged,
                    i as nat,
                ).next;
                if !starts_in(hunks[i], buffer_id) {
                    SyncVerdict::Keep
                } else if !diff_base_unchanged {
                    SyncVerdict::Drop
                } else {
                    sync_verdict(
                        hunks[i],
                        rows[i],
                        diff,
                        deciding_hunk(hunks[i], rows[i], diff, from),
                    )
                }
            },
    )
}

proof fn lemma_next_in_diff(
    hunks: Seq<ExpandedHunk>,
    rows: Seq<Range<DisplayRow>>,
    diff: Seq<SnapshotHunk>,
    buffer_id: BufferId,
    diff_base_unchanged: bool,
    count: nat,
)
    ensures
        0 <= sync_outcome(hunks, rows, diff, buffer_id, diff_base_unchanged, count).next
            <= diff.len(),
    decreases count,
{
    if count > 0 {
        let last = count - 1;
        lemma_next_in_diff(hunks, rows, diff, buffer_id, diff_base_unchanged, last as nat);
        let from = sync_outcome(
            hunks,
            rows,
            diff,
            buffer_id,
            diff_base_unchanged,
            last as nat,
        ).next;
        lemma_deciding_hunk(hunks[last], rows[last], diff, from);
    }
}

proof fn lemma_judged(
    hunks: Seq<ExpandedHunk>,
    rows: Seq<Range<DisplayRow>>,
    diff: Seq<SnapshotHunk>,
    buffer_id: BufferId,
    diff_base_unchanged: bool,
)
    ensures
        are_judged(
            hunks,
            rows,
            diff,
            buffer_id,
            diff_base_unchanged,
            next_after(hunks, rows, diff, buffer_id, diff_base_unchanged),
            verdicts_on(hunks, rows, diff, buffer_id, diff_base_unchanged),
        ),
{
    let ends = next_after(hunks, rows, diff, buffer_id, diff_base_unchanged);
    let verdicts = verdicts_on(hunks, rows, diff, buffer_id, diff_base_unchanged);
    assert forall|i: int| #![trigger hunks[i]] 0 <= i < hunks.len() implies if hunks[i]
        .hunk_range.start.buffer_id != Some(buffer_id) {
        verdicts[i] == SyncVerdict::Keep && ends[i + 1] == ends[i]
    } else if !diff_base_unchanged {
        verdicts[i] == SyncVerdict::Drop && ends[i + 1] == ends[i]
    } else {
        is_judged(hunks[i], rows[i], diff, ends[i], ends[i + 1], verdicts[i])
    } by {
        let from = sync_outcome(hunks, rows, diff, buffer_id, diff_base_unchanged, i as nat).next;
        assert(ends[i] == from);
        assert(ends[i + 1] == sync_outcome(
            hunks,
            rows,
            diff,
            buffer_id,
            diff_base_unchanged,
            (i + 1) as nat,
        ).next);
        lemma_next_in_diff(hunks, rows, diff, buffer_id, diff_base_unchanged, i as nat);
        lemma_deciding_hunk(hunks[i], rows[i], diff, from);
        lemma_none_before(hunks[i], rows[i], diff, from);
        let at = deciding_hunk(hunks[i], rows[i], diff, from);
        assert forall|k: int| #![trigger diff[k]] from <= k < at implies is_above(diff[k], rows[i])
            || (diff[k].display is Folded && !is_hidden_by(hunks[i], rows[i], diff[k])) by {
            assert(!decides(hunks[i], rows[i], diff[k]));
        }
    }
}

proof fn lemma_outcome_by_verdicts(
    hunks: Seq<ExpandedHunk>,
    rows: Seq<Range<DisplayRow>>,
    diff: Seq<SnapshotHunk>,
    buffer_id: BufferId,
    diff_base_unchanged: bool,
    count: nat,
)
    requires
        count <= hunks.len(),
    ensures
        ({
            let ends = next_after(hunks, rows, diff, buffer_id, diff_base_unchanged);
            let verdicts = verdicts_on(hunks, rows, diff, buffer_id, diff_base_unchanged);
            let outcome = sync_outcome(hunks, rows, diff, buffer_id, diff_base_unchanged, count);
            &&& outcome.kept == chosen(
                as_kept(hunks, verdicts),
                |i: int| verdicts[i] == SyncVerdict::Keep || verdicts[i] == SyncVerdict::Fold,
                count,
            )
            &&& outcome.released == chosen(
                hunks,
                |i: int| verdicts[i] != SyncVerdict::Keep,
                count,
            )
            &&& outcome.reexpand == chosen(
                as_changed(hunks, diff, ends),
                |i: int| verdicts[i] == SyncVerdict::Reexpand,
                count,
            )
        }),
    decreases count,
{
    if count > 0 {
        let last = count - 1;
        lemma_outcome_by_verdicts(hunks, rows, diff, buffer_id, diff_base_unchanged, last as nat);
        lemma_next_in_diff(hunks, rows, diff, buffer_id, diff_base_unchanged, last as nat);
        let ends = next_after(hunks, rows, diff, buffer_id, diff_base_unchanged);
        let verdicts = verdicts_on(hunks, rows, diff, buffer_id, diff_base_unchanged);
        let from = ends[last];
        lemma_deciding_hunk(hunks[last], rows[last], diff, from);
        let at = deciding_hunk(hunks[last], rows[last], diff, from);
        assert(ends[last + 1] == sync_outcome(
            hunks,
            rows,
            diff,
            buffer_id,
            diff_base_unchanged,
            count,
        ).next);
        if verdicts[last] == SyncVerdict::Reexpand {
            assert(ends[last + 1] == at);
        }
        assert(as_kept(hunks, verdicts)[last] == (if verdicts[last] == SyncVerdict::Fold {
            ExpandedHunk { folded: true, block: None, ..hunks[last] }
        } else {
            hunks[last]
        }));
    }
}

proof fn lemma_sync_result(
    hunks: Seq<ExpandedHunk>,
    rows: Seq<Range<DisplayRow>>,
    diff: Seq<SnapshotHunk>,
    buffer_id: BufferId,
    diff_base_unchanged: bool,
    diff_base_buffer: Option<ModelId>,
    effects: Seq<Effect>,
)
    requires
        effect_views(effects) == sync_effects(
            sync_outcome(hunks, rows, diff, buffer_id, diff_base_unchanged, hunks.len()),
            diff_base_buffer,
        ),
    ensures
        is_sync_result(
            hunks,
            diff,
            next_after(hunks, rows, diff, buffer_id, diff_base_unchanged),
            verdicts_on(hunks, rows, diff, buffer_id, diff_base_unchanged),
            diff_base_buffer,
            sync_outcome(hunks, rows, diff, buffer_id, diff_base_unchanged, hunks.len()).kept,
            effects,
        ),
{
    let outcome = sync_outcome(hunks, rows, diff, buffer_id, diff_base_unchanged, hunks.len());
    let expanded = if diff_base_buffer is Some {
        outcome.reexpand
    } else {
        Seq::empty()
    };
    let removal = clear_effects(ranges_of(outcome.released)).push(
        EffectView::RemoveBlocks { blocks: blocks_of(outcome.released) },
    );
    assert(effect_views(effects) =~= removal + expand_effects(diff_base_buffer, expanded)
        + Seq::<EffectView>::empty());
    lemma_effects_are_as_viewed(
        effects,
        outcome.released,
        diff_base_buffer,
        expanded,
        Seq::empty(),
    );
    lemma_outcome_by_verdicts(
        hunks,
        rows,
        diff,
        buffer_id,
        diff_base_unchanged,
        hunks.len(),
    );
}

} // verus!
