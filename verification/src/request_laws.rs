//! What a caller can rely on when hunks are to be toggled or synchronized: of what goes into
//! the call that asks for it, and what comes out of it.
use std::ops::Range;
use vstd::prelude::*;

use crate::anchor::{BufferId, DisplayRow, Point};
use crate::call_laws::lemma_filter_map_is_chosen;
use crate::diff_base::{create_diff_base_buffer, BufferState, NewBuffer};
use crate::editor::{
    expanded_row_ends, unless_expanded, Editor, ExpandAllHunkDiffs, PlacedHunk, ToggleHunkDiff,
    ToggleRequest,
};
use crate::expanded::{ExpandedHunks, ModelId, TaskId};
use crate::hunk::{DiffHunk, ExpandedHunk, HoveredHunk};
use crate::order::{chosen, lemma_chosen_agree};
use crate::sync::{diff_base_to_create, SyncRequest};

verus! {

/// Whether a task has become the one that toggles hunks, in place of the one named by the
/// request, and nothing else has changed.
pub open spec fn waits_and_takes_over(
    before: ExpandedHunks,
    after: ExpandedHunks,
    previous_task: Option<TaskId>,
    task: TaskId,
) -> bool {
    &&& previous_task == before.toggle_task
    &&& after.toggle_task == Some(task)
    &&& after.sync_tasks@ == before.sync_tasks@
    &&& after.hunks@ == before.hunks@
    &&& after.diff_base@ == before.diff_base@
}

/// What the tasks as a whole say is what the fields say.
proof fn lemma_tasks_by_field(before: ExpandedHunks, after: ExpandedHunks, task: TaskId)
    requires
        after.hunk_update_tasks() == before.hunk_update_tasks().insert(None, task),
    ensures
        before.hunk_update_tasks().get(None) == before.toggle_task,
        after.toggle_task == Some(task),
        after.sync_tasks@ == before.sync_tasks@,
{
    assert(after.hunk_update_tasks().contains_key(None));
    assert(after.hunk_update_tasks()[None] == task);
    assert(before.hunk_update_tasks().contains_key(None) == before.toggle_task is Some);
    assert forall|buffer_id: BufferId|
        #![trigger after.sync_tasks@.dom().contains(buffer_id)]
        #![trigger after.sync_tasks@[buffer_id]]
        {
            &&& after.sync_tasks@.dom().contains(buffer_id) == before.sync_tasks@.dom().contains(
                buffer_id,
            )
            &&& after.sync_tasks@.dom().contains(buffer_id) ==> after.sync_tasks@[buffer_id]
                == before.sync_tasks@[buffer_id]
        } by {
        let key = Some(buffer_id);
        let tasks = before.hunk_update_tasks();
        assert(after.hunk_update_tasks().contains_key(key) == tasks.contains_key(key));
        if tasks.contains_key(key) {
            assert(after.hunk_update_tasks()[key] == tasks[key]);
        }
    }
    assert(after.sync_tasks@ =~= before.sync_tasks@);
}

/// A request to toggle hunks names all of them, in order, and the task to wait for.
pub proof fn toggling_is_asked_for_as_given(
    editor: &mut Editor,
    hunks: Vec<DiffHunk>,
    task: TaskId,
    request: ToggleRequest,
)
    requires
        call_ensures(Editor::toggle_hunks_expanded, (editor, hunks, task), request),
    ensures
        request.hunks_to_toggle@ == hunks@,
        !request.refresh_selections,
        waits_and_takes_over(
            old(editor).expanded_hunks,
            final(editor).expanded_hunks,
            request.previous_task,
            task,
        ),
{
    lemma_tasks_by_field(old(editor).expanded_hunks, final(editor).expanded_hunks, task);
}

/// The command to toggle asks for all the hunks in the selections.
pub proof fn command_toggles_the_selected_hunks(
    editor: &mut Editor,
    action: &ToggleHunkDiff,
    selected: Vec<DiffHunk>,
    task: TaskId,
    request: ToggleRequest,
)
    requires
        call_ensures(Editor::toggle_hunk_diff, (editor, action, selected, task), request),
    ensures
        request.hunks_to_toggle@ == selected@,
        !request.refresh_selections,
        waits_and_takes_over(
            old(editor).expanded_hunks,
            final(editor).expanded_hunks,
            request.previous_task,
            task,
        ),
{
    lemma_tasks_by_field(old(editor).expanded_hunks, final(editor).expanded_hunks, task);
}

/// Whether a hunk of the diff is the hovered one, which covers `points` of the text: it lies in
/// the buffer of its start, or, if that has none, of its end.
pub open spec fn is_hovered(hunk: DiffHunk, hovered: HoveredHunk, points: Range<Point>) -> bool {
    let start = hovered.multi_buffer_range.start;
    let end = hovered.multi_buffer_range.end;
    &&& start.buffer_id is Some ==> start.buffer_id == Some(hunk.buffer_id)
    &&& start.buffer_id is None ==> end.buffer_id == Some(hunk.buffer_id)
    &&& hunk.associated_range.start.0 == points.start.row
    &&& hunk.associated_range.end.0 == points.end.row
    &&& hunk.buffer_range.start == start.text_anchor
    &&& hunk.buffer_range.end == end.text_anchor
    &&& hunk.diff_base_byte_range.start == hovered.diff_base_byte_range.start
    &&& hunk.diff_base_byte_range.end == hovered.diff_base_byte_range.end
}

/// To toggle a hovered hunk asks for just this one, and to place the selections anew. Nothing
/// happens if neither of its ends lies in a buffer.
pub proof fn hovered_hunk_alone_is_toggled(
    editor: &mut Editor,
    hovered: &HoveredHunk,
    points: &Range<Point>,
    task: TaskId,
    result: Option<ToggleRequest>,
)
    requires
        call_ensures(Editor::toggle_hovered_hunk, (editor, hovered, points, task), result),
    ensures
        result is None <==> hovered.multi_buffer_range.start.buffer_id is None
            && hovered.multi_buffer_range.end.buffer_id is None,
        result is None ==> *final(editor) == *old(editor),
        result matches Some(request) ==> {
            &&& request.hunks_to_toggle@.len() == 1
            &&& is_hovered(request.hunks_to_toggle@[0], *hovered, *points)
            &&& request.refresh_selections
            &&& waits_and_takes_over(
                old(editor).expanded_hunks,
                final(editor).expanded_hunks,
                request.previous_task,
                task,
            )
        },
{
    if result is Some {
        lemma_tasks_by_field(old(editor).expanded_hunks, final(editor).expanded_hunks, task);
    }
}

/// Whether a visible expanded hunk is shown in exactly the given rows, and no visible one after
/// it in the list starts in the same row.
pub open spec fn is_taken(
    hunks: Seq<ExpandedHunk>,
    rows: Seq<Range<DisplayRow>>,
    start: DisplayRow,
    end: DisplayRow,
) -> bool {
    exists|i: int|
        {
            &&& 0 <= i < hunks.len()
            &&& !hunks[i].folded
            &&& (#[trigger] rows[i]).start.0 == start.0
            &&& rows[i].end.0 == end.0
            &&& forall|j: int|
                #![trigger rows[j]]
                i < j < hunks.len() && !hunks[j].folded ==> rows[j].start.0 != start.0
        }
}

/// What is found by the row in which hunks start is what is expanded there.
proof fn lemma_row_ends_found(
    hunks: Seq<ExpandedHunk>,
    rows: Seq<Range<DisplayRow>>,
    count: nat,
    start: DisplayRow,
    end: DisplayRow,
)
    requires
        count <= hunks.len(),
        rows.len() == hunks.len(),
    ensures
        (expanded_row_ends(hunks, rows, count).contains_key(start.0) && expanded_row_ends(
            hunks,
            rows,
            count,
        )[start.0] == end.0) <==> is_taken(
            hunks.take(count as int),
            rows.take(count as int),
            start,
            end,
        ),
    decreases count,
{
    let some_hunks = hunks.take(count as int);
    let some_rows = rows.take(count as int);
    if count > 0 {
        let last = count - 1;
        let fewer_hunks = hunks.take(last);
        let fewer_rows = rows.take(last);
        lemma_row_ends_found(hunks, rows, last as nat, start, end);
        assert(some_hunks[last] == hunks[last] && some_rows[last] == rows[last]);
        assert forall|i: int| #![trigger some_rows[i]] 0 <= i < last implies some_rows[i]
            == fewer_rows[i] && some_hunks[i] == fewer_hunks[i] by {}
        assert forall|i: int| #![trigger fewer_rows[i]] 0 <= i < last implies some_rows[i]
            == fewer_rows[i] && some_hunks[i] == fewer_hunks[i] by {}
        if !hunks[last].folded && rows[last].start.0 == start.0 {
            if rows[last].end.0 == end.0 {
                assert(is_taken(some_hunks, some_rows, start, end)) by {
                    assert(some_rows[last].end.0 == end.0);
                }
            } else if is_taken(some_hunks, some_rows, start, end) {
                let i = choose|i: int|
                    {
                        &&& 0 <= i < some_hunks.len()
                        &&& !some_hunks[i].folded
                        &&& (#[trigger] some_rows[i]).start.0 == start.0
                        &&& some_rows[i].end.0 == end.0
                        &&& forall|j: int|
                            #![trigger some_rows[j]]
                            i < j < some_hunks.len() && !some_hunks[j].folded
                                ==> some_rows[j].start.0 != start.0
                    };
                assert(i < last);
                assert(some_rows[last].start.0 != start.0);
            }
        } else {
            if is_taken(fewer_hunks, fewer_rows, start, end) {
                let i = choose|i: int|
                    {
                        &&& 0 <= i < fewer_hunks.len()
                        &&& !fewer_hunks[i].folded
                        &&& (#[trigger] fewer_rows[i]).start.0 == start.0
                        &&& fewer_rows[i].end.0 == end.0
                        &&& forall|j: int|
                            #![trigger fewer_rows[j]]
                            i < j < fewer_hunks.len() && !fewer_hunks[j].folded
                                ==> fewer_rows[j].start.0 != start.0
                    };
                assert(some_rows[i].start.0 == start.0);
                assert forall|j: int|
                    #![trigger some_rows[j]]
                    i < j < some_hunks.len() && !some_hunks[j].folded implies some_rows[j].start.0
                    != start.0 by {
                    if j < last {
                        assert(fewer_rows[j].start.0 != start.0);
                    }
                }
                assert(is_taken(some_hunks, some_rows, start, end));
            }
            if is_taken(some_hunks, some_rows, start, end) {
                let i = choose|i: int|
                    {
                        &&& 0 <= i < some_hunks.len()
                        &&& !some_hunks[i].folded
                        &&& (#[trigger] some_rows[i]).start.0 == start.0
                        &&& some_rows[i].end.0 == end.0
                        &&& forall|j: int|
                            #![trigger some_rows[j]]
                            i < j < some_hunks.len() && !some_hunks[j].folded
                                ==> some_rows[j].start.0 != start.0
                    };
                assert(i < last);
                assert(fewer_rows[i].start.0 == start.0);
                assert forall|j: int|
                    #![trigger fewer_rows[j]]
                    i < j < fewer_hunks.len() && !fewer_hunks[j].folded implies fewer_rows[j]
                    .start.0 != start.0 by {
                    assert(some_rows[j].start.0 != start.0);
                }
                assert(is_taken(fewer_hunks, fewer_rows, start, end));
            }
        }
    }
}

/// Expanding all asks for exactly the hunks of the diff in whose rows nothing is expanded, in
/// the order of the diff. Where several visible expanded hunks start in the same row, the last
/// of them counts.
pub proof fn expanding_all_asks_for_what_is_not_expanded(
    editor: &mut Editor,
    action: &ExpandAllHunkDiffs,
    diff: &Vec<PlacedHunk>,
    rows: &Vec<Range<DisplayRow>>,
    task: TaskId,
    request: ToggleRequest,
)
    requires
        rows@.len() == old(editor).expanded_hunks.hunks@.len(),
        call_ensures(Editor::expand_all_hunk_diffs, (editor, action, diff, rows, task), request),
    ensures
        request.hunks_to_toggle@ == chosen(
            Seq::new(diff@.len(), |d: int| diff@[d].hunk),
            |d: int|
                !is_taken(
                    old(editor).expanded_hunks.hunks@,
                    rows@,
                    diff@[d].display_rows.start,
                    diff@[d].display_rows.end,
                ),
            diff@.len(),
        ),
        !request.refresh_selections,
        waits_and_takes_over(
            old(editor).expanded_hunks,
            final(editor).expanded_hunks,
            request.previous_task,
            task,
        ),
{
    let hunks = old(editor).expanded_hunks.hunks@;
    let ends = expanded_row_ends(hunks, rows@, hunks.len());
    lemma_tasks_by_field(old(editor).expanded_hunks, final(editor).expanded_hunks, task);
    let unless = |hunk: PlacedHunk| unless_expanded(hunk, ends);
    lemma_filter_map_is_chosen(diff@, unless, diff@.len());
    assert(diff@.take(diff@.len() as int) =~= diff@);
    let not_taken = |d: int|
        !is_taken(hunks, rows@, diff@[d].display_rows.start, diff@[d].display_rows.end);
    assert forall|d: int| 0 <= d < diff@.len() implies (unless(diff@[d]) is Some) == #[trigger]
        not_taken(d) by {
        lemma_row_ends_found(
            hunks,
            rows@,
            hunks.len(),
            diff@[d].display_rows.start,
            diff@[d].display_rows.end,
        );
        assert(hunks.take(hunks.len() as int) =~= hunks);
        assert(rows@.take(hunks.len() as int) =~= rows@);
    }
    let found = |d: int| unless(diff@[d]) is Some;
    assert forall|d: int| 0 <= d < diff@.len() implies #[trigger] found(d) == not_taken(d) by {
        assert((unless(diff@[d]) is Some) == not_taken(d));
    }
    lemma_chosen_agree(
        Seq::new(diff@.len(), |d: int| unless(diff@[d])->0),
        Seq::new(diff@.len(), |d: int| diff@[d].hunk),
        found,
        not_taken,
        diff@.len(),
    );
}

/// Where no two visible expanded hunks start in the same row, each hunk of the diff is asked
/// for unless a visible one is expanded in exactly its rows, and nothing else is asked for.
pub proof fn expanding_all_is_complete(
    editor: &mut Editor,
    action: &ExpandAllHunkDiffs,
    diff: &Vec<PlacedHunk>,
    rows: &Vec<Range<DisplayRow>>,
    task: TaskId,
    request: ToggleRequest,
)
    requires
        rows@.len() == old(editor).expanded_hunks.hunks@.len(),
        call_ensures(Editor::expand_all_hunk_diffs, (editor, action, diff, rows, task), request),
        forall|i: int, j: int|
            #![trigger rows@[i], rows@[j]]
            0 <= i < j < rows@.len() && !old(editor).expanded_hunks.hunks@[i].folded
                && !old(editor).expanded_hunks.hunks@[j].folded ==> rows@[i].start.0
                != rows@[j].start.0,
    ensures
        request.hunks_to_toggle@ == chosen(
            Seq::new(diff@.len(), |d: int| diff@[d].hunk),
            |d: int|
                !(exists|i: int|
                    0 <= i < rows@.len() && !old(editor).expanded_hunks.hunks@[i].folded
                        && #[trigger] rows@[i] == diff@[d].display_rows),
            diff@.len(),
        ),
{
    let hunks = old(editor).expanded_hunks.hunks@;
    expanding_all_asks_for_what_is_not_expanded(editor, action, diff, rows, task, request);
    let not_taken = |d: int|
        !is_taken(hunks, rows@, diff@[d].display_rows.start, diff@[d].display_rows.end);
    let not_shown = |d: int|
        !(exists|i: int|
            0 <= i < rows@.len() && !hunks[i].folded && #[trigger] rows@[i]
                == diff@[d].display_rows);
    assert forall|d: int| 0 <= d < diff@.len() implies #[trigger] not_taken(d) == not_shown(d) by {
        let place = diff@[d].display_rows;
        if !not_shown(d) {
            let i = choose|i: int|
                0 <= i < rows@.len() && !hunks[i].folded && #[trigger] rows@[i] == place;
            assert(rows@[i].start.0 == place.start.0);
            assert(is_taken(hunks, rows@, place.start, place.end));
        }
        if !not_taken(d) {
            let i = choose|i: int|
                {
                    &&& 0 <= i < hunks.len()
                    &&& !hunks[i].folded
                    &&& (#[trigger] rows@[i]).start.0 == place.start.0
                    &&& rows@[i].end.0 == place.end.0
                    &&& forall|j: int|
                        #![trigger rows@[j]]
                        i < j < hunks.len() && !hunks[j].folded ==> rows@[j].start.0
                            != place.start.0
                };
            assert(rows@[i] == place);
        }
    }
    lemma_chosen_agree(
        Seq::new(diff@.len(), |d: int| diff@[d].hunk),
        Seq::new(diff@.len(), |d: int| diff@[d].hunk),
        not_taken,
        not_shown,
        diff@.len(),
    );
}

/// Whether a buffer of the diff base is held for a buffer, in its present version.
pub open spec fn holds_current(
    expanded: ExpandedHunks,
    buffer: BufferState,
    held: ModelId,
) -> bool {
    &&& expanded.diff_base@.contains_key(buffer.remote_id)
    &&& expanded.diff_base@[buffer.remote_id].diff_base_version == buffer.diff_base_version
    &&& expanded.diff_base@[buffer.remote_id].buffer == held
}

/// Whether what is held of diff bases is left as it is where `result` was found for a buffer,
/// and else only that for this buffer is given up.
pub open spec fn gives_up_outdated(
    before: ExpandedHunks,
    after: ExpandedHunks,
    buffer: BufferState,
    result: Option<ModelId>,
) -> bool {
    forall|buffer_id: BufferId|
        #![trigger after.diff_base@.contains_key(buffer_id)]
        #![trigger after.diff_base@[buffer_id]]
        {
            &&& after.diff_base@.contains_key(buffer_id) <==> before.diff_base@.contains_key(
                buffer_id,
            ) && (buffer_id != buffer.remote_id || result is Some)
            &&& after.diff_base@.contains_key(buffer_id) ==> after.diff_base@[buffer_id]
                == before.diff_base@[buffer_id]
        }
}

/// The buffer of the diff base that is found for a buffer is the one that is held for it, if
/// that is of the present version. If not, it is given up.
pub proof fn diff_base_is_found_if_current(
    editor: &mut Editor,
    buffer: &BufferState,
    result: Option<ModelId>,
)
    requires
        call_ensures(Editor::current_diff_base_buffer, (editor, buffer), result),
    ensures
        forall|held: ModelId|
            #![trigger holds_current(old(editor).expanded_hunks, *buffer, held)]
            result == Some(held) <==> holds_current(old(editor).expanded_hunks, *buffer, held),
        gives_up_outdated(
            old(editor).expanded_hunks,
            final(editor).expanded_hunks,
            *buffer,
            result,
        ),
        final(editor).expanded_hunks.hunks@ == old(editor).expanded_hunks.hunks@,
        final(editor).expanded_hunks.toggle_task == old(editor).expanded_hunks.toggle_task,
        final(editor).expanded_hunks.sync_tasks@ == old(editor).expanded_hunks.sync_tasks@,
{
}

/// A request to synchronize a buffer names it with its present version, and the buffer of the
/// diff base that is found for it. The task takes the place of the one for the same buffer,
/// which is to be cancelled, and no other task is touched.
pub proof fn synchronization_is_asked_for_one_buffer(
    editor: &mut Editor,
    buffer: &BufferState,
    task: TaskId,
    request: SyncRequest,
)
    requires
        call_ensures(Editor::sync_expanded_diff_hunks, (editor, buffer, task), request),
    ensures
        request.buffer_id == buffer.remote_id,
        request.diff_base_version == buffer.diff_base_version,
        forall|held: ModelId|
            #![trigger holds_current(old(editor).expanded_hunks, *buffer, held)]
            request.diff_base_buffer == Some(held) <==> holds_current(
                old(editor).expanded_hunks,
                *buffer,
                held,
            ),
        gives_up_outdated(
            old(editor).expanded_hunks,
            final(editor).expanded_hunks,
            *buffer,
            request.diff_base_buffer,
        ),
        request.cancelled_task is Some
            <==> old(editor).expanded_hunks.sync_tasks@.contains_key(buffer.remote_id),
        request.cancelled_task is Some ==> request.cancelled_task == Some(
            old(editor).expanded_hunks.sync_tasks@[buffer.remote_id],
        ),
        final(editor).expanded_hunks.sync_tasks@ == old(editor).expanded_hunks.sync_tasks@.insert(
            buffer.remote_id,
            task,
        ),
        final(editor).expanded_hunks.toggle_task == old(editor).expanded_hunks.toggle_task,
        final(editor).expanded_hunks.hunks@ == old(editor).expanded_hunks.hunks@,
{
    let before = old(editor).expanded_hunks;
    let after = final(editor).expanded_hunks;
    let id = buffer.remote_id;
    let tasks = before.hunk_update_tasks();
    assert(tasks.contains_key(Some(id)) == before.sync_tasks@.contains_key(id));
    assert(after.hunk_update_tasks().contains_key(None) == tasks.contains_key(None));
    if tasks.contains_key(None) {
        assert(after.hunk_update_tasks()[None] == tasks[None]);
    }
    assert forall|buffer_id: BufferId|
        #![trigger after.sync_tasks@.dom().contains(buffer_id)]
        #![trigger after.sync_tasks@[buffer_id]]
        {
            &&& after.sync_tasks@.dom().contains(buffer_id) == (before.sync_tasks@.dom().contains(
                buffer_id,
            ) || buffer_id == id)
            &&& after.sync_tasks@.dom().contains(buffer_id) ==> after.sync_tasks@[buffer_id] == (
            if buffer_id == id {
                task
            } else {
                before.sync_tasks@[buffer_id]
            })
        } by {
        let key = Some(buffer_id);
        assert(after.hunk_update_tasks().contains_key(key) == (tasks.contains_key(key) || key
            == Some(id)));
        if after.hunk_update_tasks().contains_key(key) {
            assert(after.hunk_update_tasks()[key] == (if key == Some(id) {
                task
            } else {
                tasks[key]
            }));
        }
    }
    assert(after.sync_tasks@ =~= before.sync_tasks@.insert(id, task));
}

/// Whether a buffer is to be created that shows the diff base of another one as that one shows
/// its text.
pub open spec fn shows_diff_base_of(new_buffer: NewBuffer, buffer: BufferState) -> bool {
    &&& buffer.diff_base == Some(new_buffer.text)
    &&& new_buffer.line_ending == buffer.line_ending
    &&& new_buffer.language == buffer.language
}

/// A buffer for the diff base can be created exactly if there is a diff base.
pub proof fn diff_base_is_shown_like_its_buffer(buffer: &BufferState, result: Option<NewBuffer>)
    requires
        call_ensures(create_diff_base_buffer, (buffer,), result),
    ensures
        result is Some <==> buffer.diff_base is Some,
        result matches Some(new_buffer) ==> shows_diff_base_of(new_buffer, *buffer),
{
}

/// A synchronization has a buffer for the diff base created exactly if none was found and there
/// is a diff base.
pub proof fn diff_base_is_created_where_none_was_found(
    request: &SyncRequest,
    buffer: &BufferState,
    result: Option<NewBuffer>,
)
    requires
        call_ensures(diff_base_to_create, (request, buffer), result),
    ensures
        result is Some <==> request.diff_base_buffer is None && buffer.diff_base is Some,
        result matches Some(new_buffer) ==> shows_diff_base_of(new_buffer, *buffer),
{
}

} // verus!
