//! What a caller can rely on when a hunk is expanded: of what goes into each of the calls that
//! it takes, and what comes out of it.
use std::ops::Range;
use vstd::prelude::*;

use crate::anchor::AnchorOrder;
use crate::diff_base::BufferState;
use crate::editor::Editor;
use crate::expand::{
    deleted_line_count, find_place, fits_at, has_same, in_order, lemma_fits_at_once, ExpandStep,
    PendingExpansion, Placement,
};
use crate::expanded::ModelId;
use crate::hunk::{buffer_diff_hunk, CustomBlockId, DiffHunk, DiffHunkStatus, HoveredHunk};
use crate::request_laws::{gives_up_outdated, holds_current, shows_diff_base_of};

verus! {

/// Whether a pending expansion is that of a hunk whose place in the diff `found` has, in a
/// buffer.
pub open spec fn is_pending_for(
    pending: PendingExpansion,
    hunk: HoveredHunk,
    found: DiffHunk,
    buffer: BufferState,
) -> bool {
    &&& pending.hunk.multi_buffer_range == hunk.multi_buffer_range
    &&& pending.hunk.status == hunk.status
    &&& pending.hunk.diff_base_byte_range == hunk.diff_base_byte_range
    &&& Some(pending.diff_base) == buffer.diff_base
    &&& pending.deleted_bytes == found.diff_base_byte_range
}

/// A hunk is ignored exactly if there is not one hunk of the diff in its rows, not one buffer
/// that it lies in, or no diff base of that buffer.
pub proof fn expansion_needs_one_of_each(
    editor: &mut Editor,
    given: Option<ModelId>,
    hunk: &HoveredHunk,
    hunks_in_rows: &Vec<DiffHunk>,
    buffers: &Vec<BufferState>,
    step: ExpandStep,
)
    requires
        call_ensures(
            Editor::expand_diff_hunk,
            (editor, given, hunk, hunks_in_rows, buffers),
            step,
        ),
    ensures
        step is Ignored <==> !(hunks_in_rows@.len() == 1 && buffers@.len() == 1
            && buffers@[0].diff_base is Some),
{
}

/// A hunk that is not ignored is shown with the buffer of the diff base that was given, or else
/// with the one that is held and current, or else with one that is to be created. What is to be
/// measured is the text that the diff says was replaced.
pub proof fn expansion_uses_the_best_diff_base(
    editor: &mut Editor,
    given: Option<ModelId>,
    hunk: &HoveredHunk,
    hunks_in_rows: &Vec<DiffHunk>,
    buffers: &Vec<BufferState>,
    step: ExpandStep,
)
    requires
        call_ensures(
            Editor::expand_diff_hunk,
            (editor, given, hunk, hunks_in_rows, buffers),
            step,
        ),
    ensures
        step matches ExpandStep::Measure { diff_base_buffer, pending } ==> {
            &&& given is Some ==> given == Some(diff_base_buffer)
            &&& given is None ==> holds_current(
                old(editor).expanded_hunks,
                buffers@[0],
                diff_base_buffer,
            )
            &&& is_pending_for(pending, *hunk, hunks_in_rows@[0], buffers@[0])
        },
        step matches ExpandStep::CreateDiffBase { new_buffer, pending } ==> {
            &&& given is None
            &&& forall|held: ModelId|
                !#[trigger] holds_current(old(editor).expanded_hunks, buffers@[0], held)
            &&& shows_diff_base_of(new_buffer, buffers@[0])
            &&& is_pending_for(pending, *hunk, hunks_in_rows@[0], buffers@[0])
        },
{
}

/// Beginning to expand a hunk changes nothing, but that an outdated buffer of the diff base is
/// given up where it is looked for and not found current.
pub proof fn expansion_gives_up_outdated_diff_bases_only(
    editor: &mut Editor,
    given: Option<ModelId>,
    hunk: &HoveredHunk,
    hunks_in_rows: &Vec<DiffHunk>,
    buffers: &Vec<BufferState>,
    step: ExpandStep,
)
    requires
        call_ensures(
            Editor::expand_diff_hunk,
            (editor, given, hunk, hunks_in_rows, buffers),
            step,
        ),
    ensures
        final(editor).expanded_hunks.hunks@ == old(editor).expanded_hunks.hunks@,
        final(editor).expanded_hunks.toggle_task == old(editor).expanded_hunks.toggle_task,
        final(editor).expanded_hunks.sync_tasks@ == old(editor).expanded_hunks.sync_tasks@,
        given is Some || hunks_in_rows@.len() != 1 || buffers@.len() != 1
            ==> final(editor).expanded_hunks.diff_base@ == old(editor).expanded_hunks.diff_base@,
        given is None && hunks_in_rows@.len() == 1 && buffers@.len() == 1 ==> {
            ||| final(editor).expanded_hunks.diff_base@ == old(editor).expanded_hunks.diff_base@
                && exists|held: ModelId| #[trigger]
                holds_current(old(editor).expanded_hunks, buffers@[0], held)
            ||| gives_up_outdated(
                old(editor).expanded_hunks,
                final(editor).expanded_hunks,
                buffers@[0],
                None,
            ) && forall|held: ModelId|
                !#[trigger] holds_current(old(editor).expanded_hunks, buffers@[0], held)
        },
{
    let before = old(editor).expanded_hunks;
    if given is None && hunks_in_rows@.len() == 1 && buffers@.len() == 1 {
        let buffer = buffers@[0];
        if before.diff_base@.contains_key(buffer.remote_id)
            && before.diff_base@[buffer.remote_id].diff_base_version == buffer.diff_base_version {
            assert(holds_current(before, buffer, before.diff_base@[buffer.remote_id].buffer));
        }
    }
}

/// Of hunks in some rows, one that is alone is found, and otherwise none.
pub proof fn hunk_is_found_if_alone(hunks_in_rows: &Vec<DiffHunk>, result: Option<DiffHunk>)
    requires
        call_ensures(buffer_diff_hunk, (hunks_in_rows,), result),
    ensures
        result is Some <==> hunks_in_rows@.len() == 1,
        result is Some ==> result->0 == hunks_in_rows@[0],
{
}

/// The lines of deleted text are counted exactly as long as they are fewer than 256; from then
/// on the count starts over.
pub proof fn deleted_lines_are_counted(rows: &Range<u32>, count: u8)
    requires
        rows.start <= rows.end,
        call_ensures(deleted_line_count, (rows,), count),
    ensures
        rows.end - rows.start < 256 ==> count == rows.end - rows.start,
        exists|times: int| rows.end - rows.start == #[trigger] (256 * times) + count,
{
    let times = (rows.end - rows.start) / 256;
    assert(rows.end - rows.start == 256 * times + count);
}

/// Whether the order of anchors relative to one is that of a sorted list.
pub open spec fn is_sorted_order(starts: Seq<AnchorOrder>) -> bool {
    forall|i: int, j: int|
        #![trigger starts[i], starts[j]]
        0 <= i < j < starts.len() ==> {
            &&& starts[i] == AnchorOrder::Before || starts[j] != AnchorOrder::Before
            &&& starts[j] == AnchorOrder::After || starts[i] != AnchorOrder::After
        }
}

/// A place in a sorted list has all that comes before on one side and all that comes after on
/// the other. There is none exactly if the anchor is already there.
pub proof fn place_is_between_before_and_after(
    starts: &Vec<AnchorOrder>,
    result: Result<usize, usize>,
)
    requires
        call_ensures(find_place, (starts,), result),
    ensures
        result matches Ok(index) ==> index < starts@.len() && starts@[index as int]
            == AnchorOrder::Same,
        result matches Err(index) ==> {
            &&& index <= starts@.len()
            &&& index > 0 ==> starts@[index - 1] == AnchorOrder::Before
            &&& index < starts@.len() ==> starts@[index as int] == AnchorOrder::After
        },
        is_sorted_order(starts@) ==> (result is Ok <==> exists|i: int|
            0 <= i < starts@.len() && #[trigger] starts@[i] == AnchorOrder::Same),
        is_sorted_order(starts@) && result is Err ==> {
            &&& forall|i: int|
                0 <= i < result->Err_0 ==> #[trigger] starts@[i] == AnchorOrder::Before
            &&& forall|i: int|
                result->Err_0 <= i < starts@.len() ==> #[trigger] starts@[i] == AnchorOrder::After
        },
{
    lemma_sorted_order(starts@);
    if is_sorted_order(starts@) {
        if result is Err {
            lemma_fits_at_once(starts@, result->Err_0 as int);
        }
        assert(has_same(starts@) <==> exists|i: int|
            0 <= i < starts@.len() && #[trigger] starts@[i] == AnchorOrder::Same);
    }
}

proof fn lemma_sorted_order(starts: Seq<AnchorOrder>)
    ensures
        is_sorted_order(starts) ==> in_order(starts),
{
    if is_sorted_order(starts) {
        assert forall|i: int, j: int|
            #![trigger starts[i], starts[j]]
            0 <= i <= j < starts.len() implies {
            &&& starts[j] is Before ==> starts[i] is Before
            &&& starts[i] is After ==> starts[j] is After
        } by {
            if i < j {
                assert(starts[i] == AnchorOrder::Before || starts[j] != AnchorOrder::Before);
            }
        }
    }
}

/// Whatever place a hunk gets, its rows are highlighted exactly if it did not only remove text,
/// and its deleted text gets a block exactly if it did not only add text, with the buffer of
/// the diff base and the number of deleted lines.
pub proof fn placement_shows_what_the_hunk_did(
    editor: &Editor,
    pending: &PendingExpansion,
    diff_base_buffer: ModelId,
    deleted_rows: &Range<u32>,
    starts: &Vec<AnchorOrder>,
    result: Option<Placement>,
)
    requires
        deleted_rows.start <= deleted_rows.end,
        starts@.len() == editor.expanded_hunks.hunks@.len(),
        call_ensures(
            Editor::place_expansion,
            (editor, pending, diff_base_buffer, deleted_rows, starts),
            result,
        ),
    ensures
        result matches Some(placement) ==> {
            &&& placement.hunk.multi_buffer_range == pending.hunk.multi_buffer_range
            &&& placement.hunk.status == pending.hunk.status
            &&& placement.hunk.diff_base_byte_range == pending.hunk.diff_base_byte_range
            &&& placement.highlight is Some <==> pending.hunk.status != DiffHunkStatus::Removed
            &&& placement.highlight is Some ==> placement.highlight->0
                == pending.hunk.multi_buffer_range
            &&& placement.deleted_text is Some <==> pending.hunk.status != DiffHunkStatus::Added
            &&& placement.deleted_text matches Some(deleted_text) ==> {
                &&& deleted_text.diff_base_buffer == diff_base_buffer
                &&& deleted_text.height == (deleted_rows.end - deleted_rows.start) % 256
            }
        },
{
}

/// A hunk gets a place among sorted ones exactly if none of them starts where it does: the one
/// with all that start before it on one side and all that start after it on the other.
pub proof fn placement_keeps_starts_apart(
    editor: &Editor,
    pending: &PendingExpansion,
    diff_base_buffer: ModelId,
    deleted_rows: &Range<u32>,
    starts: &Vec<AnchorOrder>,
    result: Option<Placement>,
)
    requires
        deleted_rows.start <= deleted_rows.end,
        starts@.len() == editor.expanded_hunks.hunks@.len(),
        call_ensures(
            Editor::place_expansion,
            (editor, pending, diff_base_buffer, deleted_rows, starts),
            result,
        ),
    ensures
        result is None ==> exists|i: int|
            0 <= i < starts@.len() && #[trigger] starts@[i] == AnchorOrder::Same,
        result matches Some(placement) ==> {
            &&& placement.index <= starts@.len()
            &&& placement.index > 0 ==> starts@[placement.index - 1] == AnchorOrder::Before
            &&& placement.index < starts@.len() ==> starts@[placement.index as int]
                == AnchorOrder::After
        },
        is_sorted_order(starts@) ==> (result is None <==> exists|i: int|
            0 <= i < starts@.len() && #[trigger] starts@[i] == AnchorOrder::Same),
        is_sorted_order(starts@) && result is Some ==> {
            &&& forall|i: int|
                0 <= i < result->0.index ==> #[trigger] starts@[i] == AnchorOrder::Before
            &&& forall|i: int|
                result->0.index <= i < starts@.len() ==> #[trigger] starts@[i]
                    == AnchorOrder::After
        },
{
    lemma_sorted_order(starts@);
    if result is None {
        let i = choose|i: int| 0 <= i < starts@.len() && #[trigger] starts@[i] is Same;
        assert(starts@[i] == AnchorOrder::Same);
    }
    if is_sorted_order(starts@) {
        if result is Some {
            assert(fits_at(starts@, result->0.index as int));
            lemma_fits_at_once(starts@, result->0.index as int);
        }
        assert(has_same(starts@) <==> exists|i: int|
            0 <= i < starts@.len() && #[trigger] starts@[i] == AnchorOrder::Same);
    }
}

/// A hunk that takes its place stands there, visible, as it is, with the one block that was
/// inserted for its deleted text. All the others stay, in order, and nothing else changes.
pub proof fn hunk_stands_in_its_place(
    editor: &mut Editor,
    placement: Placement,
    new_block_ids: &Vec<CustomBlockId>,
)
    requires
        placement.index <= old(editor).expanded_hunks.hunks@.len(),
        call_ensures(Editor::finish_expansion, (editor, placement, new_block_ids), ()),
    ensures
        ({
            let before = old(editor).expanded_hunks.hunks@;
            let after = final(editor).expanded_hunks.hunks@;
            let entry = after[placement.index as int];
            &&& after.len() == before.len() + 1
            &&& forall|i: int| 0 <= i < placement.index ==> #[trigger] after[i] == before[i]
            &&& forall|i: int|
                placement.index <= i < before.len() ==> after[i + 1] == #[trigger] before[i]
            &&& entry.hunk_range == placement.hunk.multi_buffer_range
            &&& entry.diff_base_byte_range == placement.hunk.diff_base_byte_range
            &&& entry.status == placement.hunk.status
            &&& !entry.folded
            &&& entry.block is Some <==> placement.deleted_text is Some && new_block_ids@.len()
                == 1
            &&& entry.block is Some ==> entry.block->0 == new_block_ids@[0]
        }),
        final(editor).expanded_hunks.diff_base@ == old(editor).expanded_hunks.diff_base@,
        final(editor).expanded_hunks.toggle_task == old(editor).expanded_hunks.toggle_task,
        final(editor).expanded_hunks.sync_tasks@ == old(editor).expanded_hunks.sync_tasks@,
{
}

} // verus!
