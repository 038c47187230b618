//! Expanding a hunk: where it goes among the expanded hunks, and what shows it.
use std::ops::Range;
use vstd::prelude::*;

use crate::anchor::{copy_range, Anchor, AnchorOrder};
use crate::block::inserted_block;
use crate::diff_base::{
    create_diff_base_buffer, current_diff_base, diff_base_contents, BufferState, NewBuffer, TextId,
};
use crate::editor::Editor;
use crate::expand_laws::expansion_keeps_well_formed;
use crate::expanded::{hunks_well_formed, ModelId};
use crate::hunk::{
    buffer_diff_hunk, the_only_hunk, CustomBlockId, DiffHunk, DiffHunkStatus, ExpandedHunk,
    HoveredHunk,
};

verus! {

/// A hunk on its way to being expanded.
#[derive(Debug, PartialEq, Eq)]
pub struct PendingExpansion {
    pub hunk: HoveredHunk,
    /// The diff base of the buffer that the hunk lies in.
    pub diff_base: TextId,
    /// The part of the diff base that the hunk replaced, as the diff has it now.
    pub deleted_bytes: Range<usize>,
}

/// What comes next for a hunk that is to be expanded.
#[derive(Debug, PartialEq, Eq)]
pub enum ExpandStep {
    /// The hunk is not expanded.
    Ignored,
    /// A buffer with the text of the diff base is to be created; then the deleted text is to
    /// be measured.
    CreateDiffBase { new_buffer: NewBuffer, pending: PendingExpansion },
    /// The rows of the diff base in which the deleted text starts and ends are to be found.
    Measure { diff_base_buffer: ModelId, pending: PendingExpansion },
}

/// The place of a hunk among the expanded ones, and what is to be done on the screen
/// before it takes it.
#[derive(Debug, PartialEq, Eq)]
pub struct Placement {
    pub index: usize,
    pub hunk: HoveredHunk,
    /// The rows to be highlighted as added text, first.
    pub highlight: Option<Range<Anchor>>,
    /// The deleted text to be shown in a block, then.
    pub deleted_text: Option<DeletedText>,
}

/// Text of a diff base that a block is to show.
#[derive(Debug, Clone, Copy, PartialEq, Eq, Structural)]
pub struct DeletedText {
    pub diff_base_buffer: ModelId,
    /// The number of lines, modulo 256.
    pub height: u8,
}

/// Whether the order of some anchors relative to another one is that of a sorted list:
/// first those before it, then those that are the same, then those after it.
pub open spec fn in_order(starts: Seq<AnchorOrder>) -> bool {
    forall|i: int, j: int|
        #![trigger starts[i], starts[j]]
        0 <= i <= j < starts.len() ==> {
            &&& starts[j] is Before ==> starts[i] is Before
            &&& starts[i] is After ==> starts[j] is After
        }
}

/// Whether an anchor can go at `index` into a list, given the order of the anchors in the
/// list relative to it: what is next to it lies on the right side of it.
pub open spec fn fits_at(starts: Seq<AnchorOrder>, index: int) -> bool {
    &&& 0 <= index <= starts.len()
    &&& index > 0 ==> starts[index - 1] is Before
    &&& index < starts.len() ==> starts[index] is After
}

/// Whether some anchor in a list is the same as the one that the list is held against.
pub open spec fn has_same(starts: Seq<AnchorOrder>) -> bool {
    exists|i: int| 0 <= i < starts.len() && #[trigger] starts[i] is Same
}

/// In a sorted list an anchor fits in at most one place, with all that is before it on one
/// side and all that is after it on the other; and in none if it is already there.
pub proof fn lemma_fits_at_once(starts: Seq<AnchorOrder>, index: int)
    requires
        in_order(starts),
        fits_at(starts, index),
    ensures
        !has_same(starts),
        forall|i: int| 0 <= i < index ==> #[trigger] starts[i] is Before,
        forall|i: int| index <= i < starts.len() ==> #[trigger] starts[i] is After,
        forall|other: int| #[trigger] fits_at(starts, other) ==> other == index,
{
    assert forall|i: int| 0 <= i < index implies #[trigger] starts[i] is Before by {
        assert(starts[index - 1] is Before);
    }
    assert forall|i: int| index <= i < starts.len() implies #[trigger] starts[i] is After by {
        assert(starts[index] is After);
    }
    assert forall|other: int| #[trigger] fits_at(starts, other) implies other == index by {
        if other < index {
            assert(starts[other] is Before);
        }
        if other > index {
            assert(starts[other - 1] is After);
        }
    }
}

/// The expansion of `hunk` that follows from the hunk of the diff in its place.
pub open spec fn pending_expansion(
    hunk: HoveredHunk,
    diff_base: TextId,
    found: DiffHunk,
) -> PendingExpansion {
    PendingExpansion { hunk, diff_base, deleted_bytes: found.diff_base_byte_range }
}

/// What comes first for a hunk that is to be expanded. It needs exactly one hunk of the
/// diff in its rows, exactly one buffer, and a diff base of that buffer. `held` is the
/// buffer that shows the diff base, if there is one.
pub open spec fn first_step(
    held: Option<ModelId>,
    hunk: HoveredHunk,
    hunks_in_rows: Seq<DiffHunk>,
    buffers: Seq<BufferState>,
) -> ExpandStep {
    if the_only_hunk(hunks_in_rows) is None || buffers.len() != 1 || buffers[0].diff_base is None {
        ExpandStep::Ignored
    } else {
        let pending = pending_expansion(
            hunk,
            buffers[0].diff_base->0,
            the_only_hunk(hunks_in_rows)->0,
        );
        match held {
            Some(diff_base_buffer) => ExpandStep::Measure { diff_base_buffer, pending },
            None => ExpandStep::CreateDiffBase {
                new_buffer: diff_base_contents(buffers[0])->0,
                pending,
            },
        }
    }
}

/// Whether the buffers of diff bases are searched for that of a hunk: it is to be expanded
/// without a given one, and lies in one buffer and in the rows of one hunk of the diff.
pub open spec fn looks_up_diff_base(
    given: Option<ModelId>,
    hunks_in_rows: Seq<DiffHunk>,
    buffers: Seq<BufferState>,
) -> bool {
    given is None && the_only_hunk(hunks_in_rows) is Some && buffers.len() == 1
}

/// What is shown of a hunk: its rows are highlighted unless it only removed text, and the
/// deleted text gets a block unless it only added text.
pub open spec fn placement_at(
    index: int,
    hunk: HoveredHunk,
    diff_base_buffer: ModelId,
    height: u8,
) -> Placement {
    Placement {
        index: index as usize,
        hunk,
        highlight: match hunk.status {
            DiffHunkStatus::Removed => None,
            DiffHunkStatus::Added | DiffHunkStatus::Modified => Some(hunk.multi_buffer_range),
        },
        deleted_text: match hunk.status {
            DiffHunkStatus::Added => None,
            DiffHunkStatus::Removed | DiffHunkStatus::Modified => Some(
                DeletedText { diff_base_buffer, height },
            ),
        },
    }
}

/// Whether a block for deleted text goes with a hunk that removed some.
pub open spec fn shows_what_it_should(placement: Placement) -> bool {
    placement.hunk.status is Added ==> placement.deleted_text is None
}

/// A hunk as it stands among the expanded ones.
pub open spec fn expanded_hunk(hunk: HoveredHunk, block: Option<CustomBlockId>) -> ExpandedHunk {
    ExpandedHunk {
        block,
        hunk_range: hunk.multi_buffer_range,
        diff_base_byte_range: hunk.diff_base_byte_range,
        status: hunk.status,
        folded: false,
    }
}

/// The block of a hunk that takes its place: the only one that was inserted, if one was
/// asked for.
pub open spec fn placed_block(placement: Placement, new_block_ids: Seq<CustomBlockId>) -> Option<
    CustomBlockId,
> {
    if placement.deleted_text is Some && new_block_ids.len() == 1 {
        Some(new_block_ids[0])
    } else {
        None
    }
}

/// Looks for a place in a sorted list, by halving, given the order of its anchors relative
/// to the one that looks for a place.
pub fn find_place(starts: &Vec<AnchorOrder>) -> (result: Result<usize, usize>)
    ensures
        match result {
            Ok(index) => index < starts@.len() && starts@[index as int] is Same,
            Err(index) => fits_at(starts@, index as int),
        },
        in_order(starts@) ==> (result is Ok <==> has_same(starts@)),
{
    let mut low: usize = 0;
    let mut high: usize = starts.len();
    while low < high
        invariant
            low <= high <= starts@.len(),
            low > 0 ==> starts@[low - 1] is Before,
            high < starts@.len() ==> starts@[high as int] is After,
        decreases high - low,
    {
        let middle: usize = low + (high - low) / 2;
        match starts[middle] {
            AnchorOrder::Before => {
                low = middle + 1;
            },
            AnchorOrder::Same => {
                return Ok(middle);
            },
            AnchorOrder::After => {
                high = middle;
            },
        }
    }
    proof {
        if in_order(starts@) {
            lemma_fits_at_once(starts@, low as int);
        }
    }
    Err(low)
}

/// The number of lines from the row in which deleted text starts to that in which it ends,
/// modulo 256.
pub fn deleted_line_count(rows: &Range<u32>) -> (count: u8)
    requires
        rows.start <= rows.end,
    ensures
        count == (rows.end - rows.start) % 256,
{
    let lines: u32 = rows.end - rows.start;
    assert((lines as u8) == lines % 256) by (bit_vector);
    #[verifier::truncate]
    (lines as u8)
}

impl Editor {
    /// Begins to expand a hunk. `hunks_in_rows` are the hunks of the diff in the rows of the
    /// hunk, and `buffers` the buffers that its text lies in. `diff_base_buffer` is the
    /// buffer that shows the diff base, if it is known; else the one that is held for the
    /// buffer is taken, if it is current.
    pub fn expand_diff_hunk(
        &mut self,
        diff_base_buffer: Option<ModelId>,
        hunk: &HoveredHunk,
        hunks_in_rows: &Vec<DiffHunk>,
        buffers: &Vec<BufferState>,
    ) -> (step: ExpandStep)
        ensures
            step == first_step(
                if diff_base_buffer is Some {
                    diff_base_buffer
                } else {
                    current_diff_base(old(self).expanded_hunks, buffers@[0])
                },
                *hunk,
                hunks_in_rows@,
                buffers@,
            ),
            final(self).expanded_hunks.diff_base@ == (if looks_up_diff_base(
                diff_base_buffer,
                hunks_in_rows@,
                buffers@,
            ) && current_diff_base(old(self).expanded_hunks, buffers@[0]) is None {
                old(self).expanded_hunks.diff_base@.remove(buffers@[0].remote_id)
            } else {
                old(self).expanded_hunks.diff_base@
            }),
            final(self).expanded_hunks.hunks == old(self).expanded_hunks.hunks,
            final(self).expanded_hunks.toggle_task == old(self).expanded_hunks.toggle_task,
            final(self).expanded_hunks.sync_tasks == old(self).expanded_hunks.sync_tasks,
    {
        let found = match buffer_diff_hunk(hunks_in_rows) {
            Some(found) => found,
            None => {
                return ExpandStep::Ignored;
            },
        };
        if buffers.len() != 1 {
            return ExpandStep::Ignored;
        }
        let buffer = &buffers[0];
        let held = match diff_base_buffer {
            Some(diff_base_buffer) => Some(diff_base_buffer),
            None => self.current_diff_base_buffer(buffer),
        };
        let diff_base: TextId = match buffer.diff_base {
            Some(diff_base) => diff_base,
            None => {
                return ExpandStep::Ignored;
            },
        };
        let pending = PendingExpansion {
            hunk: hunk.clone(),
            diff_base,
            deleted_bytes: copy_range(&found.diff_base_byte_range),
        };
        match held {
            Some(diff_base_buffer) => ExpandStep::Measure { diff_base_buffer, pending },
            None => match create_diff_base_buffer(buffer) {
                Some(new_buffer) => ExpandStep::CreateDiffBase { new_buffer, pending },
                None => ExpandStep::Ignored,
            },
        }
    }

    /// Finds the place of a hunk whose deleted text goes from the first to the second of
    /// `deleted_rows` in the diff base. `starts` is the order of the starts of the expanded
    /// hunks relative to that of the hunk. There is no place for it if one of them is the
    /// same.
    pub fn place_expansion(
        &self,
        pending: &PendingExpansion,
        diff_base_buffer: ModelId,
        deleted_rows: &Range<u32>,
        starts: &Vec<AnchorOrder>,
    ) -> (result: Option<Placement>)
        requires
            deleted_rows.start <= deleted_rows.end,
            starts@.len() == self.expanded_hunks.hunks@.len(),
        ensures
            result is None ==> has_same(starts@),
            in_order(starts@) ==> (result is None <==> has_same(starts@)),
            result matches Some(placement) ==> {
                &&& fits_at(starts@, placement.index as int)
                &&& placement == placement_at(
                    placement.index as int,
                    pending.hunk,
                    diff_base_buffer,
                    ((deleted_rows.end - deleted_rows.start) % 256) as u8,
                )
                &&& shows_what_it_should(placement)
            },
    {
        let height = deleted_line_count(deleted_rows);
        let index: usize = match find_place(starts) {
            Ok(_already_present) => {
                return None;
            },
            Err(index) => index,
        };
        let hunk = pending.hunk.clone();
        let highlight = match hunk.status {
            DiffHunkStatus::Removed => None,
            DiffHunkStatus::Added | DiffHunkStatus::Modified => Some(
                copy_range(&hunk.multi_buffer_range),
            ),
        };
        let deleted_text = match hunk.status {
            DiffHunkStatus::Added => None,
            DiffHunkStatus::Removed | DiffHunkStatus::Modified => Some(
                DeletedText { diff_base_buffer, height },
            ),
        };
        Some(Placement { index, hunk, highlight, deleted_text })
    }

    /// Lets a hunk take its place. `new_block_ids` are the blocks that were inserted for its
    /// deleted text.
    pub fn finish_expansion(&mut self, placement: Placement, new_block_ids: &Vec<CustomBlockId>)
        requires
            placement.index <= old(self).expanded_hunks.hunks@.len(),
        ensures
            final(self).expanded_hunks.hunks@ == old(self).expanded_hunks.hunks@.insert(
                placement.index as int,
                expanded_hunk(placement.hunk, placed_block(placement, new_block_ids@)),
            ),
            final(self).expanded_hunks.diff_base == old(self).expanded_hunks.diff_base,
            final(self).expanded_hunks.toggle_task == old(self).expanded_hunks.toggle_task,
            final(self).expanded_hunks.sync_tasks == old(self).expanded_hunks.sync_tasks,
            old(self).expanded_hunks.well_formed() && shows_what_it_should(placement)
                ==> final(self).expanded_hunks.well_formed(),
    {
        proof {
            if hunks_well_formed(self.expanded_hunks.hunks@) && shows_what_it_should(placement) {
                expansion_keeps_well_formed(
                    self.expanded_hunks.hunks@,
                    placement,
                    new_block_ids@,
                );
            }
        }
        let block = match placement.deleted_text {
            Some(_) => inserted_block(new_block_ids),
            None => None,
        };
        self.expanded_hunks.hunks.insert(
            placement.index,
            ExpandedHunk {
                block,
                hunk_range: placement.hunk.multi_buffer_range,
                diff_base_byte_range: placement.hunk.diff_base_byte_range,
                status: placement.hunk.status,
                folded: false,
            },
        );
    }
}

} // verus!
