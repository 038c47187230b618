//! The hunks that are expanded in an editor.
use std::collections::HashMap;
use std::ops::Range;
use vstd::prelude::*;

use crate::anchor::{Anchor, BufferId};
use crate::hunk::{CustomBlockId, ExpandedHunk};

verus! {

/// Identifies a buffer that the editor holds in memory, such as one that shows the text
/// of a diff base.
pub type ModelId = u64;

/// Identifies a task that runs in the background.
pub type TaskId = u64;

/// A buffer with the text of a diff base.
#[derive(Debug, Clone, Copy, PartialEq, Eq, Structural)]
pub struct DiffBaseBuffer {
    pub buffer: ModelId,
    /// The version of the diff base that the buffer shows.
    pub diff_base_version: usize,
}

/// The hunks that are expanded in an editor, in the order of the text.
#[derive(Debug)]
pub struct ExpandedHunks {
    pub hunks: Vec<ExpandedHunk>,
    /// The buffer of the diff base, for each buffer that has been synchronized.
    pub diff_base: HashMap<BufferId, DiffBaseBuffer>,
    /// The last task that was started to toggle hunks.
    pub toggle_task: Option<TaskId>,
    /// The last task that was started to synchronize the hunks of a buffer.
    pub sync_tasks: HashMap<BufferId, TaskId>,
}

impl ExpandedHunks {
    /// The tasks that change hunks: those that synchronize a buffer by that buffer, and the
    /// one that toggles hunks, in whichever buffer, by none.
    pub open spec fn hunk_update_tasks(self) -> Map<Option<BufferId>, TaskId> {
        Map::new(
            |key: Option<BufferId>|
                match key {
                    Some(buffer_id) => self.sync_tasks@.contains_key(buffer_id),
                    None => self.toggle_task is Some,
                },
            |key: Option<BufferId>|
                match key {
                    Some(buffer_id) => self.sync_tasks@[buffer_id],
                    None => self.toggle_task->0,
                },
        )
    }

    /// The expanded hunks, with or without those that have disappeared in a fold.
    pub fn hunks(&self, include_folded: bool) -> (result: Vec<&ExpandedHunk>)
        ensures
            result@.unref() == self.hunks@.filter(
                |hunk: ExpandedHunk| include_folded || !hunk.folded,
            ),
    {
        let ghost listed = |hunk: ExpandedHunk| include_folded || !hunk.folded;
        let mut result: Vec<&ExpandedHunk> = Vec::new();
        proof {
            reveal(Seq::filter);
            assert(result@.unref() =~= self.hunks@.take(0).filter(listed));
        }
        let mut i: usize = 0;
        while i < self.hunks.len()
            invariant
                i <= self.hunks.len(),
                listed == (|hunk: ExpandedHunk| include_folded || !hunk.folded),
                result@.unref() == self.hunks@.take(i as int).filter(listed),
            decreases self.hunks.len() - i,
        {
            proof {
                reveal(Seq::filter);
                assert(self.hunks@.take(i + 1).drop_last() =~= self.hunks@.take(i as int));
                assert(self.hunks@.take(i + 1).last() == self.hunks@[i as int]);
            }
            let ghost before = result@;
            if include_folded || !self.hunks[i].folded {
                result.push(&self.hunks[i]);
                assert(result@.unref() =~= before.unref().push(self.hunks@[i as int]));
            }
            i = i + 1;
        }
        assert(self.hunks@.take(self.hunks@.len() as int) =~= self.hunks@);
        result
    }

    /// What holds of every expanded hunk: one that has disappeared in a fold has no block
    /// left, and one that only added text has none at all.
    pub open spec fn well_formed(self) -> bool {
        hunks_well_formed(self.hunks@)
    }
}

impl Default for ExpandedHunks {
    fn default() -> (expanded: Self)
        ensures
            expanded.hunks@ == Seq::<ExpandedHunk>::empty(),
            expanded.diff_base@ == Map::<BufferId, DiffBaseBuffer>::empty(),
            expanded.toggle_task is None,
            expanded.sync_tasks@ == Map::<BufferId, TaskId>::empty(),
            expanded.well_formed(),
    {
        ExpandedHunks {
            hunks: Vec::new(),
            diff_base: HashMap::new(),
            toggle_task: None,
            sync_tasks: HashMap::new(),
        }
    }
}

/// What `ExpandedHunks::well_formed` asks of all the hunks.
pub open spec fn hunks_well_formed(hunks: Seq<ExpandedHunk>) -> bool {
    forall|i: int| 0 <= i < hunks.len() ==> hunk_well_formed(#[trigger] hunks[i])
}

/// What `ExpandedHunks::well_formed` asks of one hunk.
pub open spec fn hunk_well_formed(hunk: ExpandedHunk) -> bool {
    hunk.folded || hunk.status is Added ==> hunk.block is None
}

/// The blocks that belong to some of `hunks`.
pub open spec fn blocks_of(hunks: Seq<ExpandedHunk>) -> Set<CustomBlockId> {
    Set::new(
        |block: CustomBlockId|
            exists|i: int| 0 <= i < hunks.len() && (#[trigger] hunks[i]).block == Some(block),
    )
}

/// A hunk more adds its block to those of the hunks.
pub proof fn lemma_blocks_of_push(hunks: Seq<ExpandedHunk>, hunk: ExpandedHunk)
    ensures
        blocks_of(hunks.push(hunk)) == match hunk.block {
            Some(block) => blocks_of(hunks).insert(block),
            None => blocks_of(hunks),
        },
{
    let more = hunks.push(hunk);
    assert forall|block: CustomBlockId| #[trigger] blocks_of(more).contains(block) <==> (
    blocks_of(hunks).contains(block) || hunk.block == Some(block)) by {
        assert(more[hunks.len() as int] == hunk);
        assert forall|i: int| 0 <= i < hunks.len() implies more[i] == #[trigger] hunks[i] by {}
    }
    match hunk.block {
        Some(block) => assert(blocks_of(more) =~= blocks_of(hunks).insert(block)),
        None => assert(blocks_of(more) =~= blocks_of(hunks)),
    }
}

/// Whether no block belongs to two of `hunks`.
pub open spec fn blocks_distinct(hunks: Seq<ExpandedHunk>) -> bool {
    forall|i: int, j: int|
        #![trigger hunks[i], hunks[j]]
        0 <= i < j < hunks.len() && hunks[i].block is Some ==> hunks[i].block != hunks[j].block
}

/// A hunk more keeps the blocks distinct if its block belongs to none of the hunks.
pub proof fn lemma_blocks_distinct_push(hunks: Seq<ExpandedHunk>, hunk: ExpandedHunk)
    ensures
        blocks_distinct(hunks.push(hunk)) <==> blocks_distinct(hunks) && (hunk.block is Some
            ==> !blocks_of(hunks).contains(hunk.block->0)),
{
    let more = hunks.push(hunk);
    if blocks_distinct(more) {
        assert forall|i: int, j: int|
            #![trigger hunks[i], hunks[j]]
            0 <= i < j < hunks.len() && hunks[i].block is Some implies hunks[i].block
            != hunks[j].block by {
            assert(more[i] == hunks[i] && more[j] == hunks[j]);
        }
        if hunk.block is Some && blocks_of(hunks).contains(hunk.block->0) {
            let i = choose|i: int|
                0 <= i < hunks.len() && (#[trigger] hunks[i]).block == hunk.block;
            assert(more[i] == hunks[i] && more[hunks.len() as int] == hunk);
        }
    }
    if blocks_distinct(hunks) && (hunk.block is Some ==> !blocks_of(hunks).contains(
        hunk.block->0,
    )) {
        assert forall|i: int, j: int|
            #![trigger more[i], more[j]]
            0 <= i < j < more.len() && more[i].block is Some implies more[i].block
            != more[j].block by {
            assert(more[i] == hunks[i]);
            if j < hunks.len() {
                assert(more[j] == hunks[j]);
            } else if hunks[i].block == hunk.block {
                assert(blocks_of(hunks).contains(hunk.block->0));
            }
        }
    }
}

/// Among hunks with distinct blocks, the block of one belongs to none of those before.
pub proof fn lemma_blocks_distinct_take(hunks: Seq<ExpandedHunk>, count: nat)
    requires
        blocks_distinct(hunks),
        0 < count <= hunks.len(),
    ensures
        hunks[count - 1].block is Some ==> !blocks_of(hunks.take(count - 1)).contains(
            hunks[count - 1].block->0,
        ),
{
    let before = hunks.take(count - 1);
    let hunk = hunks[count - 1];
    if hunk.block is Some && blocks_of(before).contains(hunk.block->0) {
        let i = choose|i: int| 0 <= i < before.len() && (#[trigger] before[i]).block == hunk.block;
        assert(before[i] == hunks[i]);
    }
}

/// The text that each of `hunks` covers.
pub open spec fn ranges_of(hunks: Seq<ExpandedHunk>) -> Seq<Range<Anchor>> {
    Seq::new(hunks.len(), |i: int| hunks[i].hunk_range)
}

} // verus!
