//! What holds of synchronizing expanded hunks with a diff.
use std::ops::Range;
use vstd::prelude::*;

use crate::anchor::{Anchor, BufferId, DisplayRow};
use crate::diff_base::{current_diff_base, BufferState};
use crate::expanded::{
    blocks_distinct, blocks_of, hunks_well_formed, lemma_blocks_distinct_push,
    lemma_blocks_distinct_take, lemma_blocks_of_push, ranges_of, DiffBaseBuffer, ExpandedHunks,
    ModelId,
};
use crate::hunk::{ExpandedHunk, HoveredHunk, SnapshotHunk};
use crate::order::{
    chosen, is_part_of, lemma_chosen_all, lemma_chosen_none, lemma_part_push, lemma_part_sorted,
    picks, sorted_by,
};
use crate::sync::{
    decides, deciding_hunk, hunks_in_buffer, is_unchanged, starts_in, sync_diff_base, sync_outcome,
    sync_verdict, synced, SyncRequest, SyncVerdict,
};
use crate::toggle::{shown_rows, visible_hunk};

verus! {

/// A synchronization leaves the hunks of other buffers as they are, in their order.
pub proof fn sync_leaves_other_buffers(
    hunks: Seq<ExpandedHunk>,
    rows: Seq<Range<DisplayRow>>,
    diff: Seq<SnapshotHunk>,
    buffer_id: BufferId,
    diff_base_unchanged: bool,
)
    ensures
        synced(hunks, rows, diff, buffer_id, diff_base_unchanged).kept.filter(
            |hunk: ExpandedHunk| !starts_in(hunk, buffer_id),
        ) == hunks.filter(|hunk: ExpandedHunk| !starts_in(hunk, buffer_id)),
        forall|i: int|
            0 <= i < synced(hunks, rows, diff, buffer_id, diff_base_unchanged).released.len()
                ==> starts_in(
                #[trigger] synced(
                    hunks,
                    rows,
                    diff,
                    buffer_id,
                    diff_base_unchanged,
                ).released[i],
                buffer_id,
            ),
{
    lemma_others(
        hunks,
        rows,
        hunks_in_buffer(diff, buffer_id),
        buffer_id,
        diff_base_unchanged,
        hunks.len(),
    );
    assert(hunks.take(hunks.len() as int) =~= hunks);
}

proof fn lemma_others(
    hunks: Seq<ExpandedHunk>,
    rows: Seq<Range<DisplayRow>>,
    diff: Seq<SnapshotHunk>,
    buffer_id: BufferId,
    diff_base_unchanged: bool,
    count: nat,
)
    requires
        count <= hunks.len(),
    ensures
        ({
            let after = sync_outcome(hunks, rows, diff, buffer_id, diff_base_unchanged, count);
            let other = |hunk: ExpandedHunk| !starts_in(hunk, buffer_id);
            &&& after.kept.filter(other) == hunks.take(count as int).filter(other)
            &&& forall|i: int|
                0 <= i < after.released.len() ==> starts_in(
                    #[trigger] after.released[i],
                    buffer_id,
                )
        }),
    decreases count,
{
    reveal(Seq::filter);
    let other = |hunk: ExpandedHunk| !starts_in(hunk, buffer_id);
    if count > 0 {
        let last = (count - 1) as nat;
        lemma_others(hunks, rows, diff, buffer_id, diff_base_unchanged, last);
        let before = sync_outcome(hunks, rows, diff, buffer_id, diff_base_unchanged, last);
        let hunk = hunks[count - 1];
        let folded = ExpandedHunk { folded: true, block: None, ..hunk };
        assert(hunks.take(count as int).drop_last() =~= hunks.take(count - 1));
        assert(hunks.take(count as int).last() == hunk);
        assert(before.kept.push(hunk).drop_last() =~= before.kept);
        assert(before.kept.push(folded).drop_last() =~= before.kept);
        assert(before.kept.push(hunk).last() == hunk);
        assert(before.kept.push(folded).last() == folded);
        assert(starts_in(folded, buffer_id) == starts_in(hunk, buffer_id));
    } else {
        assert(hunks.take(0) =~= Seq::empty());
    }
}

/// When the diff base has become another one, all the expanded hunks of the buffer leave,
/// and none is expanded anew.
pub proof fn sync_with_another_diff_base_drops_all(
    hunks: Seq<ExpandedHunk>,
    rows: Seq<Range<DisplayRow>>,
    diff: Seq<SnapshotHunk>,
    buffer_id: BufferId,
)
    ensures
        synced(hunks, rows, diff, buffer_id, false).kept == hunks.filter(
            |hunk: ExpandedHunk| !starts_in(hunk, buffer_id),
        ),
        synced(hunks, rows, diff, buffer_id, false).released == hunks.filter(
            |hunk: ExpandedHunk| starts_in(hunk, buffer_id),
        ),
        synced(hunks, rows, diff, buffer_id, false).reexpand == Seq::<HoveredHunk>::empty(),
{
    lemma_drops_all(hunks, rows, hunks_in_buffer(diff, buffer_id), buffer_id, hunks.len());
    assert(hunks.take(hunks.len() as int) =~= hunks);
}

proof fn lemma_drops_all(
    hunks: Seq<ExpandedHunk>,
    rows: Seq<Range<DisplayRow>>,
    diff: Seq<SnapshotHunk>,
    buffer_id: BufferId,
    count: nat,
)
    requires
        count <= hunks.len(),
    ensures
        ({
            let after = sync_outcome(hunks, rows, diff, buffer_id, false, count);
            &&& after.kept == hunks.take(count as int).filter(
                |hunk: ExpandedHunk| !starts_in(hunk, buffer_id),
            )
            &&& after.released == hunks.take(count as int).filter(
                |hunk: ExpandedHunk| starts_in(hunk, buffer_id),
            )
            &&& after.reexpand == Seq::<HoveredHunk>::empty()
        }),
    decreases count,
{
    reveal(Seq::filter);
    if count > 0 {
        lemma_drops_all(hunks, rows, diff, buffer_id, (count - 1) as nat);
        assert(hunks.take(count as int).drop_last() =~= hunks.take(count - 1));
        assert(hunks.take(count as int).last() == hunks[count - 1]);
    } else {
        assert(hunks.take(0) =~= Seq::empty());
    }
}

/// A synchronization leaves the texts that the hunks cover in their order: it takes some
/// away and adds none.
pub proof fn sync_keeps_a_part(
    hunks: Seq<ExpandedHunk>,
    rows: Seq<Range<DisplayRow>>,
    diff: Seq<SnapshotHunk>,
    buffer_id: BufferId,
    diff_base_unchanged: bool,
)
    ensures
        is_part_of(
            ranges_of(synced(hunks, rows, diff, buffer_id, diff_base_unchanged).kept),
            ranges_of(hunks),
        ),
{
    lemma_ranges_part(
        hunks,
        rows,
        hunks_in_buffer(diff, buffer_id),
        buffer_id,
        diff_base_unchanged,
        hunks.len(),
    );
    assert(hunks.take(hunks.len() as int) =~= hunks);
}

proof fn lemma_ranges_part(
    hunks: Seq<ExpandedHunk>,
    rows: Seq<Range<DisplayRow>>,
    diff: Seq<SnapshotHunk>,
    buffer_id: BufferId,
    diff_base_unchanged: bool,
    count: nat,
)
    requires
        count <= hunks.len(),
    ensures
        is_part_of(
            ranges_of(sync_outcome(hunks, rows, diff, buffer_id, diff_base_unchanged, count).kept),
            ranges_of(hunks.take(count as int)),
        ),
    decreases count,
{
    let after = sync_outcome(hunks, rows, diff, buffer_id, diff_base_unchanged, count);
    if count > 0 {
        let last = (count - 1) as nat;
        lemma_ranges_part(hunks, rows, diff, buffer_id, diff_base_unchanged, last);
        let before = sync_outcome(hunks, rows, diff, buffer_id, diff_base_unchanged, last);
        let range = hunks[count - 1].hunk_range;
        lemma_part_push(ranges_of(before.kept), ranges_of(hunks.take(count - 1)), range);
        assert(ranges_of(hunks.take(count as int)) =~= ranges_of(hunks.take(count - 1)).push(
            range,
        ));
        assert(ranges_of(after.kept) =~= ranges_of(before.kept) || ranges_of(after.kept)
            =~= ranges_of(before.kept).push(range));
    } else {
        assert(picks(
            ranges_of(after.kept),
            ranges_of(hunks.take(0)),
            Seq::<int>::empty(),
        ));
    }
}

/// A synchronization keeps the order of the expanded hunks: if each started after the one
/// before, each still does.
pub proof fn sync_keeps_order(
    hunks: Seq<ExpandedHunk>,
    rows: Seq<Range<DisplayRow>>,
    diff: Seq<SnapshotHunk>,
    buffer_id: BufferId,
    diff_base_unchanged: bool,
    position: spec_fn(Anchor) -> int,
)
    requires
        sorted_by(hunks, position),
    ensures
        sorted_by(synced(hunks, rows, diff, buffer_id, diff_base_unchanged).kept, position),
{
    sync_keeps_a_part(hunks, rows, diff, buffer_id, diff_base_unchanged);
    lemma_part_sorted(
        ranges_of(synced(hunks, rows, diff, buffer_id, diff_base_unchanged).kept),
        ranges_of(hunks),
        position,
    );
}

/// A synchronization keeps the expanded hunks well-formed: a hunk that disappears in a fold
/// gives up its block.
pub proof fn sync_keeps_well_formed(
    hunks: Seq<ExpandedHunk>,
    rows: Seq<Range<DisplayRow>>,
    diff: Seq<SnapshotHunk>,
    buffer_id: BufferId,
    diff_base_unchanged: bool,
)
    requires
        hunks_well_formed(hunks),
    ensures
        hunks_well_formed(synced(hunks, rows, diff, buffer_id, diff_base_unchanged).kept),
{
    lemma_well_formed(
        hunks,
        rows,
        hunks_in_buffer(diff, buffer_id),
        buffer_id,
        diff_base_unchanged,
        hunks.len(),
    );
}

proof fn lemma_well_formed(
    hunks: Seq<ExpandedHunk>,
    rows: Seq<Range<DisplayRow>>,
    diff: Seq<SnapshotHunk>,
    buffer_id: BufferId,
    diff_base_unchanged: bool,
    count: nat,
)
    requires
        count <= hunks.len(),
        hunks_well_formed(hunks),
    ensures
        hunks_well_formed(
            sync_outcome(hunks, rows, diff, buffer_id, diff_base_unchanged, count).kept,
        ),
    decreases count,
{
    if count > 0 {
        let last = (count - 1) as nat;
        lemma_well_formed(hunks, rows, diff, buffer_id, diff_base_unchanged, last);
        let before = sync_outcome(hunks, rows, diff, buffer_id, diff_base_unchanged, last);
        let hunk = hunks[count - 1];
        let folded = ExpandedHunk { folded: true, block: None, ..hunk };
        let after = sync_outcome(hunks, rows, diff, buffer_id, diff_base_unchanged, count);
        assert(after.kept == before.kept || after.kept == before.kept.push(hunk) || after.kept
            == before.kept.push(folded));
    }
}

/// A synchronization loses no block: each block of the expanded hunks still belongs to one
/// of them or is removed.
pub proof fn sync_accounts_for_blocks(
    hunks: Seq<ExpandedHunk>,
    rows: Seq<Range<DisplayRow>>,
    diff: Seq<SnapshotHunk>,
    buffer_id: BufferId,
    diff_base_unchanged: bool,
)
    ensures
        blocks_of(hunks) == blocks_of(
            synced(hunks, rows, diff, buffer_id, diff_base_unchanged).kept,
        ).union(blocks_of(synced(hunks, rows, diff, buffer_id, diff_base_unchanged).released)),
{
    lemma_blocks(
        hunks,
        rows,
        hunks_in_buffer(diff, buffer_id),
        buffer_id,
        diff_base_unchanged,
        hunks.len(),
    );
    assert(hunks.take(hunks.len() as int) =~= hunks);
}

proof fn lemma_blocks(
    hunks: Seq<ExpandedHunk>,
    rows: Seq<Range<DisplayRow>>,
    diff: Seq<SnapshotHunk>,
    buffer_id: BufferId,
    diff_base_unchanged: bool,
    count: nat,
)
    requires
        count <= hunks.len(),
    ensures
        ({
            let after = sync_outcome(hunks, rows, diff, buffer_id, diff_base_unchanged, count);
            blocks_of(hunks.take(count as int)) == blocks_of(after.kept).union(
                blocks_of(after.released),
            )
        }),
    decreases count,
{
    let after = sync_outcome(hunks, rows, diff, buffer_id, diff_base_unchanged, count);
    if count > 0 {
        let last = (count - 1) as nat;
        lemma_blocks(hunks, rows, diff, buffer_id, diff_base_unchanged, last);
        let before = sync_outcome(hunks, rows, diff, buffer_id, diff_base_unchanged, last);
        let hunk = hunks[count - 1];
        let folded = ExpandedHunk { folded: true, block: None, ..hunk };
        assert(hunks.take(count as int) =~= hunks.take(count - 1).push(hunk));
        lemma_blocks_of_push(hunks.take(count - 1), hunk);
        lemma_blocks_of_push(before.kept, hunk);
        lemma_blocks_of_push(before.kept, folded);
        lemma_blocks_of_push(before.released, hunk);
    } else {
        assert(hunks.take(0) =~= Seq::empty());
    }
    assert(blocks_of(hunks.take(count as int)) =~= blocks_of(after.kept).union(
        blocks_of(after.released),
    ));
}

/// A synchronization leaves no block without its hunk: if each block belongs to one expanded
/// hunk only, then those that are not removed are exactly those of the hunks that stay, and
/// each still belongs to one of them only.
pub proof fn sync_leaves_no_stray_block(
    hunks: Seq<ExpandedHunk>,
    rows: Seq<Range<DisplayRow>>,
    diff: Seq<SnapshotHunk>,
    buffer_id: BufferId,
    diff_base_unchanged: bool,
)
    requires
        blocks_distinct(hunks),
    ensures
        ({
            let outcome = synced(hunks, rows, diff, buffer_id, diff_base_unchanged);
            &&& blocks_of(outcome.kept) == blocks_of(hunks).difference(blocks_of(outcome.released))
            &&& blocks_distinct(outcome.kept)
        }),
{
    lemma_no_stray_block(
        hunks,
        rows,
        hunks_in_buffer(diff, buffer_id),
        buffer_id,
        diff_base_unchanged,
        hunks.len(),
    );
    sync_accounts_for_blocks(hunks, rows, diff, buffer_id, diff_base_unchanged);
    let outcome = synced(hunks, rows, diff, buffer_id, diff_base_unchanged);
    assert(blocks_of(outcome.kept) =~= blocks_of(hunks).difference(blocks_of(outcome.released)));
}

proof fn lemma_no_stray_block(
    hunks: Seq<ExpandedHunk>,
    rows: Seq<Range<DisplayRow>>,
    diff: Seq<SnapshotHunk>,
    buffer_id: BufferId,
    diff_base_unchanged: bool,
    count: nat,
)
    requires
        blocks_distinct(hunks),
        count <= hunks.len(),
    ensures
        ({
            let after = sync_outcome(hunks, rows, diff, buffer_id, diff_base_unchanged, count);
            &&& blocks_of(after.kept).disjoint(blocks_of(after.released))
            &&& blocks_distinct(after.kept)
        }),
    decreases count,
{
    if count > 0 {
        let last = (count - 1) as nat;
        lemma_no_stray_block(hunks, rows, diff, buffer_id, diff_base_unchanged, last);
        lemma_blocks(hunks, rows, diff, buffer_id, diff_base_unchanged, last);
        let before = sync_outcome(hunks, rows, diff, buffer_id, diff_base_unchanged, last);
        let hunk = hunks[count - 1];
        let folded = ExpandedHunk { folded: true, block: None, ..hunk };
        lemma_blocks_distinct_take(hunks, count);
        lemma_blocks_of_push(before.kept, hunk);
        lemma_blocks_of_push(before.kept, folded);
        lemma_blocks_of_push(before.released, hunk);
        lemma_blocks_distinct_push(before.kept, hunk);
        lemma_blocks_distinct_push(before.kept, folded);
    }
}

/// A synchronization never clears the highlight of a hunk that stays visible, if the expanded
/// hunks start at different places.
pub proof fn sync_clears_no_other_highlight(
    hunks: Seq<ExpandedHunk>,
    rows: Seq<Range<DisplayRow>>,
    diff: Seq<SnapshotHunk>,
    buffer_id: BufferId,
    diff_base_unchanged: bool,
    position: spec_fn(Anchor) -> int,
)
    requires
        sorted_by(hunks, position),
    ensures
        ({
            let outcome = synced(hunks, rows, diff, buffer_id, diff_base_unchanged);
            forall|i: int, j: int|
                0 <= i < outcome.kept.len() && 0 <= j < outcome.released.len() && (
                #[trigger] outcome.kept[i]).hunk_range == (
                #[trigger] outcome.released[j]).hunk_range ==> outcome.kept[i].folded
        }),
{
    lemma_clears_no_other(
        hunks,
        rows,
        hunks_in_buffer(diff, buffer_id),
        buffer_id,
        diff_base_unchanged,
        position,
        hunks.len(),
    );
}

/// Whether a range is that of one of the first `count` of `hunks`.
spec fn range_among(range: Range<Anchor>, hunks: Seq<ExpandedHunk>, count: int) -> bool {
    exists|i: int| 0 <= i < count && (#[trigger] hunks[i]).hunk_range == range
}

proof fn lemma_clears_no_other(
    hunks: Seq<ExpandedHunk>,
    rows: Seq<Range<DisplayRow>>,
    diff: Seq<SnapshotHunk>,
    buffer_id: BufferId,
    diff_base_unchanged: bool,
    position: spec_fn(Anchor) -> int,
    count: nat,
)
    requires
        sorted_by(hunks, position),
        count <= hunks.len(),
    ensures
        ({
            let after = sync_outcome(hunks, rows, diff, buffer_id, diff_base_unchanged, count);
            &&& forall|i: int|
                0 <= i < after.kept.len() ==> range_among(
                    (#[trigger] after.kept[i]).hunk_range,
                    hunks,
                    count as int,
                )
            &&& forall|i: int|
                0 <= i < after.released.len() ==> range_among(
                    (#[trigger] after.released[i]).hunk_range,
                    hunks,
                    count as int,
                )
            &&& forall|i: int, j: int|
                0 <= i < after.kept.len() && 0 <= j < after.released.len() && (
                #[trigger] after.kept[i]).hunk_range == (#[trigger] after.released[j]).hunk_range
                    ==> after.kept[i].folded
        }),
    decreases count,
{
    if count > 0 {
        let last = (count - 1) as nat;
        lemma_clears_no_other(
            hunks,
            rows,
            diff,
            buffer_id,
            diff_base_unchanged,
            position,
            last,
        );
        let before = sync_outcome(hunks, rows, diff, buffer_id, diff_base_unchanged, last);
        let after = sync_outcome(hunks, rows, diff, buffer_id, diff_base_unchanged, count);
        let hunk = hunks[count - 1];
        let folded = ExpandedHunk { folded: true, block: None, ..hunk };
        let ranges = ranges_of(hunks);
        assert forall|range: Range<Anchor>| range_among(range, hunks, last as int) implies
            range_among(range, hunks, count as int) && range != hunk.hunk_range by {
            let i = choose|i: int| 0 <= i < last && (#[trigger] hunks[i]).hunk_range == range;
            assert(ranges[i] == range && ranges[count - 1] == hunk.hunk_range);
            assert(hunks[i].hunk_range == range);
        }
        assert(range_among(hunk.hunk_range, hunks, count as int));
        assert({
            ||| after.kept == before.kept.push(hunk) && after.released == before.released
            ||| after.kept == before.kept && after.released == before.released.push(hunk)
            ||| after.kept == before.kept.push(folded) && after.released == before.released.push(
                hunk,
            )
        });
    }
}

/// Whether each visible hunk of a diff lies below the one before, and all are visible.
pub open spec fn diff_in_order(diff: Seq<SnapshotHunk>) -> bool {
    &&& forall|k: int|
        #![trigger diff[k]]
        0 <= k < diff.len() ==> shown_rows(diff[k]) is Some && shown_rows(diff[k])->0.start.0
            <= shown_rows(diff[k])->0.end.0
    &&& forall|k: int, l: int|
        #![trigger diff[k], diff[l]]
        0 <= k < l < diff.len() ==> shown_rows(diff[k])->0.end.0 < shown_rows(diff[l])->0.start.0
}

/// Whether the hunks of a buffer that are expanded are shown one below the other.
pub open spec fn buffer_rows_apart(
    hunks: Seq<ExpandedHunk>,
    rows: Seq<Range<DisplayRow>>,
    buffer_id: BufferId,
) -> bool {
    &&& rows.len() == hunks.len()
    &&& forall|i: int, j: int|
        #![trigger rows[i], rows[j]]
        0 <= i < j < hunks.len() && starts_in(hunks[i], buffer_id) && starts_in(hunks[j], buffer_id)
            ==> rows[i].end.0 < rows[j].start.0
}

/// Whether an expanded hunk in `rows` is, unchanged, some hunk of the diff.
pub open spec fn still_in_diff(
    hunk: ExpandedHunk,
    rows: Range<DisplayRow>,
    diff: Seq<SnapshotHunk>,
) -> bool {
    exists|k: int| 0 <= k < diff.len() && is_unchanged(hunk, rows, #[trigger] diff[k])
}

/// Whether some hunk of a diff, which is visible, is shown in `rows` or touches them.
pub open spec fn touches_diff(rows: Range<DisplayRow>, diff: Seq<SnapshotHunk>) -> bool {
    exists|k: int| 0 <= k < diff.len() && touches(rows, #[trigger] diff[k])
}

/// Whether a hunk is shown in `rows` or touches them.
pub open spec fn touches(rows: Range<DisplayRow>, hunk: SnapshotHunk) -> bool {
    shown_rows(hunk) matches Some(shown) && rows.start.0 <= shown.end.0 && shown.start.0
        <= rows.end.0
}

/// For each expanded hunk, the first hunk of the diff that does not lie above it.
pub open spec fn first_candidates(
    hunks: Seq<ExpandedHunk>,
    rows: Seq<Range<DisplayRow>>,
    diff: Seq<SnapshotHunk>,
) -> Seq<HoveredHunk> {
    Seq::new(
        hunks.len(),
        |i: int| visible_hunk(diff[deciding_hunk(hunks[i], rows[i], diff, 0)])->0,
    )
}

/// A synchronization does what the diff says. If all the hunks of the diff are visible, and
/// both these and the expanded hunks of the buffer are at least a row apart, then what
/// becomes of an expanded hunk does not depend on the others. It stays if it is, unchanged, a
/// hunk of the diff, and leaves if it is not. The first hunk of the diff that touches its
/// rows, if there is one, is expanded in its stead.
pub proof fn sync_is_exact(
    hunks: Seq<ExpandedHunk>,
    rows: Seq<Range<DisplayRow>>,
    diff: Seq<SnapshotHunk>,
    buffer_id: BufferId,
)
    requires
        buffer_rows_apart(hunks, rows, buffer_id),
        diff_in_order(hunks_in_buffer(diff, buffer_id)),
        forall|i: int|
            #![trigger rows[i]]
            0 <= i < hunks.len() && starts_in(hunks[i], buffer_id) ==> rows[i].start.0
                <= rows[i].end.0,
    ensures
        ({
            let buffer_diff = hunks_in_buffer(diff, buffer_id);
            let outcome = synced(hunks, rows, diff, buffer_id, true);
            &&& outcome.kept == chosen(
                hunks,
                |i: int|
                    !starts_in(hunks[i], buffer_id) || still_in_diff(
                        hunks[i],
                        rows[i],
                        buffer_diff,
                    ),
                hunks.len(),
            )
            &&& outcome.released == chosen(
                hunks,
                |i: int|
                    starts_in(hunks[i], buffer_id) && !still_in_diff(
                        hunks[i],
                        rows[i],
                        buffer_diff,
                    ),
                hunks.len(),
            )
            &&& outcome.reexpand == chosen(
                first_candidates(hunks, rows, buffer_diff),
                |i: int|
                    starts_in(hunks[i], buffer_id) && !still_in_diff(
                        hunks[i],
                        rows[i],
                        buffer_diff,
                    ) && touches_diff(rows[i], buffer_diff),
                hunks.len(),
            )
        }),
{
    lemma_sync_exact(hunks, rows, hunks_in_buffer(diff, buffer_id), buffer_id, hunks.len());
}

/// What does not decide can be left out of the search for what does.
proof fn lemma_decided_from_start(
    expanded: ExpandedHunk,
    rows: Range<DisplayRow>,
    diff: Seq<SnapshotHunk>,
    start: int,
    from: int,
)
    requires
        0 <= start <= from <= diff.len(),
        forall|k: int| start <= k < from ==> !decides(expanded, rows, #[trigger] diff[k]),
    ensures
        deciding_hunk(expanded, rows, diff, start) == deciding_hunk(expanded, rows, diff, from),
    decreases from - start,
{
    if start < from {
        assert(!decides(expanded, rows, diff[start]));
        lemma_decided_from_start(expanded, rows, diff, start + 1, from);
    }
}

/// Nothing before the hunk that decides does.
pub proof fn lemma_none_before(
    expanded: ExpandedHunk,
    rows: Range<DisplayRow>,
    diff: Seq<SnapshotHunk>,
    from: int,
)
    requires
        0 <= from <= diff.len(),
    ensures
        forall|k: int|
            from <= k < deciding_hunk(expanded, rows, diff, from) ==> !decides(
                expanded,
                rows,
                #[trigger] diff[k],
            ),
    decreases diff.len() - from,
{
    if !(from >= diff.len() || decides(expanded, rows, diff[from])) {
        lemma_none_before(expanded, rows, diff, from + 1);
    }
}

proof fn lemma_sync_exact(
    hunks: Seq<ExpandedHunk>,
    rows: Seq<Range<DisplayRow>>,
    diff: Seq<SnapshotHunk>,
    buffer_id: BufferId,
    count: nat,
)
    requires
        count <= hunks.len(),
        buffer_rows_apart(hunks, rows, buffer_id),
        diff_in_order(diff),
        forall|i: int|
            #![trigger rows[i]]
            0 <= i < hunks.len() && starts_in(hunks[i], buffer_id) ==> rows[i].start.0
                <= rows[i].end.0,
    ensures
        ({
            let after = sync_outcome(hunks, rows, diff, buffer_id, true, count);
            &&& after.kept == chosen(
                hunks,
                |i: int|
                    !starts_in(hunks[i], buffer_id) || still_in_diff(hunks[i], rows[i], diff),
                count,
            )
            &&& after.released == chosen(
                hunks,
                |i: int|
                    starts_in(hunks[i], buffer_id) && !still_in_diff(hunks[i], rows[i], diff),
                count,
            )
            &&& after.reexpand == chosen(
                first_candidates(hunks, rows, diff),
                |i: int|
                    starts_in(hunks[i], buffer_id) && !still_in_diff(hunks[i], rows[i], diff)
                        && touches_diff(rows[i], diff),
                count,
            )
            &&& 0 <= after.next <= diff.len()
            // What has been dealt with lies within the hunks gone through.
            &&& forall|k: int|
                #![trigger diff[k]]
                0 <= k < after.next ==> exists|i: int|
                    0 <= i < count && starts_in(hunks[i], buffer_id) && shown_rows(
                        diff[k],
                    )->0.end.0 <= #[trigger] rows[i].end.0
        }),
    decreases count,
{
    if count > 0 {
        let last = count - 1;
        lemma_sync_exact(hunks, rows, diff, buffer_id, last as nat);
        let before = sync_outcome(hunks, rows, diff, buffer_id, true, last as nat);
        let after = sync_outcome(hunks, rows, diff, buffer_id, true, count);
        let hunk = hunks[last];
        let row = rows[last];
        if starts_in(hunk, buffer_id) {
            assert forall|k: int| 0 <= k < before.next implies !decides(
                hunk,
                row,
                #[trigger] diff[k],
            ) by {
                let i = choose|i: int|
                    0 <= i < last && starts_in(hunks[i], buffer_id) && shown_rows(
                        diff[k],
                    )->0.end.0 <= #[trigger] rows[i].end.0;
                assert(rows[i].end.0 < rows[last].start.0);
            }
            let at = deciding_hunk(hunk, row, diff, 0);
            lemma_decided_from_start(hunk, row, diff, 0, before.next);
            lemma_deciding_hunk(hunk, row, diff, before.next);
            lemma_none_before(hunk, row, diff, 0);
            if still_in_diff(hunk, row, diff) {
                let k = choose|k: int|
                    0 <= k < diff.len() && is_unchanged(hunk, row, #[trigger] diff[k]);
                assert(decides(hunk, row, diff[k]));
                if at < k {
                    assert(shown_rows(diff[at])->0.end.0 < shown_rows(diff[k])->0.start.0);
                }
                assert(at == k);
            } else if at < diff.len() {
                assert(!is_unchanged(hunk, row, diff[at]));
                if row.end.0 < shown_rows(diff[at])->0.start.0 {
                    assert forall|k: int| 0 <= k < diff.len() implies !touches(
                        row,
                        #[trigger] diff[k],
                    ) by {
                        if k < at {
                            assert(!decides(hunk, row, diff[k]));
                        } else if k > at {
                            assert(shown_rows(diff[at])->0.end.0 < shown_rows(diff[k])->0.start.0);
                        }
                    }
                } else {
                    assert(touches(row, diff[at]));
                }
            } else {
                assert forall|k: int| 0 <= k < diff.len() implies !touches(
                    row,
                    #[trigger] diff[k],
                ) by {
                    assert(!decides(hunk, row, diff[k]));
                }
            }
            assert(first_candidates(hunks, rows, diff)[last] == visible_hunk(diff[at])->0);
            assert forall|k: int| #![trigger diff[k]] 0 <= k < after.next implies exists|i: int|
                0 <= i < count && starts_in(hunks[i], buffer_id) && shown_rows(diff[k])->0.end.0
                    <= #[trigger] rows[i].end.0 by {
                if k >= before.next {
                    if k < at {
                        assert(!decides(hunk, row, diff[k]));
                    }
                    assert(shown_rows(diff[k])->0.end.0 <= rows[last].end.0);
                }
            }
        }
    }
}

/// A synchronization with a diff that has not changed changes nothing: if every expanded
/// hunk of the buffer is, unchanged, some hunk of the diff, all the expanded hunks stay, none
/// leaves the screen, and none is expanded anew. Hunks are shown in the order of the text,
/// at least a row apart.
pub proof fn sync_with_unchanged_diff_changes_nothing(
    hunks: Seq<ExpandedHunk>,
    rows: Seq<Range<DisplayRow>>,
    diff: Seq<SnapshotHunk>,
    buffer_id: BufferId,
)
    requires
        buffer_rows_apart(hunks, rows, buffer_id),
        diff_in_order(hunks_in_buffer(diff, buffer_id)),
        forall|i: int|
            #![trigger hunks[i]]
            0 <= i < hunks.len() && starts_in(hunks[i], buffer_id) ==> still_in_diff(
                hunks[i],
                rows[i],
                hunks_in_buffer(diff, buffer_id),
            ),
    ensures
        synced(hunks, rows, diff, buffer_id, true).kept == hunks,
        synced(hunks, rows, diff, buffer_id, true).released == Seq::<ExpandedHunk>::empty(),
        synced(hunks, rows, diff, buffer_id, true).reexpand == Seq::<HoveredHunk>::empty(),
{
    let buffer_diff = hunks_in_buffer(diff, buffer_id);
    assert forall|i: int|
        #![trigger rows[i]]
        0 <= i < hunks.len() && starts_in(hunks[i], buffer_id) implies rows[i].start.0
        <= rows[i].end.0 by {
        assert(still_in_diff(hunks[i], rows[i], buffer_diff));
        let k = choose|k: int|
            0 <= k < buffer_diff.len() && is_unchanged(
                hunks[i],
                rows[i],
                #[trigger] buffer_diff[k],
            );
        assert(shown_rows(buffer_diff[k]) == Some(rows[i]));
    }
    sync_is_exact(hunks, rows, diff, buffer_id);
    let stays = |i: int|
        !starts_in(hunks[i], buffer_id) || still_in_diff(hunks[i], rows[i], buffer_diff);
    let leaves = |i: int|
        starts_in(hunks[i], buffer_id) && !still_in_diff(hunks[i], rows[i], buffer_diff);
    let replaced = |i: int|
        starts_in(hunks[i], buffer_id) && !still_in_diff(hunks[i], rows[i], buffer_diff)
            && touches_diff(rows[i], buffer_diff);
    lemma_chosen_all(hunks, stays, hunks.len());
    lemma_chosen_none(hunks, leaves, hunks.len());
    lemma_chosen_none(first_candidates(hunks, rows, buffer_diff), replaced, hunks.len());
    assert(hunks.take(hunks.len() as int) =~= hunks);
}

/// What stays of the hunks of the buffer was visible before: a hunk that had disappeared in
/// a fold leaves with the next synchronization, whether it is expanded anew or not.
pub proof fn sync_keeps_no_folded_hunk(
    hunks: Seq<ExpandedHunk>,
    rows: Seq<Range<DisplayRow>>,
    diff: Seq<SnapshotHunk>,
    buffer_id: BufferId,
    diff_base_unchanged: bool,
)
    requires
        rows.len() == hunks.len(),
    ensures
        forall|i: int|
            #![trigger hunks[i]]
            0 <= i < hunks.len() && starts_in(hunks[i], buffer_id) && hunks[i].folded ==> synced(
                hunks,
                rows,
                diff,
                buffer_id,
                diff_base_unchanged,
            ).released.contains(hunks[i]),
        forall|i: int|
            0 <= i < synced(hunks, rows, diff, buffer_id, diff_base_unchanged).kept.len()
                ==> kept_from_visible(
                hunks,
                #[trigger] synced(hunks, rows, diff, buffer_id, diff_base_unchanged).kept[i],
                buffer_id,
            ),
{
    lemma_folded_leave(
        hunks,
        rows,
        hunks_in_buffer(diff, buffer_id),
        buffer_id,
        diff_base_unchanged,
        hunks.len(),
    );
}

/// Whether an expanded hunk is one of another buffer, as it was, or one that was visible, as
/// it was or as it disappears in a fold.
pub open spec fn kept_from_visible(
    hunks: Seq<ExpandedHunk>,
    kept: ExpandedHunk,
    buffer_id: BufferId,
) -> bool {
    exists|i: int|
        {
            &&& 0 <= i < hunks.len()
            &&& starts_in(#[trigger] hunks[i], buffer_id) ==> !hunks[i].folded
            &&& kept == hunks[i] || (starts_in(hunks[i], buffer_id) && kept == ExpandedHunk {
                folded: true,
                block: None,
                ..hunks[i]
            })
        }
}

/// Where the search for a deciding hunk ends, a hunk decides, or there is none left.
pub proof fn lemma_deciding_hunk(
    expanded: ExpandedHunk,
    rows: Range<DisplayRow>,
    diff: Seq<SnapshotHunk>,
    from: int,
)
    requires
        0 <= from <= diff.len(),
    ensures
        from <= deciding_hunk(expanded, rows, diff, from) <= diff.len(),
        deciding_hunk(expanded, rows, diff, from) < diff.len() ==> decides(
            expanded,
            rows,
            diff[deciding_hunk(expanded, rows, diff, from)],
        ),
    decreases diff.len() - from,
{
    if !(from >= diff.len() || decides(expanded, rows, diff[from])) {
        lemma_deciding_hunk(expanded, rows, diff, from + 1);
    }
}

proof fn lemma_folded_leave(
    hunks: Seq<ExpandedHunk>,
    rows: Seq<Range<DisplayRow>>,
    diff: Seq<SnapshotHunk>,
    buffer_id: BufferId,
    diff_base_unchanged: bool,
    count: nat,
)
    requires
        count <= hunks.len(),
    ensures
        ({
            let after = sync_outcome(hunks, rows, diff, buffer_id, diff_base_unchanged, count);
            &&& 0 <= after.next <= diff.len()
            &&& forall|i: int|
                #![trigger hunks[i]]
                0 <= i < count && starts_in(hunks[i], buffer_id) && hunks[i].folded
                    ==> after.released.contains(hunks[i])
            &&& forall|i: int|
                0 <= i < after.kept.len() ==> kept_from_visible(
                    hunks,
                    #[trigger] after.kept[i],
                    buffer_id,
                )
        }),
    decreases count,
{
    if count > 0 {
        let last = count - 1;
        lemma_folded_leave(hunks, rows, diff, buffer_id, diff_base_unchanged, last as nat);
        let before = sync_outcome(hunks, rows, diff, buffer_id, diff_base_unchanged, last as nat);
        let after = sync_outcome(hunks, rows, diff, buffer_id, diff_base_unchanged, count);
        let hunk = hunks[last];
        let folded = ExpandedHunk { folded: true, block: None, ..hunk };
        lemma_deciding_hunk(hunk, rows[last], diff, before.next);
        assert forall|i: int|
            #![trigger hunks[i]]
            0 <= i < count && starts_in(hunks[i], buffer_id) && hunks[i].folded implies
            after.released.contains(hunks[i]) by {
            if i < last {
                let j = choose|j: int|
                    0 <= j < before.released.len() && before.released[j] == hunks[i];
                assert(after.released[j] == hunks[i]);
            } else {
                assert(after.released[before.released.len() as int] == hunk);
            }
        }
        if !(starts_in(hunk, buffer_id) && hunk.folded) {
            assert(kept_from_visible(hunks, hunk, buffer_id));
            if starts_in(hunk, buffer_id) {
                assert(kept_from_visible(hunks, folded, buffer_id));
            }
        }
        assert(after.kept == before.kept || (after.kept == before.kept.push(hunk) && !(starts_in(
            hunk,
            buffer_id,
        ) && hunk.folded)) || (after.kept == before.kept.push(folded) && !hunk.folded && starts_in(
            hunk,
            buffer_id,
        )));
    }
}

/// Whether an expanded hunk is as some hunk of the diff has it: it did the same to the text,
/// and replaced the same part of the diff base.
pub open spec fn agrees_with_diff(hunk: ExpandedHunk, diff: Seq<SnapshotHunk>) -> bool {
    exists|k: int|
        0 <= k < diff.len() && hunk.status == (#[trigger] diff[k]).status
            && hunk.diff_base_byte_range == diff[k].hunk.diff_base_byte_range
}

/// Whether some hunk of the diff is hidden in a fold.
pub open spec fn has_fold(diff: Seq<SnapshotHunk>) -> bool {
    exists|k: int| 0 <= k < diff.len() && shown_rows(#[trigger] diff[k]) is None
}

/// Whether the diff lets an expanded hunk stay: it is one of another buffer, or was expanded
/// before and is, unchanged, some hunk of the diff, or has just disappeared in a fold.
pub open spec fn may_stay(
    hunks: Seq<ExpandedHunk>,
    rows: Seq<Range<DisplayRow>>,
    kept: ExpandedHunk,
    diff: Seq<SnapshotHunk>,
    buffer_id: BufferId,
) -> bool {
    ||| !starts_in(kept, buffer_id)
    ||| exists|i: int|
        0 <= i < hunks.len() && kept == #[trigger] hunks[i] && still_in_diff(kept, rows[i], diff)
    ||| kept.folded && has_fold(diff)
}

/// Nothing outdated stays visible: whatever the diff is, a hunk of the buffer that stays was
/// expanded before and is, unchanged, some hunk of the diff, or it has disappeared in a fold.
pub proof fn sync_keeps_nothing_outdated(
    hunks: Seq<ExpandedHunk>,
    rows: Seq<Range<DisplayRow>>,
    diff: Seq<SnapshotHunk>,
    buffer_id: BufferId,
    diff_base_unchanged: bool,
)
    ensures
        ({
            let outcome = synced(hunks, rows, diff, buffer_id, diff_base_unchanged);
            let buffer_diff = hunks_in_buffer(diff, buffer_id);
            &&& forall|i: int|
                #![trigger outcome.kept[i]]
                0 <= i < outcome.kept.len() && starts_in(outcome.kept[i], buffer_id)
                    && !outcome.kept[i].folded ==> agrees_with_diff(outcome.kept[i], buffer_diff)
            &&& forall|i: int|
                0 <= i < outcome.kept.len() ==> may_stay(
                    hunks,
                    rows,
                    #[trigger] outcome.kept[i],
                    buffer_diff,
                    buffer_id,
                )
        }),
{
    let outcome = synced(hunks, rows, diff, buffer_id, diff_base_unchanged);
    let buffer_diff = hunks_in_buffer(diff, buffer_id);
    lemma_may_stay(hunks, rows, buffer_diff, buffer_id, diff_base_unchanged, hunks.len());
    assert forall|i: int|
        #![trigger outcome.kept[i]]
        0 <= i < outcome.kept.len() && starts_in(outcome.kept[i], buffer_id)
            && !outcome.kept[i].folded implies agrees_with_diff(outcome.kept[i], buffer_diff) by {
        let kept = outcome.kept[i];
        assert(may_stay(hunks, rows, kept, buffer_diff, buffer_id));
        let j = choose|j: int|
            0 <= j < hunks.len() && kept == #[trigger] hunks[j] && still_in_diff(
                kept,
                rows[j],
                buffer_diff,
            );
        let k = choose|k: int|
            0 <= k < buffer_diff.len() && is_unchanged(kept, rows[j], #[trigger] buffer_diff[k]);
        assert(kept.status == buffer_diff[k].status);
    }
}

proof fn lemma_may_stay(
    hunks: Seq<ExpandedHunk>,
    rows: Seq<Range<DisplayRow>>,
    diff: Seq<SnapshotHunk>,
    buffer_id: BufferId,
    diff_base_unchanged: bool,
    count: nat,
)
    requires
        count <= hunks.len(),
    ensures
        ({
            let after = sync_outcome(hunks, rows, diff, buffer_id, diff_base_unchanged, count);
            &&& 0 <= after.next <= diff.len()
            &&& forall|i: int|
                0 <= i < after.kept.len() ==> may_stay(
                    hunks,
                    rows,
                    #[trigger] after.kept[i],
                    diff,
                    buffer_id,
                )
        }),
    decreases count,
{
    if count > 0 {
        let last = count - 1;
        lemma_may_stay(hunks, rows, diff, buffer_id, diff_base_unchanged, last as nat);
        let before = sync_outcome(hunks, rows, diff, buffer_id, diff_base_unchanged, last as nat);
        let hunk = hunks[last];
        let folded = ExpandedHunk { folded: true, block: None, ..hunk };
        lemma_deciding_hunk(hunk, rows[last], diff, before.next);
        let at = deciding_hunk(hunk, rows[last], diff, before.next);
        if starts_in(hunk, buffer_id) && diff_base_unchanged {
            match sync_verdict(hunk, rows[last], diff, at) {
                SyncVerdict::Keep => {
                    assert(is_unchanged(hunk, rows[last], diff[at]));
                    assert(still_in_diff(hunk, rows[last], diff));
                    assert(may_stay(hunks, rows, hunk, diff, buffer_id));
                },
                SyncVerdict::Fold => {
                    assert(shown_rows(diff[at]) is None);
                    assert(may_stay(hunks, rows, folded, diff, buffer_id));
                },
                SyncVerdict::Drop | SyncVerdict::Reexpand => {},
            }
        }
    }
}

/// What is expanded anew are visible hunks of the diff, of the buffer in question.
pub proof fn sync_reexpands_hunks_of_the_diff(
    hunks: Seq<ExpandedHunk>,
    rows: Seq<Range<DisplayRow>>,
    diff: Seq<SnapshotHunk>,
    buffer_id: BufferId,
    diff_base_unchanged: bool,
)
    ensures
        forall|i: int|
            0 <= i < synced(hunks, rows, diff, buffer_id, diff_base_unchanged).reexpand.len()
                ==> is_visible_in(
                #[trigger] synced(
                    hunks,
                    rows,
                    diff,
                    buffer_id,
                    diff_base_unchanged,
                ).reexpand[i],
                hunks_in_buffer(diff, buffer_id),
            ),
{
    lemma_reexpands(
        hunks,
        rows,
        hunks_in_buffer(diff, buffer_id),
        buffer_id,
        diff_base_unchanged,
        hunks.len(),
    );
}

/// Whether a hunk is a visible hunk of a diff.
pub open spec fn is_visible_in(hunk: HoveredHunk, diff: Seq<SnapshotHunk>) -> bool {
    exists|k: int| 0 <= k < diff.len() && visible_hunk(#[trigger] diff[k]) == Some(hunk)
}

proof fn lemma_reexpands(
    hunks: Seq<ExpandedHunk>,
    rows: Seq<Range<DisplayRow>>,
    diff: Seq<SnapshotHunk>,
    buffer_id: BufferId,
    diff_base_unchanged: bool,
    count: nat,
)
    ensures
        ({
            let after = sync_outcome(hunks, rows, diff, buffer_id, diff_base_unchanged, count);
            &&& 0 <= after.next <= diff.len()
            &&& forall|i: int|
                0 <= i < after.reexpand.len() ==> is_visible_in(
                    #[trigger] after.reexpand[i],
                    diff,
                )
        }),
    decreases count,
{
    if count > 0 {
        let last = (count - 1) as nat;
        lemma_reexpands(hunks, rows, diff, buffer_id, diff_base_unchanged, last);
        let before = sync_outcome(hunks, rows, diff, buffer_id, diff_base_unchanged, last);
        let hunk = hunks[count - 1];
        let row = rows[count - 1];
        lemma_deciding_hunk(hunk, row, diff, before.next);
        let at = deciding_hunk(hunk, row, diff, before.next);
        if sync_verdict(hunk, row, diff, at) == SyncVerdict::Reexpand {
            assert(visible_hunk(diff[at]) == Some(visible_hunk(diff[at])->0));
            assert(is_visible_in(visible_hunk(diff[at])->0, diff));
        }
    }
}

/// A synchronization remembers the buffer of the diff base with which it worked: as long as
/// the diff base stays the same version, this is the current one.
pub proof fn sync_remembers_the_diff_base(
    before: ExpandedHunks,
    after: ExpandedHunks,
    request: SyncRequest,
    created: Option<ModelId>,
    buffer: BufferState,
)
    requires
        buffer.remote_id == request.buffer_id,
        buffer.diff_base_version == request.diff_base_version,
        sync_diff_base(request, created) is Some,
        after.diff_base@ == before.diff_base@.insert(
            request.buffer_id,
            DiffBaseBuffer {
                buffer: sync_diff_base(request, created)->0,
                diff_base_version: request.diff_base_version,
            },
        ),
    ensures
        current_diff_base(after, buffer) == sync_diff_base(request, created),
{
}

} // verus!
