//! What holds of toggling hunks.
use std::ops::Range;
use vstd::prelude::*;

use crate::anchor::{Anchor, DisplayRow};
use crate::editor::{expanded_row_ends, unexpanded_hunks, unless_expanded, PlacedHunk};
use crate::expanded::{
    blocks_distinct, blocks_of, hunk_well_formed, hunks_well_formed, lemma_blocks_distinct_push,
    lemma_blocks_distinct_take, lemma_blocks_of_push, ranges_of,
};
use crate::hunk::{DiffHunk, ExpandedHunk, HoveredHunk, SnapshotHunk};
use crate::menu::is_expanded;
use crate::order::{
    chosen, is_part_of, lemma_chosen_agree, lemma_part_push, lemma_part_sorted, picks, sorted_by,
};
use crate::toggle::{
    collapses, hunks_to_expand, lemma_scan_end_bounds, lies_past, row_hunk, scan_end, shown_rows,
    toggle_outcome, toggled, visible_hunk, visible_hunks,
};

verus! {

/// The hunks to toggle are dealt with in order, and no more of them than there are.
pub proof fn lemma_next_bounds(
    hunks: Seq<ExpandedHunk>,
    rows: Seq<Range<DisplayRow>>,
    toggles: Seq<SnapshotHunk>,
    count: nat,
)
    ensures
        0 <= toggle_outcome(hunks, rows, toggles, count).next <= toggles.len(),
        count > 0 ==> toggle_outcome(hunks, rows, toggles, (count - 1) as nat).next
            <= toggle_outcome(hunks, rows, toggles, count).next,
    decreases count,
{
    if count > 0 {
        lemma_next_bounds(hunks, rows, toggles, (count - 1) as nat);
        let before = toggle_outcome(hunks, rows, toggles, (count - 1) as nat);
        lemma_scan_end_bounds(toggles, before.next, rows[count - 1]);
    }
}

/// Toggling leaves the hunks that stay as they were, in their order.
pub proof fn toggle_keeps_a_part(
    hunks: Seq<ExpandedHunk>,
    rows: Seq<Range<DisplayRow>>,
    toggles: Seq<SnapshotHunk>,
)
    ensures
        is_part_of(toggled(hunks, rows, toggles).kept, hunks),
{
    lemma_kept_part(hunks, rows, toggles, hunks.len());
    assert(hunks.take(hunks.len() as int) =~= hunks);
}

proof fn lemma_kept_part(
    hunks: Seq<ExpandedHunk>,
    rows: Seq<Range<DisplayRow>>,
    toggles: Seq<SnapshotHunk>,
    count: nat,
)
    requires
        count <= hunks.len(),
    ensures
        is_part_of(toggle_outcome(hunks, rows, toggles, count).kept, hunks.take(count as int)),
    decreases count,
{
    if count > 0 {
        lemma_kept_part(hunks, rows, toggles, (count - 1) as nat);
        let before = toggle_outcome(hunks, rows, toggles, (count - 1) as nat);
        lemma_part_push(before.kept, hunks.take(count - 1), hunks[count - 1]);
        assert(hunks.take(count as int) =~= hunks.take(count - 1).push(hunks[count - 1]));
    } else {
        assert(picks(Seq::<ExpandedHunk>::empty(), hunks.take(0), Seq::<int>::empty()));
    }
}

/// Toggling keeps the order of the expanded hunks: if each started after the one before,
/// each still does.
pub proof fn toggle_keeps_order(
    hunks: Seq<ExpandedHunk>,
    rows: Seq<Range<DisplayRow>>,
    toggles: Seq<SnapshotHunk>,
    position: spec_fn(Anchor) -> int,
)
    requires
        sorted_by(hunks, position),
    ensures
        sorted_by(toggled(hunks, rows, toggles).kept, position),
{
    toggle_keeps_a_part(hunks, rows, toggles);
    let kept = toggled(hunks, rows, toggles).kept;
    let indices = choose|indices: Seq<int>| picks(kept, hunks, indices);
    assert(picks(ranges_of(kept), ranges_of(hunks), indices));
    lemma_part_sorted(ranges_of(kept), ranges_of(hunks), position);
}

/// Toggling keeps the expanded hunks well-formed.
pub proof fn toggle_keeps_well_formed(
    hunks: Seq<ExpandedHunk>,
    rows: Seq<Range<DisplayRow>>,
    toggles: Seq<SnapshotHunk>,
)
    requires
        hunks_well_formed(hunks),
    ensures
        hunks_well_formed(toggled(hunks, rows, toggles).kept),
{
    toggle_keeps_a_part(hunks, rows, toggles);
    let kept = toggled(hunks, rows, toggles).kept;
    let indices = choose|indices: Seq<int>| picks(kept, hunks, indices);
    assert forall|i: int| 0 <= i < kept.len() implies hunk_well_formed(#[trigger] kept[i]) by {
        assert(kept[i] == hunks[indices[i]]);
    }
}

/// Toggling either keeps a hunk or collapses it: no hunk is lost, and none is made up.
pub proof fn toggle_splits_the_hunks(
    hunks: Seq<ExpandedHunk>,
    rows: Seq<Range<DisplayRow>>,
    toggles: Seq<SnapshotHunk>,
)
    ensures
        toggled(hunks, rows, toggles).kept.to_multiset().add(
            toggled(hunks, rows, toggles).collapsed.to_multiset(),
        ) == hunks.to_multiset(),
{
    lemma_split(hunks, rows, toggles, hunks.len());
    assert(hunks.take(hunks.len() as int) =~= hunks);
}

proof fn lemma_split(
    hunks: Seq<ExpandedHunk>,
    rows: Seq<Range<DisplayRow>>,
    toggles: Seq<SnapshotHunk>,
    count: nat,
)
    requires
        count <= hunks.len(),
    ensures
        toggle_outcome(hunks, rows, toggles, count).kept.to_multiset().add(
            toggle_outcome(hunks, rows, toggles, count).collapsed.to_multiset(),
        ) == hunks.take(count as int).to_multiset(),
    decreases count,
{
    broadcast use vstd::seq_lib::to_multiset_build;

    let after = toggle_outcome(hunks, rows, toggles, count);
    if count > 0 {
        lemma_split(hunks, rows, toggles, (count - 1) as nat);
        assert(hunks.take(count as int) =~= hunks.take(count - 1).push(hunks[count - 1]));
        assert(after.kept.to_multiset().add(after.collapsed.to_multiset()) =~= hunks.take(
            count as int,
        ).to_multiset());
    } else {
        assert(hunks.take(0) =~= Seq::empty());
        hunks.take(0).to_multiset_ensures();
        assert(after.kept.to_multiset().add(after.collapsed.to_multiset()) =~= hunks.take(
            0,
        ).to_multiset());
    }
}

/// A hunk that has disappeared in a fold is never collapsed: toggling keeps all of these.
pub proof fn toggle_keeps_folded_hunks(
    hunks: Seq<ExpandedHunk>,
    rows: Seq<Range<DisplayRow>>,
    toggles: Seq<SnapshotHunk>,
)
    ensures
        toggled(hunks, rows, toggles).kept.filter(|hunk: ExpandedHunk| hunk.folded)
            == hunks.filter(|hunk: ExpandedHunk| hunk.folded),
        forall|i: int|
            0 <= i < toggled(hunks, rows, toggles).collapsed.len()
                ==> !(#[trigger] toggled(hunks, rows, toggles).collapsed[i]).folded,
{
    lemma_keeps_folded(hunks, rows, toggles, hunks.len());
    assert(hunks.take(hunks.len() as int) =~= hunks);
}

proof fn lemma_keeps_folded(
    hunks: Seq<ExpandedHunk>,
    rows: Seq<Range<DisplayRow>>,
    toggles: Seq<SnapshotHunk>,
    count: nat,
)
    requires
        count <= hunks.len(),
    ensures
        toggle_outcome(hunks, rows, toggles, count).kept.filter(|hunk: ExpandedHunk| hunk.folded)
            == hunks.take(count as int).filter(|hunk: ExpandedHunk| hunk.folded),
        forall|i: int|
            0 <= i < toggle_outcome(hunks, rows, toggles, count).collapsed.len() ==> !(
            #[trigger] toggle_outcome(hunks, rows, toggles, count).collapsed[i]).folded,
    decreases count,
{
    reveal(Seq::filter);
    let folded = |hunk: ExpandedHunk| hunk.folded;
    let after = toggle_outcome(hunks, rows, toggles, count);
    if count > 0 {
        lemma_keeps_folded(hunks, rows, toggles, (count - 1) as nat);
        let before = toggle_outcome(hunks, rows, toggles, (count - 1) as nat);
        let hunk = hunks[count - 1];
        assert(hunks.take(count as int).drop_last() =~= hunks.take(count - 1));
        assert(hunks.take(count as int).last() == hunk);
        assert(before.kept.push(hunk).drop_last() =~= before.kept);
        assert(before.kept.push(hunk).last() == hunk);
        assert(after.kept.filter(folded) == hunks.take(count as int).filter(folded));
        assert(after.collapsed == before.collapsed || (!hunk.folded && after.collapsed
            == before.collapsed.push(hunk)));
    } else {
        assert(hunks.take(0) =~= Seq::empty());
    }
}

/// Toggling loses no block: each block of the expanded hunks still belongs to one of them
/// or is removed with one that is collapsed.
pub proof fn toggle_accounts_for_blocks(
    hunks: Seq<ExpandedHunk>,
    rows: Seq<Range<DisplayRow>>,
    toggles: Seq<SnapshotHunk>,
)
    ensures
        blocks_of(hunks) == blocks_of(toggled(hunks, rows, toggles).kept).union(
            blocks_of(toggled(hunks, rows, toggles).collapsed),
        ),
{
    lemma_accounts_for_blocks(hunks, rows, toggles, hunks.len());
    assert(hunks.take(hunks.len() as int) =~= hunks);
}

proof fn lemma_accounts_for_blocks(
    hunks: Seq<ExpandedHunk>,
    rows: Seq<Range<DisplayRow>>,
    toggles: Seq<SnapshotHunk>,
    count: nat,
)
    requires
        count <= hunks.len(),
    ensures
        blocks_of(hunks.take(count as int)) == blocks_of(
            toggle_outcome(hunks, rows, toggles, count).kept,
        ).union(blocks_of(toggle_outcome(hunks, rows, toggles, count).collapsed)),
    decreases count,
{
    let after = toggle_outcome(hunks, rows, toggles, count);
    if count > 0 {
        lemma_accounts_for_blocks(hunks, rows, toggles, (count - 1) as nat);
        let before = toggle_outcome(hunks, rows, toggles, (count - 1) as nat);
        let hunk = hunks[count - 1];
        assert(hunks.take(count as int) =~= hunks.take(count - 1).push(hunk));
        lemma_blocks_of_push(hunks.take(count - 1), hunk);
        lemma_blocks_of_push(before.kept, hunk);
        lemma_blocks_of_push(before.collapsed, hunk);
        assert(blocks_of(hunks.take(count as int)) =~= blocks_of(after.kept).union(
            blocks_of(after.collapsed),
        ));
    } else {
        assert(hunks.take(0) =~= Seq::empty());
        assert(blocks_of(hunks.take(0)) =~= blocks_of(after.kept).union(
            blocks_of(after.collapsed),
        ));
    }
}

/// Toggling leaves no block without its hunk: if each block belongs to one expanded hunk
/// only, then those that are not removed are exactly those of the hunks that stay, and each
/// still belongs to one of them only.
pub proof fn toggle_leaves_no_stray_block(
    hunks: Seq<ExpandedHunk>,
    rows: Seq<Range<DisplayRow>>,
    toggles: Seq<SnapshotHunk>,
)
    requires
        blocks_distinct(hunks),
    ensures
        blocks_of(toggled(hunks, rows, toggles).kept) == blocks_of(hunks).difference(
            blocks_of(toggled(hunks, rows, toggles).collapsed),
        ),
        blocks_distinct(toggled(hunks, rows, toggles).kept),
{
    lemma_no_stray_block(hunks, rows, toggles, hunks.len());
    toggle_accounts_for_blocks(hunks, rows, toggles);
    assert(blocks_of(toggled(hunks, rows, toggles).kept) =~= blocks_of(hunks).difference(
        blocks_of(toggled(hunks, rows, toggles).collapsed),
    ));
}

proof fn lemma_no_stray_block(
    hunks: Seq<ExpandedHunk>,
    rows: Seq<Range<DisplayRow>>,
    toggles: Seq<SnapshotHunk>,
    count: nat,
)
    requires
        blocks_distinct(hunks),
        count <= hunks.len(),
    ensures
        ({
            let after = toggle_outcome(hunks, rows, toggles, count);
            &&& blocks_of(after.kept).disjoint(blocks_of(after.collapsed))
            &&& blocks_distinct(after.kept)
        }),
    decreases count,
{
    if count > 0 {
        let last = (count - 1) as nat;
        lemma_no_stray_block(hunks, rows, toggles, last);
        lemma_accounts_for_blocks(hunks, rows, toggles, last);
        let before = toggle_outcome(hunks, rows, toggles, last);
        let hunk = hunks[count - 1];
        lemma_blocks_distinct_take(hunks, count);
        lemma_blocks_of_push(before.kept, hunk);
        lemma_blocks_of_push(before.collapsed, hunk);
        lemma_blocks_distinct_push(before.kept, hunk);
    }
}

/// Toggling never clears the highlight of a hunk that stays, if the expanded hunks start at
/// different places.
pub proof fn toggle_clears_no_other_highlight(
    hunks: Seq<ExpandedHunk>,
    rows: Seq<Range<DisplayRow>>,
    toggles: Seq<SnapshotHunk>,
    position: spec_fn(Anchor) -> int,
)
    requires
        sorted_by(hunks, position),
    ensures
        forall|i: int, j: int|
            0 <= i < toggled(hunks, rows, toggles).kept.len() && 0 <= j < toggled(
                hunks,
                rows,
                toggles,
            ).collapsed.len() ==> (#[trigger] toggled(hunks, rows, toggles).kept[i]).hunk_range != (
            #[trigger] toggled(hunks, rows, toggles).collapsed[j]).hunk_range,
{
    lemma_clears_no_other(hunks, rows, toggles, position, hunks.len());
}

proof fn lemma_clears_no_other(
    hunks: Seq<ExpandedHunk>,
    rows: Seq<Range<DisplayRow>>,
    toggles: Seq<SnapshotHunk>,
    position: spec_fn(Anchor) -> int,
    count: nat,
)
    requires
        sorted_by(hunks, position),
        count <= hunks.len(),
    ensures
        ({
            let after = toggle_outcome(hunks, rows, toggles, count);
            &&& forall|i: int|
                0 <= i < after.kept.len() ==> is_among(
                    #[trigger] after.kept[i],
                    hunks,
                    count as int,
                )
            &&& forall|i: int|
                0 <= i < after.collapsed.len() ==> is_among(
                    #[trigger] after.collapsed[i],
                    hunks,
                    count as int,
                )
            &&& forall|i: int, j: int|
                0 <= i < after.kept.len() && 0 <= j < after.collapsed.len() ==> (
                #[trigger] after.kept[i]).hunk_range != (#[trigger] after.collapsed[j]).hunk_range
        }),
    decreases count,
{
    if count > 0 {
        let last = (count - 1) as nat;
        lemma_clears_no_other(hunks, rows, toggles, position, last);
        let before = toggle_outcome(hunks, rows, toggles, last);
        let after = toggle_outcome(hunks, rows, toggles, count);
        let hunk = hunks[count - 1];
        let ranges = ranges_of(hunks);
        assert forall|other: ExpandedHunk| is_among(other, hunks, last as int) implies is_among(
            other,
            hunks,
            count as int,
        ) && other.hunk_range != hunk.hunk_range by {
            let i = choose|i: int| 0 <= i < last && #[trigger] hunks[i] == other;
            assert(ranges[i] == other.hunk_range && ranges[count - 1] == hunk.hunk_range);
            assert(hunks[i] == other);
        }
        assert(is_among(hunk, hunks, count as int));
        assert(after.kept == before.kept && after.collapsed == before.collapsed.push(hunk)
            || after.kept == before.kept.push(hunk) && after.collapsed == before.collapsed);
    }
}

/// Whether a hunk is one of the first `count` of `hunks`.
pub open spec fn is_among(hunk: ExpandedHunk, hunks: Seq<ExpandedHunk>, count: int) -> bool {
    exists|i: int| 0 <= i < count && #[trigger] hunks[i] == hunk
}

/// Whether the rows in which the visible ones of the expanded hunks are shown follow each
/// other, with at least one row in between.
pub open spec fn rows_apart(hunks: Seq<ExpandedHunk>, rows: Seq<Range<DisplayRow>>) -> bool {
    &&& rows.len() == hunks.len()
    &&& forall|i: int|
        #![trigger rows[i]]
        0 <= i < hunks.len() && !hunks[i].folded ==> rows[i].start.0 <= rows[i].end.0
    &&& forall|i: int, j: int|
        #![trigger rows[i], rows[j]]
        0 <= i < j < hunks.len() && !hunks[i].folded && !hunks[j].folded ==> rows[i].end.0
            < rows[j].start.0
}

/// Whether the visible ones of the hunks to toggle are in the order of their rows.
pub open spec fn toggles_in_order(toggles: Seq<SnapshotHunk>) -> bool {
    forall|i: int, j: int|
        #![trigger toggles[i], toggles[j]]
        0 <= i < j < toggles.len() && shown_rows(toggles[i]) is Some && shown_rows(toggles[j])
            is Some ==> shown_rows(toggles[i])->0.start.0 < shown_rows(toggles[j])->0.start.0
}

/// Whether one of the hunks to toggle is visible in exactly the rows of the expanded hunk
/// at `index`, which is visible too.
pub open spec fn is_toggled(
    hunks: Seq<ExpandedHunk>,
    rows: Seq<Range<DisplayRow>>,
    toggles: Seq<SnapshotHunk>,
    index: int,
) -> bool {
    !hunks[index].folded && exists|k: int|
        0 <= k < toggles.len() && collapses(#[trigger] toggles[k], rows[index])
}

/// Whether the hunk to toggle at `index` is visible in exactly the rows of a visible
/// expanded hunk.
pub open spec fn meets_expanded(
    hunks: Seq<ExpandedHunk>,
    rows: Seq<Range<DisplayRow>>,
    toggles: Seq<SnapshotHunk>,
    index: int,
) -> bool {
    exists|i: int|
        0 <= i < hunks.len() && !hunks[i].folded && collapses(toggles[index], #[trigger] rows[i])
}

/// A scan ends at the first hunk that ends it.
proof fn lemma_scan_ends_at(
    toggles: Seq<SnapshotHunk>,
    from: int,
    rows: Range<DisplayRow>,
    end: int,
)
    requires
        0 <= from <= end < toggles.len(),
        collapses(toggles[end], rows) || lies_past(toggles[end], rows),
        forall|j: int|
            #![trigger toggles[j]]
            from <= j < end ==> !collapses(toggles[j], rows) && !lies_past(toggles[j], rows),
    ensures
        scan_end(toggles, from, rows) == end,
    decreases end - from,
{
    if from < end {
        assert(!collapses(toggles[from], rows) && !lies_past(toggles[from], rows));
        lemma_scan_ends_at(toggles, from + 1, rows, end);
    }
}

/// Nothing that a scan goes past ends it.
pub proof fn lemma_scan_passes(toggles: Seq<SnapshotHunk>, from: int, rows: Range<DisplayRow>)
    requires
        0 <= from <= toggles.len(),
    ensures
        forall|j: int|
            #![trigger toggles[j]]
            from <= j < scan_end(toggles, from, rows) ==> !collapses(toggles[j], rows)
                && !lies_past(toggles[j], rows),
    decreases toggles.len() - from,
{
    if !(from >= toggles.len() || collapses(toggles[from], rows) || lies_past(
        toggles[from],
        rows,
    )) {
        lemma_scan_passes(toggles, from + 1, rows);
    }
}

/// The visible hunks to toggle, where there is one at each index.
pub open spec fn as_visible(toggles: Seq<SnapshotHunk>) -> Seq<HoveredHunk> {
    Seq::new(toggles.len(), |k: int| visible_hunk(toggles[k])->0)
}

/// The hunks to be expanded from a stretch of the hunks to toggle are the visible ones, as
/// long as none of the stretch meets an expanded hunk.
pub proof fn lemma_visible_stretch(
    toggles: Seq<SnapshotHunk>,
    choice: spec_fn(int) -> bool,
    from: int,
    to: int,
)
    requires
        0 <= from <= to <= toggles.len(),
        forall|k: int|
            from <= k < to ==> #[trigger] choice(k) == (visible_hunk(toggles[k]) is Some),
    ensures
        chosen(as_visible(toggles), choice, to as nat) == chosen(
            as_visible(toggles),
            choice,
            from as nat,
        ) + visible_hunks(toggles, from, to),
    decreases to - from,
{
    let visible = as_visible(toggles);
    if from < to {
        lemma_visible_stretch(toggles, choice, from, to - 1);
        assert(toggles.subrange(from, to).drop_last() =~= toggles.subrange(from, to - 1));
        assert(toggles.subrange(from, to).last() == toggles[to - 1]);
        assert(choice(to - 1) == (visible_hunk(toggles[to - 1]) is Some));
        assert(chosen(visible, choice, to as nat) =~= chosen(visible, choice, from as nat)
            + visible_hunks(toggles, from, to));
    } else {
        assert(toggles.subrange(from, to) =~= Seq::empty());
        assert(visible_hunks(toggles, from, to) =~= Seq::empty());
        assert(chosen(visible, choice, to as nat) =~= chosen(visible, choice, from as nat)
            + visible_hunks(toggles, from, to));
    }
}

/// What holds after the first `count` of the expanded hunks, if these are apart and the
/// hunks to toggle are in order.
spec fn exact_so_far(
    hunks: Seq<ExpandedHunk>,
    rows: Seq<Range<DisplayRow>>,
    toggles: Seq<SnapshotHunk>,
    count: nat,
) -> bool {
    let outcome = toggle_outcome(hunks, rows, toggles, count);
    &&& outcome.kept == chosen(hunks, |i: int| !is_toggled(hunks, rows, toggles, i), count)
    &&& outcome.collapsed == chosen(hunks, |i: int| is_toggled(hunks, rows, toggles, i), count)
    &&& outcome.expand == chosen(
        as_visible(toggles),
        |k: int|
            visible_hunk(toggles[k]) is Some && !meets_expanded(hunks, rows, toggles, k),
        outcome.next as nat,
    )
    // What has been dealt with lies within the expanded hunks gone through, ...
    &&& forall|k: int|
        #![trigger toggles[k]]
        0 <= k < outcome.next && shown_rows(toggles[k]) is Some ==> exists|i: int|
            0 <= i < count && !hunks[i].folded && shown_rows(toggles[k])->0.start.0
                <= #[trigger] rows[i].end.0
    // ... and what meets one of these has been dealt with.
    &&& forall|i: int, k: int|
        #![trigger rows[i], toggles[k]]
        0 <= i < count && !hunks[i].folded && 0 <= k < toggles.len() && collapses(
            toggles[k],
            rows[i],
        ) ==> k < outcome.next
}

proof fn lemma_exact(
    hunks: Seq<ExpandedHunk>,
    rows: Seq<Range<DisplayRow>>,
    toggles: Seq<SnapshotHunk>,
    count: nat,
)
    requires
        rows_apart(hunks, rows),
        toggles_in_order(toggles),
        count <= hunks.len(),
    ensures
        exact_so_far(hunks, rows, toggles, count),
    decreases count,
{
    let outcome = toggle_outcome(hunks, rows, toggles, count);
    let left = |k: int|
        visible_hunk(toggles[k]) is Some && !meets_expanded(hunks, rows, toggles, k);
    if count > 0 {
        let last = count - 1;
        lemma_exact(hunks, rows, toggles, last as nat);
        let before = toggle_outcome(hunks, rows, toggles, last as nat);
        lemma_next_bounds(hunks, rows, toggles, last as nat);
        if !hunks[last].folded {
            let row = rows[last];
            let from = before.next;
            let end = scan_end(toggles, from, row);
            lemma_scan_end_bounds(toggles, from, row);
            lemma_scan_passes(toggles, from, row);
            if is_toggled(hunks, rows, toggles, last) {
                let k = choose|k: int|
                    0 <= k < toggles.len() && collapses(#[trigger] toggles[k], row);
                assert(k >= from) by {
                    if k < from {
                        let i = choose|i: int|
                            0 <= i < last && !hunks[i].folded && shown_rows(toggles[k])->0.start.0
                                <= #[trigger] rows[i].end.0;
                        assert(rows[i].end.0 < rows[last].start.0);
                    }
                }
                assert forall|j: int| #![trigger toggles[j]] from <= j < k implies !collapses(
                    toggles[j],
                    row,
                ) && !lies_past(toggles[j], row) by {
                    if shown_rows(toggles[j]) is Some {
                        assert(shown_rows(toggles[j])->0.start.0
                            < shown_rows(toggles[k])->0.start.0);
                    }
                }
                lemma_scan_ends_at(toggles, from, row, k);
                assert(end == k);
            } else if end < toggles.len() {
                assert(!collapses(toggles[end], row));
            }
            // What the scan went past meets no expanded hunk.
            assert forall|k: int| from <= k < end implies !meets_expanded(
                hunks,
                rows,
                toggles,
                k,
            ) by {
                if meets_expanded(hunks, rows, toggles, k) {
                    let i = choose|i: int|
                        0 <= i < hunks.len() && !hunks[i].folded && collapses(
                            toggles[k],
                            #[trigger] rows[i],
                        );
                    assert(!collapses(toggles[k], row) && !lies_past(toggles[k], row));
                    if i > last {
                        assert(rows[last].end.0 < rows[i].start.0);
                    }
                }
            }
            assert forall|k: int| from <= k < end implies #[trigger] left(k) == (visible_hunk(
                toggles[k],
            ) is Some) by {}
            lemma_visible_stretch(toggles, left, from, end);
            if is_toggled(hunks, rows, toggles, last) {
                assert(meets_expanded(hunks, rows, toggles, end)) by {
                    assert(collapses(toggles[end], rows[last]));
                }
                assert(!left(end));
            }
            assert(outcome.expand == chosen(as_visible(toggles), left, outcome.next as nat));
            assert forall|k: int|
                #![trigger toggles[k]]
                0 <= k < outcome.next && shown_rows(toggles[k]) is Some implies exists|i: int|
                    0 <= i < count && !hunks[i].folded && shown_rows(toggles[k])->0.start.0
                        <= #[trigger] rows[i].end.0 by {
                if k >= from {
                    if k < end {
                        assert(!lies_past(toggles[k], row));
                    }
                    assert(shown_rows(toggles[k])->0.start.0 <= rows[last].end.0);
                }
            }
            assert forall|i: int, k: int|
                #![trigger rows[i], toggles[k]]
                0 <= i < count && !hunks[i].folded && 0 <= k < toggles.len() && collapses(
                    toggles[k],
                    rows[i],
                ) implies k < outcome.next by {
                if i == last {
                    assert(is_toggled(hunks, rows, toggles, last));
                    if k > end {
                        assert(shown_rows(toggles[end])->0.start.0
                            < shown_rows(toggles[k])->0.start.0);
                    }
                }
            }
        } else {
            assert(!is_toggled(hunks, rows, toggles, last));
        }
    }
}

/// Toggling does what its name says. If the visible expanded hunks are at least a row apart,
/// and the hunks to toggle are in the order of their rows, then exactly those expanded hunks
/// are collapsed that are visible in the same rows as one of the hunks to toggle. All the
/// other hunks to toggle are expanded, but for those in folds that come before the last of
/// the expanded hunks.
pub proof fn toggle_is_exact(
    hunks: Seq<ExpandedHunk>,
    rows: Seq<Range<DisplayRow>>,
    toggles: Seq<SnapshotHunk>,
)
    requires
        rows_apart(hunks, rows),
        toggles_in_order(toggles),
    ensures
        toggled(hunks, rows, toggles).kept == chosen(
            hunks,
            |i: int| !is_toggled(hunks, rows, toggles, i),
            hunks.len(),
        ),
        toggled(hunks, rows, toggles).collapsed == chosen(
            hunks,
            |i: int| is_toggled(hunks, rows, toggles, i),
            hunks.len(),
        ),
        hunks_to_expand(hunks, rows, toggles) == chosen(
            expansions(toggles, toggled(hunks, rows, toggles).next),
            |k: int|
                (visible_hunk(toggles[k]) is Some || k >= toggled(hunks, rows, toggles).next)
                    && !meets_expanded(hunks, rows, toggles, k),
            toggles.len(),
        ),
{
    lemma_exact(hunks, rows, toggles, hunks.len());
    lemma_next_bounds(hunks, rows, toggles, hunks.len());
    let next = toggled(hunks, rows, toggles).next;
    let left = |k: int|
        visible_hunk(toggles[k]) is Some && !meets_expanded(hunks, rows, toggles, k);
    let choice = |k: int|
        (visible_hunk(toggles[k]) is Some || k >= next) && !meets_expanded(hunks, rows, toggles, k);
    lemma_chosen_agree(as_visible(toggles), expansions(toggles, next), left, choice, next as nat);
    assert forall|k: int| next <= k < toggles.len() implies #[trigger] choice(k) by {
        if meets_expanded(hunks, rows, toggles, k) {
            let i = choose|i: int|
                0 <= i < hunks.len() && !hunks[i].folded && collapses(
                    toggles[k],
                    #[trigger] rows[i],
                );
            assert(k < next);
        }
    }
    lemma_tail(toggles, next, choice, toggles.len());
    assert(toggles.skip(next) =~= toggles.subrange(next, toggles.len() as int));
}

/// The hunks to toggle as they are expanded: those that the expanded hunks were held
/// against, the first `next`, as they are visible, and the others by their rows.
pub open spec fn expansions(toggles: Seq<SnapshotHunk>, next: int) -> Seq<HoveredHunk> {
    Seq::new(
        toggles.len(),
        |k: int|
            if k < next {
                visible_hunk(toggles[k])->0
            } else {
                row_hunk(toggles[k])
            },
    )
}

/// The hunks to toggle from `next` on, all of which are chosen, are expanded by their rows.
pub proof fn lemma_tail(
    toggles: Seq<SnapshotHunk>,
    next: int,
    choice: spec_fn(int) -> bool,
    count: nat,
)
    requires
        0 <= next <= count <= toggles.len(),
        forall|k: int| next <= k < toggles.len() ==> #[trigger] choice(k),
    ensures
        chosen(expansions(toggles, next), choice, count) == chosen(
            expansions(toggles, next),
            choice,
            next as nat,
        ) + toggles.subrange(next, count as int).map_values(|hunk: SnapshotHunk| row_hunk(hunk)),
    decreases count,
{
    let all = expansions(toggles, next);
    let rows_of = |hunk: SnapshotHunk| row_hunk(hunk);
    let tail = toggles.subrange(next, count as int).map_values(rows_of);
    if count > next {
        lemma_tail(toggles, next, choice, (count - 1) as nat);
        assert(choice(count - 1));
        assert(tail =~= toggles.subrange(next, count - 1).map_values(rows_of).push(
            row_hunk(toggles[count - 1]),
        ));
        assert(chosen(all, choice, count) =~= chosen(all, choice, next as nat) + tail);
    } else {
        assert(tail =~= Seq::empty());
        assert(chosen(all, choice, count) =~= chosen(all, choice, next as nat) + tail);
    }
}

/// If none of the hunks to toggle is visible in the rows of a visible expanded hunk, all
/// the expanded hunks stay.
pub proof fn toggling_others_collapses_nothing(
    hunks: Seq<ExpandedHunk>,
    rows: Seq<Range<DisplayRow>>,
    toggles: Seq<SnapshotHunk>,
)
    requires
        forall|i: int|
            0 <= i < hunks.len() ==> !#[trigger] is_toggled(hunks, rows, toggles, i),
    ensures
        toggled(hunks, rows, toggles).kept == hunks,
        toggled(hunks, rows, toggles).collapsed == Seq::<ExpandedHunk>::empty(),
{
    lemma_collapses_nothing(hunks, rows, toggles, hunks.len());
    assert(hunks.take(hunks.len() as int) =~= hunks);
}

proof fn lemma_collapses_nothing(
    hunks: Seq<ExpandedHunk>,
    rows: Seq<Range<DisplayRow>>,
    toggles: Seq<SnapshotHunk>,
    count: nat,
)
    requires
        count <= hunks.len(),
        forall|i: int|
            0 <= i < hunks.len() ==> !#[trigger] is_toggled(hunks, rows, toggles, i),
    ensures
        toggle_outcome(hunks, rows, toggles, count).kept == hunks.take(count as int),
        toggle_outcome(hunks, rows, toggles, count).collapsed == Seq::<ExpandedHunk>::empty(),
    decreases count,
{
    if count > 0 {
        lemma_collapses_nothing(hunks, rows, toggles, (count - 1) as nat);
        lemma_next_bounds(hunks, rows, toggles, (count - 1) as nat);
        let before = toggle_outcome(hunks, rows, toggles, (count - 1) as nat);
        lemma_scan_end_bounds(toggles, before.next, rows[count - 1]);
        assert(!is_toggled(hunks, rows, toggles, count - 1));
        assert(hunks.take(count as int) =~= hunks.take(count - 1).push(hunks[count - 1]));
    } else {
        assert(hunks.take(0) =~= Seq::empty());
    }
}

/// Toggling no hunk changes nothing.
pub proof fn toggling_nothing_changes_nothing(
    hunks: Seq<ExpandedHunk>,
    rows: Seq<Range<DisplayRow>>,
)
    ensures
        toggled(hunks, rows, Seq::empty()).kept == hunks,
        toggled(hunks, rows, Seq::empty()).collapsed == Seq::<ExpandedHunk>::empty(),
        hunks_to_expand(hunks, rows, Seq::empty()) == Seq::<HoveredHunk>::empty(),
{
    let toggles = Seq::<SnapshotHunk>::empty();
    toggling_others_collapses_nothing(hunks, rows, toggles);
    lemma_nothing_to_expand(hunks, rows, hunks.len());
    assert(hunks_to_expand(hunks, rows, toggles) =~= Seq::empty());
}

proof fn lemma_nothing_to_expand(
    hunks: Seq<ExpandedHunk>,
    rows: Seq<Range<DisplayRow>>,
    count: nat,
)
    ensures
        toggle_outcome(hunks, rows, Seq::empty(), count).expand == Seq::<HoveredHunk>::empty(),
        toggle_outcome(hunks, rows, Seq::empty(), count).next == 0,
    decreases count,
{
    let toggles = Seq::<SnapshotHunk>::empty();
    if count > 0 {
        lemma_nothing_to_expand(hunks, rows, (count - 1) as nat);
        assert(toggles.subrange(0, 0) =~= Seq::empty());
        assert(visible_hunks(toggles, 0, 0) =~= Seq::empty());
    }
}

/// The rows in which hunks are shown, given those in which each range of the text is.
pub open spec fn rows_in(
    hunks: Seq<ExpandedHunk>,
    shown: spec_fn(Range<Anchor>) -> Range<DisplayRow>,
) -> Seq<Range<DisplayRow>> {
    Seq::new(hunks.len(), |i: int| shown(hunks[i].hunk_range))
}

/// What has become of the first `count` of the expanded hunks when one hunk is toggled that
/// collapses the one at `index` and lies past those visible before it.
proof fn lemma_collapses_one(
    hunks: Seq<ExpandedHunk>,
    rows: Seq<Range<DisplayRow>>,
    toggle: SnapshotHunk,
    index: int,
    count: nat,
)
    requires
        0 <= index < hunks.len(),
        count <= hunks.len(),
        !hunks[index].folded,
        collapses(toggle, rows[index]),
        forall|i: int|
            #![trigger rows[i]]
            0 <= i < index && !hunks[i].folded ==> lies_past(toggle, rows[i]),
    ensures
        ({
            let outcome = toggle_outcome(hunks, rows, seq![toggle], count);
            &&& outcome.expand == Seq::<HoveredHunk>::empty()
            &&& count <= index ==> {
                &&& outcome.kept == hunks.take(count as int)
                &&& outcome.collapsed == Seq::<ExpandedHunk>::empty()
                &&& outcome.next == 0
            }
            &&& count > index ==> {
                &&& outcome.kept == hunks.take(index) + hunks.subrange(index + 1, count as int)
                &&& outcome.collapsed == seq![hunks[index]]
                &&& outcome.next == 1
            }
        }),
    decreases count,
{
    let toggles = seq![toggle];
    let outcome = toggle_outcome(hunks, rows, toggles, count);
    if count > 0 {
        let last = count - 1;
        lemma_collapses_one(hunks, rows, toggle, index, last as nat);
        let before = toggle_outcome(hunks, rows, toggles, last as nat);
        assert(toggles[0] == toggle);
        assert(toggles.subrange(before.next, before.next) =~= Seq::empty());
        assert(visible_hunks(toggles, before.next, before.next) =~= Seq::empty());
        assert(last < index && !hunks[last].folded ==> lies_past(toggle, rows[last]));
        assert(!hunks[last].folded ==> scan_end(toggles, before.next, rows[last])
            == before.next);
    }
    if count <= index {
        assert(outcome.kept =~= hunks.take(count as int));
    } else {
        assert(outcome.kept =~= hunks.take(index) + hunks.subrange(index + 1, count as int));
        assert(outcome.collapsed =~= seq![hunks[index]]);
    }
}

/// Toggling a hunk undoes its expansion: if a hunk has just been put among the expanded
/// ones, and those visible before it in the list end above its first row, then toggling it
/// leaves the hunks that were there before. The hunk is collapsed, and nothing is expanded.
pub proof fn toggle_undoes_expansion(
    hunks: Seq<ExpandedHunk>,
    index: int,
    hunk: ExpandedHunk,
    shown: spec_fn(Range<Anchor>) -> Range<DisplayRow>,
    toggle: SnapshotHunk,
)
    requires
        0 <= index <= hunks.len(),
        !hunk.folded,
        shown(hunk.hunk_range).start.0 <= shown(hunk.hunk_range).end.0,
        forall|i: int|
            0 <= i < index && !(#[trigger] hunks[i]).folded ==> shown(hunks[i].hunk_range).end.0
                < shown(hunk.hunk_range).start.0,
        shown_rows(toggle) == Some(shown(hunk.hunk_range)),
    ensures
        ({
            let after = hunks.insert(index, hunk);
            let rows = rows_in(after, shown);
            &&& toggled(after, rows, seq![toggle]).kept == hunks
            &&& toggled(after, rows, seq![toggle]).collapsed == seq![hunk]
            &&& hunks_to_expand(after, rows, seq![toggle]) == Seq::<HoveredHunk>::empty()
        }),
{
    let after = hunks.insert(index, hunk);
    let rows = rows_in(after, shown);
    assert(after[index] == hunk);
    assert forall|i: int| #![trigger rows[i]] 0 <= i < index && !after[i].folded implies lies_past(
        toggle,
        rows[i],
    ) by {
        assert(after[i] == hunks[i]);
    }
    lemma_collapses_one(after, rows, toggle, index, after.len());
    assert(after.take(index) + after.subrange(index + 1, after.len() as int) =~= hunks);
    assert(hunks_to_expand(after, rows, seq![toggle]) =~= Seq::empty());
}

/// Whether one of the visible expanded hunks is held against a hunk to toggle: it does not
/// end above it.
pub open spec fn is_reached(
    hunks: Seq<ExpandedHunk>,
    rows: Seq<Range<DisplayRow>>,
    toggle: SnapshotHunk,
) -> bool {
    exists|i: int|
        0 <= i < hunks.len() && !hunks[i].folded && !lies_past(toggle, #[trigger] rows[i])
}

/// A visible hunk as toggling expands it: as it is visible if one of the expanded hunks is
/// held against it, and else by its rows.
pub open spec fn expansion_of(
    hunks: Seq<ExpandedHunk>,
    rows: Seq<Range<DisplayRow>>,
    toggle: SnapshotHunk,
) -> HoveredHunk {
    if is_reached(hunks, rows, toggle) {
        visible_hunk(toggle)->0
    } else {
        row_hunk(toggle)
    }
}

/// Toggling a visible hunk expands it if no visible hunk is expanded in its rows: all the
/// expanded hunks stay, and it is the one to be expanded.
pub proof fn toggle_expands_what_is_collapsed(
    hunks: Seq<ExpandedHunk>,
    rows: Seq<Range<DisplayRow>>,
    toggle: SnapshotHunk,
)
    requires
        visible_hunk(toggle) is Some,
        forall|i: int|
            #![trigger rows[i]]
            0 <= i < hunks.len() && !hunks[i].folded ==> shown_rows(toggle) != Some(rows[i]),
    ensures
        toggled(hunks, rows, seq![toggle]).kept == hunks,
        toggled(hunks, rows, seq![toggle]).collapsed == Seq::<ExpandedHunk>::empty(),
        hunks_to_expand(hunks, rows, seq![toggle]) == seq![expansion_of(hunks, rows, toggle)],
{
    let toggles = seq![toggle];
    assert forall|i: int| 0 <= i < hunks.len() implies !#[trigger] is_toggled(
        hunks,
        rows,
        toggles,
        i,
    ) by {
        if is_toggled(hunks, rows, toggles, i) {
            let k = choose|k: int|
                0 <= k < toggles.len() && collapses(#[trigger] toggles[k], rows[i]);
            assert(toggles[k] == toggle);
        }
    }
    toggling_others_collapses_nothing(hunks, rows, toggles);
    lemma_expands_one(hunks, rows, toggle, hunks.len());
    assert(hunks.take(hunks.len() as int) =~= hunks);
    assert(toggles.skip(1) =~= Seq::empty());
    assert(toggles.skip(0) =~= toggles);
    assert(hunks_to_expand(hunks, rows, toggles) =~= seq![expansion_of(hunks, rows, toggle)]);
}

proof fn lemma_expands_one(
    hunks: Seq<ExpandedHunk>,
    rows: Seq<Range<DisplayRow>>,
    toggle: SnapshotHunk,
    count: nat,
)
    requires
        count <= hunks.len(),
        visible_hunk(toggle) is Some,
        forall|i: int|
            #![trigger rows[i]]
            0 <= i < hunks.len() && !hunks[i].folded ==> shown_rows(toggle) != Some(rows[i]),
    ensures
        ({
            let outcome = toggle_outcome(hunks, rows, seq![toggle], count);
            if is_reached(hunks.take(count as int), rows, toggle) {
                outcome.next == 1 && outcome.expand == seq![visible_hunk(toggle)->0]
            } else {
                outcome.next == 0 && outcome.expand == Seq::<HoveredHunk>::empty()
            }
        }),
    decreases count,
{
    let toggles = seq![toggle];
    if count > 0 {
        let last = count - 1;
        lemma_expands_one(hunks, rows, toggle, last as nat);
        let before = toggle_outcome(hunks, rows, toggles, last as nat);
        let outcome = toggle_outcome(hunks, rows, toggles, count);
        let fewer = hunks.take(last);
        let more = hunks.take(count as int);
        assert(toggles[0] == toggle);
        assert(toggles.subrange(0, 0) =~= Seq::empty());
        assert(toggles.subrange(1, 1) =~= Seq::empty());
        assert(visible_hunks(toggles, 0, 0) =~= Seq::empty());
        assert(visible_hunks(toggles, 1, 1) =~= Seq::empty());
        assert(toggles.subrange(0, 1).drop_last() =~= Seq::empty());
        assert(toggles.subrange(0, 1).last() == toggle);
        assert(visible_hunks(toggles, 0, 1) =~= seq![visible_hunk(toggle)->0]);
        assert(shown_rows(toggle) != Some(rows[last]) || hunks[last].folded);
        if is_reached(fewer, rows, toggle) {
            let i = choose|i: int|
                0 <= i < fewer.len() && !fewer[i].folded && !lies_past(toggle, #[trigger] rows[i]);
            assert(more[i] == fewer[i]);
            assert(!more[i].folded && !lies_past(toggle, rows[i]));
            assert(is_reached(more, rows, toggle));
            assert(outcome.expand =~= before.expand);
        } else if !hunks[last].folded && !lies_past(toggle, rows[last]) {
            assert(more[last] == hunks[last]);
            assert(is_reached(more, rows, toggle));
            assert(scan_end(toggles, 1, rows[last]) == 1);
            assert(scan_end(toggles, 0, rows[last]) == 1);
            assert(outcome.expand =~= seq![visible_hunk(toggle)->0]);
        } else {
            if is_reached(more, rows, toggle) {
                let i = choose|i: int|
                    0 <= i < more.len() && !more[i].folded && !lies_past(
                        toggle,
                        #[trigger] rows[i],
                    );
                assert(i < last);
                assert(fewer[i] == more[i]);
            }
            assert(outcome.expand =~= before.expand);
        }
    } else {
        assert(!is_reached(hunks.take(0), rows, toggle));
    }
}

/// Where the menu of a hunk offers to collapse it, toggling the hunk does collapse it, and
/// the menu no longer offers it: as long as the hunk is visible, and those visible before it
/// in the list end above its first row.
pub proof fn offered_collapse_takes_place(
    hunks: Seq<ExpandedHunk>,
    range: Range<Anchor>,
    shown: spec_fn(Range<Anchor>) -> Range<DisplayRow>,
    toggle: SnapshotHunk,
)
    requires
        is_expanded(hunks, range),
        shown(range).start.0 <= shown(range).end.0,
        forall|i: int, j: int|
            #![trigger hunks[i], hunks[j]]
            0 <= i < j < hunks.len() && !hunks[i].folded && !hunks[j].folded && hunks[j].hunk_range
                == range ==> shown(hunks[i].hunk_range).end.0 < shown(range).start.0,
        shown_rows(toggle) == Some(shown(range)),
    ensures
        ({
            let outcome = toggled(hunks, rows_in(hunks, shown), seq![toggle]);
            &&& outcome.collapsed.len() == 1
            &&& outcome.collapsed[0].hunk_range == range
            &&& !is_expanded(outcome.kept, range)
        }),
{
    let index = choose|i: int|
        0 <= i < hunks.len() && !(#[trigger] hunks[i]).folded && hunks[i].hunk_range == range;
    let rest = hunks.remove(index);
    assert(rest.insert(index, hunks[index]) =~= hunks);
    assert forall|i: int| 0 <= i < index && !(#[trigger] rest[i]).folded implies shown(
        rest[i].hunk_range,
    ).end.0 < shown(range).start.0 by {
        assert(rest[i] == hunks[i]);
    }
    toggle_undoes_expansion(rest, index, hunks[index], shown, toggle);
    if is_expanded(rest, range) {
        let i = choose|i: int|
            0 <= i < rest.len() && !(#[trigger] rest[i]).folded && rest[i].hunk_range == range;
        let j = if i < index {
            i
        } else {
            i + 1
        };
        assert(hunks[j] == rest[i]);
    }
}

/// Whether no two visible expanded hunks start in the same row of the screen.
pub open spec fn starts_differ(hunks: Seq<ExpandedHunk>, rows: Seq<Range<DisplayRow>>) -> bool {
    &&& rows.len() == hunks.len()
    &&& forall|i: int, j: int|
        #![trigger rows[i], rows[j]]
        0 <= i < j < hunks.len() && !hunks[i].folded && !hunks[j].folded ==> rows[i].start
            != rows[j].start
}

/// The end of each visible expanded hunk can be found by its start.
proof fn lemma_row_ends(hunks: Seq<ExpandedHunk>, rows: Seq<Range<DisplayRow>>, count: nat)
    requires
        starts_differ(hunks, rows),
        count <= hunks.len(),
    ensures
        forall|i: int|
            #![trigger rows[i]]
            0 <= i < count && !hunks[i].folded ==> expanded_row_ends(hunks, rows, count).get(
                rows[i].start.0,
            ) == Some(rows[i].end.0),
    decreases count,
{
    if count > 0 {
        lemma_row_ends(hunks, rows, (count - 1) as nat);
        let ends = expanded_row_ends(hunks, rows, count);
        assert forall|i: int|
            #![trigger rows[i]]
            0 <= i < count && !hunks[i].folded implies ends.contains_key(rows[i].start.0)
            && ends[rows[i].start.0] == rows[i].end.0 by {
            if i < count - 1 && !hunks[count - 1].folded {
                assert(rows[i].start != rows[count - 1].start);
            }
        }
    }
}

/// Expanding all hunks collapses none, if no two visible expanded hunks start in the same
/// row. The hunks to toggle are hunks of the diff that were found not to be expanded,
/// visible where they were found, or hidden.
pub proof fn expanding_all_collapses_nothing(
    hunks: Seq<ExpandedHunk>,
    rows: Seq<Range<DisplayRow>>,
    diff: Seq<PlacedHunk>,
    toggles: Seq<SnapshotHunk>,
)
    requires
        starts_differ(hunks, rows),
        forall|k: int|
            #![trigger toggles[k]]
            0 <= k < toggles.len() && shown_rows(toggles[k]) is Some ==> exists|d: int|
                0 <= d < diff.len() && unless_expanded(
                    #[trigger] diff[d],
                    expanded_row_ends(hunks, rows, hunks.len()),
                ) is Some && shown_rows(toggles[k]) == Some(diff[d].display_rows),
    ensures
        toggled(hunks, rows, toggles).kept == hunks,
        toggled(hunks, rows, toggles).collapsed == Seq::<ExpandedHunk>::empty(),
{
    let ends = expanded_row_ends(hunks, rows, hunks.len());
    lemma_row_ends(hunks, rows, hunks.len());
    assert forall|i: int| 0 <= i < hunks.len() implies !#[trigger] is_toggled(
        hunks,
        rows,
        toggles,
        i,
    ) by {
        if is_toggled(hunks, rows, toggles, i) {
            let k = choose|k: int|
                0 <= k < toggles.len() && collapses(#[trigger] toggles[k], rows[i]);
            let d = choose|d: int|
                0 <= d < diff.len() && unless_expanded(#[trigger] diff[d], ends) is Some
                    && shown_rows(toggles[k]) == Some(diff[d].display_rows);
            assert(diff[d].display_rows == rows[i]);
        }
    }
    toggling_others_collapses_nothing(hunks, rows, toggles);
}

/// Whether a visible expanded hunk is shown in exactly the given rows.
pub open spec fn is_shown_in(
    hunks: Seq<ExpandedHunk>,
    rows: Seq<Range<DisplayRow>>,
    shown: Range<DisplayRow>,
) -> bool {
    exists|i: int| 0 <= i < hunks.len() && !hunks[i].folded && #[trigger] rows[i] == shown
}

/// Once all the hunks of the diff are expanded, expanding all hunks finds none to expand.
pub proof fn expanding_all_again_finds_nothing(
    hunks: Seq<ExpandedHunk>,
    rows: Seq<Range<DisplayRow>>,
    diff: Seq<PlacedHunk>,
)
    requires
        starts_differ(hunks, rows),
        forall|d: int|
            0 <= d < diff.len() ==> is_shown_in(hunks, rows, (#[trigger] diff[d]).display_rows),
    ensures
        unexpanded_hunks(hunks, rows, diff) == Seq::<DiffHunk>::empty(),
{
    let ends = expanded_row_ends(hunks, rows, hunks.len());
    lemma_row_ends(hunks, rows, hunks.len());
    assert forall|d: int| 0 <= d < diff.len() implies unless_expanded(
        #[trigger] diff[d],
        ends,
    ) is None by {
        assert(is_shown_in(hunks, rows, diff[d].display_rows));
        let i = choose|i: int|
            0 <= i < hunks.len() && !hunks[i].folded && #[trigger] rows[i] == diff[d].display_rows;
        assert(rows[i].start.0 == diff[d].display_rows.start.0);
    }
    lemma_filter_map_none(diff, |hunk: PlacedHunk| unless_expanded(hunk, ends));
}

proof fn lemma_filter_map_none<A, B>(elements: Seq<A>, f: spec_fn(A) -> Option<B>)
    requires
        forall|i: int| 0 <= i < elements.len() ==> f(#[trigger] elements[i]) is None,
    ensures
        elements.filter_map(f) == Seq::<B>::empty(),
    decreases elements.len(),
{
    if elements.len() > 0 {
        assert forall|i: int| 0 <= i < elements.drop_last().len() implies f(
            #[trigger] elements.drop_last()[i],
        ) is None by {
            assert(elements.drop_last()[i] == elements[i]);
        }
        lemma_filter_map_none(elements.drop_last(), f);
        assert(f(elements.last()) is None);
    }
}

} // verus!
