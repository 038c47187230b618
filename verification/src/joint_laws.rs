//! What holds of several steps in a row: of toggling, synchronizing and expanding hunks, each
//! on top of what the one before has led to.
use std::ops::Range;
use vstd::prelude::*;

use crate::anchor::{Anchor, BufferId, DisplayRow};
use crate::diff_base::BufferState;
use crate::editor::{expanded_row_ends, unexpanded_hunks, unless_expanded, PlacedHunk};
use crate::effect::EffectView;
use crate::expand::{
    expanded_hunk, first_step, fits_at, has_same, in_order, lemma_fits_at_once,
    pending_expansion, placed_block, placement_at, ExpandStep, Placement,
};
use crate::expand_laws::{
    expansion_finds_the_old_place, expansion_keeps_order, sorted_hunks_are_in_order,
    starts_relative_to,
};
use crate::expanded::{blocks_of, ranges_of, ModelId};
use crate::hunk::{CustomBlockId, DiffHunk, ExpandedHunk, HoveredHunk, SnapshotHunk};
use crate::order::sorted_by;
use crate::sync::{
    deciding_hunk, hunks_in_buffer, is_unchanged, starts_in, sync_effects, sync_outcome,
    sync_verdict, synced, SyncVerdict,
};
use crate::sync_laws::{
    buffer_rows_apart, diff_in_order, has_fold, is_visible_in, lemma_deciding_hunk, may_stay,
    still_in_diff, sync_keeps_nothing_outdated, sync_keeps_order, sync_reexpands_hunks_of_the_diff,
    sync_with_unchanged_diff_changes_nothing, touches,
};
use crate::toggle::{
    hunks_to_expand, row_hunk, shown_rows, toggle_effects, toggled, visible_hunk,
};
use crate::toggle_laws::{
    expanding_all_again_finds_nothing, expansion_of, is_shown_in, rows_in, starts_differ,
    toggle_expands_what_is_collapsed, toggle_undoes_expansion, toggling_nothing_changes_nothing,
};

verus! {

/// The blocks of a single hunk: its own, if it has one.
pub open spec fn block_set(block: Option<CustomBlockId>) -> Set<CustomBlockId> {
    match block {
        Some(block) => Set::empty().insert(block),
        None => Set::empty(),
    }
}

proof fn lemma_blocks_of_one(hunk: ExpandedHunk)
    ensures
        blocks_of(seq![hunk]) == block_set(hunk.block),
{
    let one = seq![hunk];
    assert(one[0] == hunk);
    assert forall|block: CustomBlockId| #[trigger] blocks_of(one).contains(block) <==> hunk.block
        == Some(block) by {
        if hunk.block == Some(block) {
            assert(one[0].block == Some(block));
        }
    }
    assert(blocks_of(one) =~= block_set(hunk.block));
}

proof fn lemma_blocks_of_none()
    ensures
        blocks_of(Seq::<ExpandedHunk>::empty()) == Set::<CustomBlockId>::empty(),
{
    assert(blocks_of(Seq::<ExpandedHunk>::empty()) =~= Set::<CustomBlockId>::empty());
}

/// Toggling a hunk twice changes nothing. The first time, the hunk is visible, and no visible
/// hunk is expanded in its rows; `rows` are those in which the expanded hunks are shown. It is
/// then the one that is expanded, at a place into which it fits. The second time, `shown`
/// tells the rows in which each range of the text is shown. The hunk is still visible in its
/// rows, these touch those of no other visible expanded hunk, and what is expanded before it
/// in the text does not start below it on the screen. Then the second time takes the hunk
/// back: the expanded hunks are those that there were. The one block that was inserted for it,
/// if there was one, is removed, and no highlight but its own is cleared.
pub proof fn toggling_twice_changes_nothing(
    hunks: Seq<ExpandedHunk>,
    rows: Seq<Range<DisplayRow>>,
    first: SnapshotHunk,
    placement: Placement,
    new_block_ids: Seq<CustomBlockId>,
    shown: spec_fn(Range<Anchor>) -> Range<DisplayRow>,
    second: SnapshotHunk,
    position: spec_fn(Anchor) -> int,
)
    requires
        sorted_by(hunks, position),
        // The first time.
        visible_hunk(first) is Some,
        forall|i: int|
            #![trigger rows[i]]
            0 <= i < hunks.len() && !hunks[i].folded ==> shown_rows(first) != Some(rows[i]),
        // The expansion that it leads to.
        placement.hunk == expansion_of(hunks, rows, first),
        fits_at(
            starts_relative_to(hunks, placement.hunk.multi_buffer_range.start, position),
            placement.index as int,
        ),
        // The second time.
        shown_rows(second) == Some(shown(placement.hunk.multi_buffer_range)),
        shown_rows(second)->0.start.0 <= shown_rows(second)->0.end.0,
        forall|i: int|
            0 <= i < hunks.len() && !(#[trigger] hunks[i]).folded ==> !touches(
                shown(hunks[i].hunk_range),
                second,
            ),
        forall|i: int|
            #![trigger hunks[i]]
            0 <= i < hunks.len() && !hunks[i].folded && position(hunks[i].hunk_range.start)
                < position(placement.hunk.multi_buffer_range.start) ==> shown(
                hunks[i].hunk_range,
            ).start.0 <= shown_rows(second)->0.start.0,
    ensures
        toggled(hunks, rows, seq![first]).kept == hunks,
        toggle_effects(hunks, rows, seq![first]) == seq![
            EffectView::RemoveBlocks { blocks: Set::empty() },
            EffectView::Expand { diff_base_buffer: None, hunk: placement.hunk },
            EffectView::Notify,
        ],
        ({
            let block = placed_block(placement, new_block_ids);
            let after = hunks.insert(placement.index as int, expanded_hunk(placement.hunk, block));
            &&& toggled(after, rows_in(after, shown), seq![second]).kept == hunks
            &&& toggle_effects(after, rows_in(after, shown), seq![second]) == seq![
                EffectView::ClearHighlight { rows: placement.hunk.multi_buffer_range },
                EffectView::RemoveBlocks { blocks: block_set(block) },
                EffectView::Notify,
            ]
        }),
{
    let hunk = placement.hunk;
    let index = placement.index as int;
    let start = hunk.multi_buffer_range.start;
    let starts = starts_relative_to(hunks, start, position);
    let block = placed_block(placement, new_block_ids);
    let entry = expanded_hunk(hunk, block);
    let after = hunks.insert(index, entry);

    toggle_expands_what_is_collapsed(hunks, rows, first);
    lemma_blocks_of_none();
    assert(toggle_effects(hunks, rows, seq![first]) =~= seq![
        EffectView::RemoveBlocks { blocks: Set::empty() },
        EffectView::Expand { diff_base_buffer: None, hunk },
        EffectView::Notify,
    ]);

    sorted_hunks_are_in_order(hunks, start, position);
    lemma_fits_at_once(starts, index);
    assert forall|i: int| 0 <= i < index && !(#[trigger] hunks[i]).folded implies shown(
        hunks[i].hunk_range,
    ).end.0 < shown(entry.hunk_range).start.0 by {
        assert(starts[i] is Before);
        assert(!touches(shown(hunks[i].hunk_range), second));
    }
    toggle_undoes_expansion(hunks, index, entry, shown, second);
    lemma_blocks_of_one(entry);
    assert(toggle_effects(after, rows_in(after, shown), seq![second]) =~= seq![
        EffectView::ClearHighlight { rows: hunk.multi_buffer_range },
        EffectView::RemoveBlocks { blocks: block_set(block) },
        EffectView::Notify,
    ]);
}

/// Whether a hunk takes its place among the expanded ones, with whatever block: `after` is
/// what there is then.
pub open spec fn takes_place(
    before: Seq<ExpandedHunk>,
    hunk: HoveredHunk,
    after: Seq<ExpandedHunk>,
    position: spec_fn(Anchor) -> int,
) -> bool {
    exists|index: int, block: Option<CustomBlockId>|
        #![trigger before.insert(index, expanded_hunk(hunk, block))]
        fits_at(starts_relative_to(before, hunk.multi_buffer_range.start, position), index)
            && after == before.insert(index, expanded_hunk(hunk, block))
}

/// Whether `states` are what there is among the expanded hunks while `hunks` are expanded, one
/// after the other. Each takes its place or is ignored; none is ignored if `all` is set.
pub open spec fn expanded_in_turn(
    states: Seq<Seq<ExpandedHunk>>,
    hunks: Seq<HoveredHunk>,
    all: bool,
    position: spec_fn(Anchor) -> int,
) -> bool {
    &&& states.len() == hunks.len() + 1
    &&& forall|i: int|
        #![trigger hunks[i]]
        0 <= i < hunks.len() ==> takes_place(states[i], hunks[i], states[i + 1], position) || (!all
            && states[i + 1] == states[i])
}

/// Whether an expanded hunk was there from the start, or is one of the first `count` of
/// `hunks`, expanded.
spec fn comes_from(
    entry: ExpandedHunk,
    start: Seq<ExpandedHunk>,
    hunks: Seq<HoveredHunk>,
    count: int,
) -> bool {
    ||| start.contains(entry)
    ||| exists|k: int| 0 <= k < count && entry == expanded_hunk(#[trigger] hunks[k], entry.block)
}

proof fn lemma_takes_place(
    before: Seq<ExpandedHunk>,
    hunk: HoveredHunk,
    after: Seq<ExpandedHunk>,
    position: spec_fn(Anchor) -> int,
)
    requires
        takes_place(before, hunk, after, position),
    ensures
        after.len() == before.len() + 1,
        sorted_by(before, position) ==> sorted_by(after, position),
        forall|i: int|
            0 <= i < after.len() ==> before.contains(#[trigger] after[i]) || after[i]
                == expanded_hunk(hunk, after[i].block),
        forall|i: int| 0 <= i < before.len() ==> after.contains(#[trigger] before[i]),
        exists|i: int|
            0 <= i < after.len() && #[trigger] after[i] == expanded_hunk(hunk, after[i].block),
{
    let (index, block) = choose|index: int, block: Option<CustomBlockId>|
        #![trigger before.insert(index, expanded_hunk(hunk, block))]
        fits_at(starts_relative_to(before, hunk.multi_buffer_range.start, position), index)
            && after == before.insert(index, expanded_hunk(hunk, block));
    if sorted_by(before, position) {
        expansion_keeps_order(before, hunk, block, index, position);
    }
    assert(after[index] == expanded_hunk(hunk, block));
    assert forall|i: int| 0 <= i < after.len() implies before.contains(#[trigger] after[i])
        || after[i] == expanded_hunk(hunk, after[i].block) by {
        if i < index {
            assert(after[i] == before[i]);
        } else if i > index {
            assert(after[i] == before[i - 1]);
        }
    }
    assert forall|i: int| 0 <= i < before.len() implies after.contains(#[trigger] before[i]) by {
        if i < index {
            assert(after[i] == before[i]);
        } else {
            assert(after[i + 1] == before[i]);
        }
    }
}

proof fn lemma_in_turn(
    states: Seq<Seq<ExpandedHunk>>,
    hunks: Seq<HoveredHunk>,
    all: bool,
    position: spec_fn(Anchor) -> int,
    count: nat,
)
    requires
        expanded_in_turn(states, hunks, all, position),
        count <= hunks.len(),
    ensures
        sorted_by(states[0], position) ==> sorted_by(states[count as int], position),
        forall|i: int|
            0 <= i < states[count as int].len() ==> comes_from(
                #[trigger] states[count as int][i],
                states[0],
                hunks,
                count as int,
            ),
        all ==> {
            &&& states[count as int].len() == states[0].len() + count
            &&& forall|k: int|
                0 <= k < count ==> has_entry(states[count as int], #[trigger] hunks[k])
        },
    decreases count,
{
    let after = states[count as int];
    if count > 0 {
        let last = count - 1;
        lemma_in_turn(states, hunks, all, position, last as nat);
        let before = states[last];
        let hunk = hunks[last];
        if takes_place(before, hunk, after, position) {
            lemma_takes_place(before, hunk, after, position);
        }
        assert forall|i: int| 0 <= i < after.len() implies comes_from(
            #[trigger] after[i],
            states[0],
            hunks,
            count as int,
        ) by {
            if before.contains(after[i]) {
                let j = choose|j: int| 0 <= j < before.len() && before[j] == after[i];
                assert(comes_from(before[j], states[0], hunks, last));
            } else {
                assert(after[i] == expanded_hunk(hunks[last], after[i].block));
            }
        }
        if all {
            assert forall|k: int| 0 <= k < count implies has_entry(after, #[trigger] hunks[k]) by {
                if k < last {
                    assert(has_entry(before, hunks[k]));
                    let i = choose|i: int|
                        0 <= i < before.len() && #[trigger] before[i] == expanded_hunk(
                            hunks[k],
                            before[i].block,
                        );
                    let j = choose|j: int| 0 <= j < after.len() && after[j] == before[i];
                    assert(after[j] == expanded_hunk(hunks[k], after[j].block));
                }
            }
        }
    } else {
        assert forall|i: int| 0 <= i < after.len() implies comes_from(
            #[trigger] after[i],
            states[0],
            hunks,
            0,
        ) by {
            assert(states[0].contains(after[i]));
        }
    }
}

/// Whether one of the expanded hunks is the given hunk, visible, with whatever block.
pub open spec fn has_entry(hunks: Seq<ExpandedHunk>, hunk: HoveredHunk) -> bool {
    exists|i: int|
        0 <= i < hunks.len() && #[trigger] hunks[i] == expanded_hunk(hunk, hunks[i].block)
}

/// Whether an expanded hunk is the given hunk of the diff as its rows give it, visible, with
/// whatever block.
pub open spec fn is_entry_of(entry: ExpandedHunk, hunk: SnapshotHunk) -> bool {
    entry == expanded_hunk(row_hunk(hunk), entry.block)
}

/// Whether an expanded hunk is some hunk of the diff.
pub open spec fn is_entry_of_some(entry: ExpandedHunk, diff: Seq<SnapshotHunk>) -> bool {
    exists|k: int| 0 <= k < diff.len() && is_entry_of(entry, #[trigger] diff[k])
}

/// Whether some expanded hunk is the given hunk of the diff.
pub open spec fn has_entry_of(hunks: Seq<ExpandedHunk>, hunk: SnapshotHunk) -> bool {
    exists|i: int| 0 <= i < hunks.len() && is_entry_of(#[trigger] hunks[i], hunk)
}

/// Whether there is exactly one visible expanded hunk for each hunk of a diff, and no other.
pub open spec fn one_entry_each(hunks: Seq<ExpandedHunk>, diff: Seq<SnapshotHunk>) -> bool {
    &&& hunks.len() == diff.len()
    &&& forall|i: int| 0 <= i < hunks.len() ==> #[trigger] is_entry_of_some(hunks[i], diff)
    &&& forall|k: int| 0 <= k < diff.len() ==> #[trigger] has_entry_of(hunks, diff[k])
    &&& forall|i: int, j: int, k: int|
        0 <= i < hunks.len() && 0 <= j < hunks.len() && 0 <= k < diff.len()
            && #[trigger] is_entry_of(hunks[i], diff[k]) && #[trigger] is_entry_of(
            hunks[j],
            diff[k],
        ) ==> i == j
}

/// From no expanded hunk at all, expanding the hunks of a diff by their rows, each of which
/// takes its place, leads to one expanded hunk for each.
proof fn lemma_one_entry_each(
    states: Seq<Seq<ExpandedHunk>>,
    toggles: Seq<SnapshotHunk>,
    position: spec_fn(Anchor) -> int,
)
    requires
        expanded_in_turn(
            states,
            toggles.map_values(|hunk: SnapshotHunk| row_hunk(hunk)),
            true,
            position,
        ),
        states[0] == Seq::<ExpandedHunk>::empty(),
    ensures
        one_entry_each(states.last(), toggles),
{
    let to_expand = toggles.map_values(|hunk: SnapshotHunk| row_hunk(hunk));
    let hunks = states.last();
    lemma_in_turn(states, to_expand, true, position, to_expand.len());
    assert(sorted_by(states[0], position));
    assert forall|i: int| 0 <= i < hunks.len() implies #[trigger] is_entry_of_some(
        hunks[i],
        toggles,
    ) by {
        assert(comes_from(hunks[i], states[0], to_expand, to_expand.len() as int));
        let k = choose|k: int|
            0 <= k < to_expand.len() && hunks[i] == expanded_hunk(
                #[trigger] to_expand[k],
                hunks[i].block,
            );
        assert(is_entry_of(hunks[i], toggles[k]));
    }
    assert forall|k: int| 0 <= k < toggles.len() implies #[trigger] has_entry_of(
        hunks,
        toggles[k],
    ) by {
        assert(has_entry(hunks, to_expand[k]));
        let i = choose|i: int|
            0 <= i < hunks.len() && #[trigger] hunks[i] == expanded_hunk(
                to_expand[k],
                hunks[i].block,
            );
        assert(is_entry_of(hunks[i], toggles[k]));
    }
    let ranges = ranges_of(hunks);
    assert forall|i: int, j: int, k: int|
        0 <= i < hunks.len() && 0 <= j < hunks.len() && 0 <= k < toggles.len()
            && #[trigger] is_entry_of(hunks[i], toggles[k]) && #[trigger] is_entry_of(
            hunks[j],
            toggles[k],
        ) implies i == j by {
        assert(ranges[i] == ranges[j]);
    }
}

/// With one expanded hunk for each hunk of the diff, no hunk is found that is not expanded.
proof fn lemma_nothing_unexpanded(
    hunks: Seq<ExpandedHunk>,
    toggles: Seq<SnapshotHunk>,
    shown: spec_fn(Range<Anchor>) -> Range<DisplayRow>,
    diff: Seq<PlacedHunk>,
)
    requires
        one_entry_each(hunks, toggles),
        diff.len() == toggles.len(),
        forall|k: int|
            #![trigger diff[k]]
            0 <= k < diff.len() ==> diff[k].display_rows == shown(toggles[k].row_anchors),
        forall|k: int, l: int|
            #![trigger diff[k], diff[l]]
            0 <= k < l < diff.len() ==> diff[k].display_rows.start != diff[l].display_rows.start,
    ensures
        unexpanded_hunks(hunks, rows_in(hunks, shown), diff) == Seq::<DiffHunk>::empty(),
{
    let rows = rows_in(hunks, shown);
    assert forall|i: int, j: int|
        #![trigger rows[i], rows[j]]
        0 <= i < j < hunks.len() && !hunks[i].folded && !hunks[j].folded implies rows[i].start
        != rows[j].start by {
        assert(is_entry_of_some(hunks[i], toggles) && is_entry_of_some(hunks[j], toggles));
        let k = choose|k: int|
            0 <= k < toggles.len() && is_entry_of(hunks[i], #[trigger] toggles[k]);
        let l = choose|l: int|
            0 <= l < toggles.len() && is_entry_of(hunks[j], #[trigger] toggles[l]);
        assert(rows[i] == diff[k].display_rows);
        assert(rows[j] == diff[l].display_rows);
        assert(k != l) by {
            if k == l {
                assert(is_entry_of(hunks[j], toggles[k]));
            }
        }
    }
    assert(starts_differ(hunks, rows));
    assert forall|d: int| 0 <= d < diff.len() implies is_shown_in(
        hunks,
        rows,
        (#[trigger] diff[d]).display_rows,
    ) by {
        assert(has_entry_of(hunks, toggles[d]));
        let i = choose|i: int|
            0 <= i < hunks.len() && is_entry_of(#[trigger] hunks[i], toggles[d]);
        assert(!hunks[i].folded && rows[i] == diff[d].display_rows);
    }
    expanding_all_again_finds_nothing(hunks, rows, diff);
}

/// Expanding all hunks twice is as good as once. From no expanded hunk at all, the first time
/// toggles every hunk of the diff; `toggles` are these hunks as they are then. If each of them
/// takes its place, as `states` say, there is exactly one visible expanded hunk for each hunk
/// of the diff. The second time, `shown` tells the rows in which each range of the text is
/// shown, and no two hunks of the diff start in the same row. It finds no hunk to toggle, and
/// toggling none leaves the expanded hunks as they are, with nothing done on the screen but to
/// draw it.
pub proof fn expanding_all_twice_expands_once(
    diff: Seq<PlacedHunk>,
    toggles: Seq<SnapshotHunk>,
    states: Seq<Seq<ExpandedHunk>>,
    shown: spec_fn(Range<Anchor>) -> Range<DisplayRow>,
    diff_again: Seq<PlacedHunk>,
    position: spec_fn(Anchor) -> int,
)
    requires
        // The first time.
        toggles.map_values(|hunk: SnapshotHunk| hunk.hunk) == unexpanded_hunks(
            Seq::empty(),
            Seq::empty(),
            diff,
        ),
        states.len() > 0,
        states[0] == toggled(Seq::empty(), Seq::empty(), toggles).kept,
        expanded_in_turn(
            states,
            hunks_to_expand(Seq::empty(), Seq::empty(), toggles),
            true,
            position,
        ),
        // The second time.
        diff_again.len() == toggles.len(),
        forall|k: int|
            #![trigger diff_again[k]]
            0 <= k < diff_again.len() ==> diff_again[k].display_rows == shown(
                toggles[k].row_anchors,
            ),
        forall|k: int, l: int|
            #![trigger diff_again[k], diff_again[l]]
            0 <= k < l < diff_again.len() ==> diff_again[k].display_rows.start
                != diff_again[l].display_rows.start,
    ensures
        toggles.len() == diff.len(),
        forall|k: int| 0 <= k < diff.len() ==> toggles[k].hunk == (#[trigger] diff[k]).hunk,
        one_entry_each(states.last(), toggles),
        ({
            let hunks = states.last();
            let rows = rows_in(hunks, shown);
            &&& unexpanded_hunks(hunks, rows, diff_again) == Seq::<DiffHunk>::empty()
            &&& toggled(hunks, rows, Seq::empty()).kept == hunks
            &&& toggle_effects(hunks, rows, Seq::empty()) == seq![
                EffectView::RemoveBlocks { blocks: Set::empty() },
                EffectView::Notify,
            ]
        }),
{
    let none = Seq::<ExpandedHunk>::empty();
    let no_rows = Seq::<Range<DisplayRow>>::empty();
    let ends = expanded_row_ends(none, no_rows, 0);
    lemma_filter_map_all(
        diff,
        |hunk: PlacedHunk| unless_expanded(hunk, ends),
        |hunk: PlacedHunk| hunk.hunk,
    );
    let requested = unexpanded_hunks(none, no_rows, diff);
    assert(requested == diff.map_values(|hunk: PlacedHunk| hunk.hunk));
    assert(toggles.map_values(|hunk: SnapshotHunk| hunk.hunk).len() == toggles.len());
    assert forall|k: int| 0 <= k < diff.len() implies toggles[k].hunk == (
    #[trigger] diff[k]).hunk by {
        assert(requested[k] == diff[k].hunk);
        assert(toggles.map_values(|hunk: SnapshotHunk| hunk.hunk)[k] == toggles[k].hunk);
    }

    let to_expand = hunks_to_expand(none, no_rows, toggles);
    assert(toggles.skip(0) =~= toggles);
    assert(to_expand =~= toggles.map_values(|hunk: SnapshotHunk| row_hunk(hunk)));
    let hunks = states.last();
    let rows = rows_in(hunks, shown);
    lemma_one_entry_each(states, toggles, position);
    lemma_nothing_unexpanded(hunks, toggles, shown, diff_again);
    toggling_nothing_changes_nothing(hunks, rows);
    lemma_blocks_of_none();
    assert(toggle_effects(hunks, rows, Seq::empty()) =~= seq![
        EffectView::RemoveBlocks { blocks: Set::empty() },
        EffectView::Notify,
    ]);
}

proof fn lemma_filter_map_all<A, B>(
    elements: Seq<A>,
    f: spec_fn(A) -> Option<B>,
    g: spec_fn(A) -> B,
)
    requires
        forall|i: int|
            0 <= i < elements.len() ==> f(#[trigger] elements[i]) == Some(g(elements[i])),
    ensures
        elements.filter_map(f) == elements.map_values(g),
    decreases elements.len(),
{
    if elements.len() > 0 {
        let before = elements.drop_last();
        assert forall|i: int| 0 <= i < before.len() implies f(#[trigger] before[i]) == Some(
            g(before[i]),
        ) by {
            assert(before[i] == elements[i]);
        }
        lemma_filter_map_all(before, f, g);
        assert(f(elements[elements.len() - 1]) == Some(g(elements.last())));
    }
    assert(elements.filter_map(f) =~= elements.map_values(g));
}

/// Whether all the hunks of a diff are visible, each with what the diff says of it and in the
/// rows in which its text is shown.
pub open spec fn shown_as_diffed(
    diff: Seq<SnapshotHunk>,
    shown: spec_fn(Range<Anchor>) -> Range<DisplayRow>,
) -> bool {
    forall|k: int|
        #![trigger diff[k]]
        0 <= k < diff.len() ==> {
            &&& visible_hunk(diff[k]) is Some
            &&& shown_rows(diff[k]) == Some(shown(visible_hunk(diff[k])->0.multi_buffer_range))
            &&& visible_hunk(diff[k])->0.status == diff[k].status
            &&& visible_hunk(diff[k])->0.diff_base_byte_range == diff[k].hunk.diff_base_byte_range
        }
}

/// Whether two diffs have the same visible hunks, in whatever rows these are.
pub open spec fn same_but_for_rows(diff: Seq<SnapshotHunk>, other: Seq<SnapshotHunk>) -> bool {
    &&& diff.len() == other.len()
    &&& forall|k: int|
        #![trigger diff[k]]
        #![trigger other[k]]
        0 <= k < diff.len() ==> visible_hunk(diff[k]) == visible_hunk(other[k])
}

/// Whether the rows of the screen follow the order of the text: what does not start after
/// something else in the text does not start below it on the screen.
pub open spec fn follows_text(
    shown: spec_fn(Range<Anchor>) -> Range<DisplayRow>,
    position: spec_fn(Anchor) -> int,
) -> bool {
    forall|a: Range<Anchor>, b: Range<Anchor>|
        #![trigger shown(a), shown(b)]
        position(a.start) <= position(b.start) ==> shown(a).start.0 <= shown(b).start.0
}

/// Whether each visible hunk of the buffer that stays is, unchanged, the hunk of the diff at
/// the index in `indices`. These ascend and lie below `bound`.
spec fn matched(
    kept: Seq<ExpandedHunk>,
    indices: Seq<int>,
    diff: Seq<SnapshotHunk>,
    shown: spec_fn(Range<Anchor>) -> Range<DisplayRow>,
    buffer_id: BufferId,
    bound: int,
) -> bool {
    &&& indices.len() == kept.len()
    &&& forall|i: int|
        #![trigger kept[i]]
        0 <= i < kept.len() && starts_in(kept[i], buffer_id) && !kept[i].folded ==> 0 <= indices[i]
            < bound && is_unchanged(kept[i], shown(kept[i].hunk_range), diff[indices[i]])
    &&& forall|i: int, j: int|
        #![trigger kept[i], kept[j]]
        0 <= i < j < kept.len() && starts_in(kept[i], buffer_id) && !kept[i].folded && starts_in(
            kept[j],
            buffer_id,
        ) && !kept[j].folded ==> indices[i] < indices[j]
}

/// No two hunks of the buffer stay on account of the same hunk of the diff.
proof fn lemma_matched(
    hunks: Seq<ExpandedHunk>,
    shown: spec_fn(Range<Anchor>) -> Range<DisplayRow>,
    diff: Seq<SnapshotHunk>,
    buffer_id: BufferId,
    diff_base_unchanged: bool,
    count: nat,
) -> (indices: Seq<int>)
    requires
        count <= hunks.len(),
    ensures
        ({
            let after = sync_outcome(
                hunks,
                rows_in(hunks, shown),
                diff,
                buffer_id,
                diff_base_unchanged,
                count,
            );
            &&& 0 <= after.next <= diff.len()
            &&& matched(after.kept, indices, diff, shown, buffer_id, after.next)
        }),
    decreases count,
{
    let rows = rows_in(hunks, shown);
    let after = sync_outcome(hunks, rows, diff, buffer_id, diff_base_unchanged, count);
    if count == 0 {
        Seq::empty()
    } else {
        let last = count - 1;
        let before_indices = lemma_matched(
            hunks,
            shown,
            diff,
            buffer_id,
            diff_base_unchanged,
            last as nat,
        );
        let before = sync_outcome(hunks, rows, diff, buffer_id, diff_base_unchanged, last as nat);
        let hunk = hunks[last];
        lemma_deciding_hunk(hunk, rows[last], diff, before.next);
        let at = deciding_hunk(hunk, rows[last], diff, before.next);
        if after.kept.len() == before.kept.len() {
            assert(after.kept == before.kept);
            before_indices
        } else {
            let added = after.kept.last();
            assert(after.kept == before.kept.push(added));
            assert(starts_in(added, buffer_id) && !added.folded ==> at < after.next && is_unchanged(
                added,
                shown(added.hunk_range),
                diff[at],
            ));
            let indices = before_indices.push(at);
            assert forall|i: int|
                #![trigger after.kept[i]]
                0 <= i < after.kept.len() && starts_in(after.kept[i], buffer_id)
                    && !after.kept[i].folded implies 0 <= indices[i] < after.next && is_unchanged(
                after.kept[i],
                shown(after.kept[i].hunk_range),
                diff[indices[i]],
            ) by {
                if i < before.kept.len() {
                    assert(after.kept[i] == before.kept[i]);
                }
            }
            assert forall|i: int, j: int|
                #![trigger after.kept[i], after.kept[j]]
                0 <= i < j < after.kept.len() && starts_in(after.kept[i], buffer_id)
                    && !after.kept[i].folded && starts_in(after.kept[j], buffer_id)
                    && !after.kept[j].folded implies indices[i] < indices[j] by {
                assert(after.kept[i] == before.kept[i]);
                if j < before.kept.len() {
                    assert(after.kept[j] == before.kept[j]);
                }
            }
            indices
        }
    }
}

/// Whether an expanded hunk is, unchanged, the hunk of the diff at `k`, and was so before the
/// first synchronization, at `i` among those that it kept.
spec fn was_kept(
    entry: ExpandedHunk,
    kept: Seq<ExpandedHunk>,
    indices: Seq<int>,
    i: int,
    k: int,
) -> bool {
    0 <= i < kept.len() && kept[i] == entry && indices[i] == k
}

/// Synchronizing a buffer twice is as good as once. The first time, `shown` tells the rows in
/// which each range of the text is shown. What is to be expanded anew takes its place or is
/// ignored, as `states` say. The second time, nothing has changed but the rows, which
/// `shown_again` tells: they follow the order of the text, and a hunk that is, unchanged, one
/// of the diff is still shown in the rows of that one. All the hunks of the diff are visible,
/// and at least a row apart. Should one of them be expanded anew, and take a place, although an
/// expanded hunk is, unchanged, just this one, then that one starts where it does: else both
/// would be shown in the same rows, and the second time would take one of the two off. Then the
/// second time leaves the expanded hunks as they are, takes none off the screen and expands
/// none anew.
pub proof fn synchronizing_twice_changes_nothing_more(
    hunks: Seq<ExpandedHunk>,
    shown: spec_fn(Range<Anchor>) -> Range<DisplayRow>,
    diff: Seq<SnapshotHunk>,
    buffer_id: BufferId,
    diff_base_unchanged: bool,
    states: Seq<Seq<ExpandedHunk>>,
    shown_again: spec_fn(Range<Anchor>) -> Range<DisplayRow>,
    diff_again: Seq<SnapshotHunk>,
    diff_base_buffer: ModelId,
    position: spec_fn(Anchor) -> int,
)
    requires
        sorted_by(hunks, position),
        // The first time.
        shown_as_diffed(hunks_in_buffer(diff, buffer_id), shown),
        states.len() > 0,
        states[0] == synced(
            hunks,
            rows_in(hunks, shown),
            diff,
            buffer_id,
            diff_base_unchanged,
        ).kept,
        expanded_in_turn(
            states,
            synced(hunks, rows_in(hunks, shown), diff, buffer_id, diff_base_unchanged).reexpand,
            false,
            position,
        ),
        // The second time.
        same_but_for_rows(
            hunks_in_buffer(diff, buffer_id),
            hunks_in_buffer(diff_again, buffer_id),
        ),
        shown_as_diffed(hunks_in_buffer(diff_again, buffer_id), shown_again),
        diff_in_order(hunks_in_buffer(diff_again, buffer_id)),
        follows_text(shown_again, position),
        keeps_rows(hunks, shown, hunks_in_buffer(diff, buffer_id), buffer_id, shown_again),
        forall|i: int, k: int|
            #![trigger hunks[i], hunks_in_buffer(diff, buffer_id)[k]]
            0 <= i < hunks.len() && starts_in(hunks[i], buffer_id) && 0 <= k < hunks_in_buffer(
                diff,
                buffer_id,
            ).len() && is_unchanged(
                hunks[i],
                shown(hunks[i].hunk_range),
                hunks_in_buffer(diff, buffer_id)[k],
            ) && synced(
                hunks,
                rows_in(hunks, shown),
                diff,
                buffer_id,
                diff_base_unchanged,
            ).reexpand.contains(
                visible_hunk(hunks_in_buffer(diff, buffer_id)[k])->0,
            ) && has_entry(
                states.last(),
                visible_hunk(hunks_in_buffer(diff, buffer_id)[k])->0,
            ) ==> position(hunks[i].hunk_range.start) == position(
                visible_hunk(
                    hunks_in_buffer(diff, buffer_id)[k],
                )->0.multi_buffer_range.start,
            ),
    ensures
        ({
            let after = states.last();
            let outcome = synced(after, rows_in(after, shown_again), diff_again, buffer_id, true);
            &&& outcome.kept == after
            &&& outcome.released == Seq::<ExpandedHunk>::empty()
            &&& outcome.reexpand == Seq::<HoveredHunk>::empty()
            &&& sync_effects(outcome, Some(diff_base_buffer)) == seq![
                EffectView::RemoveBlocks { blocks: Set::empty() },
            ]
        }),
{
    let rows = rows_in(hunks, shown);
    let first_diff = hunks_in_buffer(diff, buffer_id);
    let second_diff = hunks_in_buffer(diff_again, buffer_id);
    let first = synced(hunks, rows, diff, buffer_id, diff_base_unchanged);
    let after = states.last();
    let rows_after = rows_in(after, shown_again);
    sync_keeps_nothing_outdated(hunks, rows, diff, buffer_id, diff_base_unchanged);
    sync_reexpands_hunks_of_the_diff(hunks, rows, diff, buffer_id, diff_base_unchanged);
    sync_keeps_order(hunks, rows, diff, buffer_id, diff_base_unchanged, position);
    lemma_in_turn(states, first.reexpand, false, position, first.reexpand.len());
    let indices = lemma_matched(
        hunks,
        shown,
        first_diff,
        buffer_id,
        diff_base_unchanged,
        hunks.len(),
    );
    assert(!has_fold(first_diff)) by {
        if has_fold(first_diff) {
            let k = choose|k: int|
                0 <= k < first_diff.len() && shown_rows(#[trigger] first_diff[k]) is None;
            assert(shown_rows(first_diff[k]) is Some);
        }
    }
    // Each hunk of the buffer is, unchanged, one of the diff, for one of two reasons.
    assert forall|i: int|
        #![trigger after[i]]
        0 <= i < after.len() && starts_in(after[i], buffer_id) implies is_settled(
        after[i],
        first.kept,
        indices,
        first.reexpand,
        second_diff,
        shown_again,
    ) by {
        let entry = after[i];
        assert(comes_from(entry, states[0], first.reexpand, first.reexpand.len() as int));
        if states[0].contains(entry) {
            let j = choose|j: int| 0 <= j < first.kept.len() && first.kept[j] == entry;
            assert(may_stay(hunks, rows, first.kept[j], first_diff, buffer_id));
            assert(!entry.folded);
            let l = choose|l: int|
                0 <= l < hunks.len() && entry == #[trigger] hunks[l] && still_in_diff(
                    entry,
                    rows[l],
                    first_diff,
                );
            let k = indices[j];
            assert(is_unchanged(entry, shown(entry.hunk_range), first_diff[k]));
            assert(is_unchanged(hunks[l], shown(hunks[l].hunk_range), first_diff[k]));
            assert(visible_hunk(first_diff[k]) == visible_hunk(second_diff[k]));
            assert(was_kept(entry, first.kept, indices, j, k));
            assert(is_unchanged(entry, shown_again(entry.hunk_range), second_diff[k]));
        } else {
            let m = choose|m: int|
                0 <= m < first.reexpand.len() && entry == expanded_hunk(
                    #[trigger] first.reexpand[m],
                    entry.block,
                );
            assert(is_visible_in(first.reexpand[m], first_diff));
            let k = choose|k: int|
                0 <= k < first_diff.len() && visible_hunk(#[trigger] first_diff[k]) == Some(
                    first.reexpand[m],
                );
            assert(visible_hunk(first_diff[k]) == visible_hunk(second_diff[k]));
            assert(is_expanded_as(entry, first.reexpand, second_diff[k]));
            assert(is_unchanged(entry, shown_again(entry.hunk_range), second_diff[k]));
        }
    }
    // One that was kept as the same hunk of the diff as one expanded anew starts where it does.
    assert forall|i: int, j: int, k: int|
        #![trigger was_kept(after[i], first.kept, indices, j, k)]
        0 <= i < after.len() && starts_in(after[i], buffer_id) && 0 <= k < second_diff.len()
            && was_kept(after[i], first.kept, indices, j, k) && first.reexpand.contains(
            visible_hunk(second_diff[k])->0,
        ) && has_entry(after, visible_hunk(second_diff[k])->0) implies position(
        after[i].hunk_range.start,
    ) == position(visible_hunk(second_diff[k])->0.multi_buffer_range.start) by {
        let entry = after[i];
        assert(may_stay(hunks, rows, first.kept[j], first_diff, buffer_id));
        assert(!first.kept[j].folded);
        let l = choose|l: int|
            0 <= l < hunks.len() && entry == #[trigger] hunks[l] && still_in_diff(
                entry,
                rows[l],
                first_diff,
            );
        assert(visible_hunk(first_diff[k]) == visible_hunk(second_diff[k]));
        assert(is_unchanged(hunks[l], shown(hunks[l].hunk_range), first_diff[k]));
    }
    lemma_settled_apart(
        after,
        first.kept,
        indices,
        first.reexpand,
        second_diff,
        buffer_id,
        shown,
        first_diff,
        shown_again,
        position,
    );
    assert forall|i: int|
        #![trigger after[i]]
        0 <= i < after.len() && starts_in(after[i], buffer_id) implies still_in_diff(
        after[i],
        rows_after[i],
        second_diff,
    ) by {
        assert(is_settled(
            after[i],
            first.kept,
            indices,
            first.reexpand,
            second_diff,
            shown_again,
        ));
    }
    sync_with_unchanged_diff_changes_nothing(after, rows_after, diff_again, buffer_id);
    lemma_blocks_of_none();
    assert(sync_effects(
        synced(after, rows_after, diff_again, buffer_id, true),
        Some(diff_base_buffer),
    ) =~= seq![EffectView::RemoveBlocks { blocks: Set::empty() }]);
}

/// Whether each expanded hunk of a buffer that is, unchanged, one of the diff in the rows that
/// `shown` tells, is shown in the same rows as that one in those that `shown_again` tells.
pub open spec fn keeps_rows(
    hunks: Seq<ExpandedHunk>,
    shown: spec_fn(Range<Anchor>) -> Range<DisplayRow>,
    diff: Seq<SnapshotHunk>,
    buffer_id: BufferId,
    shown_again: spec_fn(Range<Anchor>) -> Range<DisplayRow>,
) -> bool {
    forall|i: int, k: int|
        #![trigger hunks[i], diff[k]]
        0 <= i < hunks.len() && starts_in(hunks[i], buffer_id) && 0 <= k < diff.len()
            && is_unchanged(hunks[i], shown(hunks[i].hunk_range), diff[k]) ==> shown_again(
            hunks[i].hunk_range,
        ) == shown_again(visible_hunk(diff[k])->0.multi_buffer_range)
}

/// Whether an expanded hunk is the given hunk of the diff, which was expanded anew.
spec fn is_expanded_as(
    entry: ExpandedHunk,
    reexpand: Seq<HoveredHunk>,
    hunk: SnapshotHunk,
) -> bool {
    &&& entry == expanded_hunk(visible_hunk(hunk)->0, entry.block)
    &&& reexpand.contains(visible_hunk(hunk)->0)
}

/// Whether an expanded hunk is, unchanged, a hunk of the diff, because it was kept as that one
/// or expanded anew as that one.
spec fn is_settled(
    entry: ExpandedHunk,
    kept: Seq<ExpandedHunk>,
    indices: Seq<int>,
    reexpand: Seq<HoveredHunk>,
    diff: Seq<SnapshotHunk>,
    shown: spec_fn(Range<Anchor>) -> Range<DisplayRow>,
) -> bool {
    exists|k: int|
        {
            &&& 0 <= k < diff.len()
            &&& is_unchanged(entry, shown(entry.hunk_range), #[trigger] diff[k])
            &&& is_expanded_as(entry, reexpand, diff[k]) || exists|i: int|
                #[trigger] was_kept(entry, kept, indices, i, k)
        }
}

/// Settled hunks are at least a row apart.
proof fn lemma_settled_apart(
    after: Seq<ExpandedHunk>,
    kept: Seq<ExpandedHunk>,
    indices: Seq<int>,
    reexpand: Seq<HoveredHunk>,
    diff: Seq<SnapshotHunk>,
    buffer_id: BufferId,
    shown_before: spec_fn(Range<Anchor>) -> Range<DisplayRow>,
    diff_before: Seq<SnapshotHunk>,
    shown: spec_fn(Range<Anchor>) -> Range<DisplayRow>,
    position: spec_fn(Anchor) -> int,
)
    requires
        sorted_by(after, position),
        follows_text(shown, position),
        diff_in_order(diff),
        matched(kept, indices, diff_before, shown_before, buffer_id, diff.len() as int),
        forall|i: int|
            #![trigger after[i]]
            0 <= i < after.len() && starts_in(after[i], buffer_id) ==> is_settled(
                after[i],
                kept,
                indices,
                reexpand,
                diff,
                shown,
            ),
        forall|i: int, j: int, k: int|
            #![trigger was_kept(after[i], kept, indices, j, k)]
            0 <= i < after.len() && starts_in(after[i], buffer_id) && 0 <= k < diff.len()
                && was_kept(after[i], kept, indices, j, k) && reexpand.contains(
                visible_hunk(diff[k])->0,
            ) && has_entry(after, visible_hunk(diff[k])->0) ==> position(
                after[i].hunk_range.start,
            ) == position(visible_hunk(diff[k])->0.multi_buffer_range.start),
    ensures
        buffer_rows_apart(after, rows_in(after, shown), buffer_id),
{
    let rows = rows_in(after, shown);
    let ranges = ranges_of(after);
    assert forall|i: int, j: int|
        #![trigger rows[i], rows[j]]
        0 <= i < j < after.len() && starts_in(after[i], buffer_id) && starts_in(
            after[j],
            buffer_id,
        ) implies rows[i].end.0 < rows[j].start.0 by {
        assert(is_settled(after[i], kept, indices, reexpand, diff, shown));
        assert(is_settled(after[j], kept, indices, reexpand, diff, shown));
        let k = choose|k: int|
            {
                &&& 0 <= k < diff.len()
                &&& is_unchanged(after[i], rows[i], #[trigger] diff[k])
                &&& is_expanded_as(after[i], reexpand, diff[k]) || exists|m: int|
                    #[trigger] was_kept(after[i], kept, indices, m, k)
            };
        let l = choose|l: int|
            {
                &&& 0 <= l < diff.len()
                &&& is_unchanged(after[j], rows[j], #[trigger] diff[l])
                &&& is_expanded_as(after[j], reexpand, diff[l]) || exists|m: int|
                    #[trigger] was_kept(after[j], kept, indices, m, l)
            };
        assert(ranges[i] == after[i].hunk_range && ranges[j] == after[j].hunk_range);
        assert(position(ranges[i].start) < position(ranges[j].start));
        assert(shown(ranges[i]).start.0 <= shown(ranges[j]).start.0);
        if k == l {
            let hunk = visible_hunk(diff[k])->0;
            if is_expanded_as(after[i], reexpand, diff[k]) {
                assert(has_entry(after, hunk)) by {
                    assert(after[i] == expanded_hunk(hunk, after[i].block));
                }
                if !is_expanded_as(after[j], reexpand, diff[k]) {
                    let m = choose|m: int| #[trigger] was_kept(after[j], kept, indices, m, k);
                    assert(was_kept(after[j], kept, indices, m, k));
                }
            } else {
                let m = choose|m: int| #[trigger] was_kept(after[i], kept, indices, m, k);
                assert(was_kept(after[i], kept, indices, m, k));
                if !is_expanded_as(after[j], reexpand, diff[k]) {
                    let n = choose|n: int| #[trigger] was_kept(after[j], kept, indices, n, k);
                    assert(kept[m] == after[i] && kept[n] == after[j]);
                    assert(m != n);
                } else {
                    assert(has_entry(after, hunk)) by {
                        assert(after[j] == expanded_hunk(hunk, after[j].block));
                    }
                }
            }
            assert(false);
        }
        if l < k {
            assert(shown_rows(diff[l])->0.end.0 < shown_rows(diff[k])->0.start.0);
        }
        assert(k < l);
        assert(shown_rows(diff[k])->0.end.0 < shown_rows(diff[l])->0.start.0);
    }
}

/// Whether a hunk that is expanded anew takes the place of an expanded hunk of the buffer that
/// touches it and has changed.
spec fn replaces_one(
    hunk: HoveredHunk,
    hunks: Seq<ExpandedHunk>,
    rows: Seq<Range<DisplayRow>>,
    diff: Seq<SnapshotHunk>,
    buffer_id: BufferId,
) -> bool {
    exists|i: int, k: int|
        #![trigger hunks[i], diff[k]]
        {
            &&& 0 <= i < hunks.len()
            &&& starts_in(hunks[i], buffer_id)
            &&& 0 <= k < diff.len()
            &&& visible_hunk(diff[k]) == Some(hunk)
            &&& touches(rows[i], diff[k])
            &&& !is_unchanged(hunks[i], rows[i], diff[k])
        }
}

proof fn lemma_replaces_one(
    hunks: Seq<ExpandedHunk>,
    rows: Seq<Range<DisplayRow>>,
    diff: Seq<SnapshotHunk>,
    buffer_id: BufferId,
    diff_base_unchanged: bool,
    count: nat,
)
    requires
        count <= hunks.len(),
    ensures
        ({
            let after = sync_outcome(hunks, rows, diff, buffer_id, diff_base_unchanged, count);
            &&& 0 <= after.next <= diff.len()
            &&& forall|m: int|
                0 <= m < after.reexpand.len() ==> replaces_one(
                    #[trigger] after.reexpand[m],
                    hunks,
                    rows,
                    diff,
                    buffer_id,
                )
        }),
    decreases count,
{
    if count > 0 {
        let last = count - 1;
        lemma_replaces_one(hunks, rows, diff, buffer_id, diff_base_unchanged, last as nat);
        let before = sync_outcome(hunks, rows, diff, buffer_id, diff_base_unchanged, last as nat);
        let hunk = hunks[last];
        lemma_deciding_hunk(hunk, rows[last], diff, before.next);
        let at = deciding_hunk(hunk, rows[last], diff, before.next);
        if starts_in(hunk, buffer_id) && diff_base_unchanged && sync_verdict(
            hunk,
            rows[last],
            diff,
            at,
        ) == SyncVerdict::Reexpand {
            assert(touches(rows[last], diff[at]));
            assert(replaces_one(visible_hunk(diff[at])->0, hunks, rows, diff, buffer_id));
        }
    }
}

/// Synchronizing a buffer twice is as good as once, wherever its expanded hunks are at least a
/// row apart before the first time: then no hunk of the diff is expanded anew of which one of
/// them is, unchanged, the expanded form, so that nothing is asked of where they start.
pub proof fn synchronizing_twice_what_is_apart_changes_nothing_more(
    hunks: Seq<ExpandedHunk>,
    shown: spec_fn(Range<Anchor>) -> Range<DisplayRow>,
    diff: Seq<SnapshotHunk>,
    buffer_id: BufferId,
    diff_base_unchanged: bool,
    states: Seq<Seq<ExpandedHunk>>,
    shown_again: spec_fn(Range<Anchor>) -> Range<DisplayRow>,
    diff_again: Seq<SnapshotHunk>,
    diff_base_buffer: ModelId,
    position: spec_fn(Anchor) -> int,
)
    requires
        sorted_by(hunks, position),
        // The first time.
        buffer_rows_apart(hunks, rows_in(hunks, shown), buffer_id),
        shown_as_diffed(hunks_in_buffer(diff, buffer_id), shown),
        states.len() > 0,
        states[0] == synced(
            hunks,
            rows_in(hunks, shown),
            diff,
            buffer_id,
            diff_base_unchanged,
        ).kept,
        expanded_in_turn(
            states,
            synced(hunks, rows_in(hunks, shown), diff, buffer_id, diff_base_unchanged).reexpand,
            false,
            position,
        ),
        // The second time.
        same_but_for_rows(
            hunks_in_buffer(diff, buffer_id),
            hunks_in_buffer(diff_again, buffer_id),
        ),
        shown_as_diffed(hunks_in_buffer(diff_again, buffer_id), shown_again),
        diff_in_order(hunks_in_buffer(diff_again, buffer_id)),
        follows_text(shown_again, position),
        keeps_rows(hunks, shown, hunks_in_buffer(diff, buffer_id), buffer_id, shown_again),
    ensures
        ({
            let after = states.last();
            let outcome = synced(after, rows_in(after, shown_again), diff_again, buffer_id, true);
            &&& outcome.kept == after
            &&& outcome.released == Seq::<ExpandedHunk>::empty()
            &&& outcome.reexpand == Seq::<HoveredHunk>::empty()
            &&& sync_effects(outcome, Some(diff_base_buffer)) == seq![
                EffectView::RemoveBlocks { blocks: Set::empty() },
            ]
        }),
{
    let rows = rows_in(hunks, shown);
    let buffer_diff = hunks_in_buffer(diff, buffer_id);
    let second_diff = hunks_in_buffer(diff_again, buffer_id);
    let first = synced(hunks, rows, diff, buffer_id, diff_base_unchanged);
    lemma_replaces_one(hunks, rows, buffer_diff, buffer_id, diff_base_unchanged, hunks.len());
    assert forall|i: int, k: int|
        #![trigger hunks[i], buffer_diff[k]]
        0 <= i < hunks.len() && starts_in(hunks[i], buffer_id) && 0 <= k < buffer_diff.len()
            && is_unchanged(hunks[i], shown(hunks[i].hunk_range), buffer_diff[k]) implies
        !first.reexpand.contains(visible_hunk(buffer_diff[k])->0) by {
        let hunk = visible_hunk(buffer_diff[k])->0;
        if first.reexpand.contains(hunk) {
            let m = choose|m: int| 0 <= m < first.reexpand.len() && first.reexpand[m] == hunk;
            assert(replaces_one(first.reexpand[m], hunks, rows, buffer_diff, buffer_id));
            let (j, l) = choose|j: int, l: int|
                #![trigger hunks[j], buffer_diff[l]]
                {
                    &&& 0 <= j < hunks.len()
                    &&& starts_in(hunks[j], buffer_id)
                    &&& 0 <= l < buffer_diff.len()
                    &&& visible_hunk(buffer_diff[l]) == Some(hunk)
                    &&& touches(rows[j], buffer_diff[l])
                    &&& !is_unchanged(hunks[j], rows[j], buffer_diff[l])
                };
            // The two are shown in the same rows the second time, so they are the same.
            assert(visible_hunk(buffer_diff[k]) == visible_hunk(second_diff[k]));
            assert(visible_hunk(buffer_diff[l]) == visible_hunk(second_diff[l]));
            assert(shown_rows(second_diff[k]) == shown_rows(second_diff[l]));
            assert(k == l);
            assert(rows[i] == shown(hunk.multi_buffer_range));
            assert(i != j);
            if i < j {
                assert(rows[i].end.0 < rows[j].start.0);
            } else {
                assert(rows[j].end.0 < rows[i].start.0);
            }
        }
    }
    synchronizing_twice_changes_nothing_more(
        hunks,
        shown,
        diff,
        buffer_id,
        diff_base_unchanged,
        states,
        shown_again,
        diff_again,
        diff_base_buffer,
        position,
    );
}

/// A hunk that comes out of its fold is expanded anew. If the only expanded hunk of a buffer,
/// at `index`, had disappeared in a fold, and the only hunk of the buffer's diff is visible
/// now, in rows that touch those of the expanded one, a synchronization takes the old one off
/// and has the hunk expanded. The expansion is not ignored: `hunks_in_rows` and `buffers` are
/// the one hunk of the diff in its rows and the one buffer that it lies in, with its diff
/// base. The others are still sorted, so that it finds a place unless one of them starts where
/// it does. Whatever `place` it takes, it is no longer in a fold, and it has a block if it
/// removed text and one was inserted. Where it starts at the same place in the text as the old
/// one, it fits into the old place and into no other, so that it stands there in place of the
/// old one.
pub proof fn unfolded_hunk_is_expanded_anew(
    hunks: Seq<ExpandedHunk>,
    rows: Seq<Range<DisplayRow>>,
    index: int,
    diff: Seq<SnapshotHunk>,
    buffer_id: BufferId,
    diff_base_buffer: ModelId,
    hunks_in_rows: Seq<DiffHunk>,
    buffers: Seq<BufferState>,
    place: int,
    height: u8,
    new_block_ids: Seq<CustomBlockId>,
    position: spec_fn(Anchor) -> int,
)
    requires
        sorted_by(hunks, position),
        0 <= index < hunks.len(),
        hunks[index].folded,
        forall|i: int|
            0 <= i < hunks.len() ==> (starts_in(#[trigger] hunks[i], buffer_id) <==> i == index),
        hunks_in_buffer(diff, buffer_id).len() == 1,
        touches(rows[index], hunks_in_buffer(diff, buffer_id)[0]),
        hunks_in_rows.len() == 1,
        buffers.len() == 1,
        buffers[0].diff_base is Some,
    ensures
        ({
            let outcome = synced(hunks, rows, diff, buffer_id, true);
            let hunk = visible_hunk(hunks_in_buffer(diff, buffer_id)[0])->0;
            let starts = starts_relative_to(outcome.kept, hunk.multi_buffer_range.start, position);
            let placement = placement_at(place, hunk, diff_base_buffer, height);
            let entry = expanded_hunk(hunk, placed_block(placement, new_block_ids));
            &&& outcome.kept == hunks.remove(index)
            &&& sync_effects(outcome, Some(diff_base_buffer)) == seq![
                EffectView::ClearHighlight { rows: hunks[index].hunk_range },
                EffectView::RemoveBlocks { blocks: block_set(hunks[index].block) },
                EffectView::Expand { diff_base_buffer: Some(diff_base_buffer), hunk },
            ]
            &&& first_step(Some(diff_base_buffer), hunk, hunks_in_rows, buffers)
                == (ExpandStep::Measure {
                diff_base_buffer,
                pending: pending_expansion(hunk, buffers[0].diff_base->0, hunks_in_rows[0]),
            })
            &&& in_order(starts)
            &&& !entry.folded
            &&& !(entry.status is Added) && new_block_ids.len() == 1 ==> entry.block == Some(
                new_block_ids[0],
            )
            &&& position(entry.hunk_range.start) == position(hunks[index].hunk_range.start) ==> {
                &&& !has_same(starts)
                &&& forall|other: int| #[trigger] fits_at(starts, other) <==> other == index
                &&& fits_at(starts, place) ==> outcome.kept.insert(place, entry) == hunks.update(
                    index,
                    entry,
                )
            }
        }),
{
    let buffer_diff = hunks_in_buffer(diff, buffer_id);
    let outcome = synced(hunks, rows, diff, buffer_id, true);
    let hunk = visible_hunk(buffer_diff[0])->0;
    let starts = starts_relative_to(outcome.kept, hunk.multi_buffer_range.start, position);
    lemma_reexpands_one(hunks, rows, index, buffer_diff, buffer_id, hunks.len());
    assert(outcome.kept =~= hunks.remove(index));
    lemma_blocks_of_one(hunks[index]);
    assert(sync_effects(outcome, Some(diff_base_buffer)) =~= seq![
        EffectView::ClearHighlight { rows: hunks[index].hunk_range },
        EffectView::RemoveBlocks { blocks: block_set(hunks[index].block) },
        EffectView::Expand { diff_base_buffer: Some(diff_base_buffer), hunk },
    ]);
    sync_keeps_order(hunks, rows, diff, buffer_id, true, position);
    sorted_hunks_are_in_order(outcome.kept, hunk.multi_buffer_range.start, position);
    expansion_finds_the_old_place(hunks, index, position);
    if position(hunk.multi_buffer_range.start) == position(hunks[index].hunk_range.start) {
        assert(starts =~= starts_relative_to(
            hunks.remove(index),
            hunks[index].hunk_range.start,
            position,
        ));
    }
    let placement = placement_at(place, hunk, diff_base_buffer, height);
    let entry = expanded_hunk(hunk, placed_block(placement, new_block_ids));
    assert(hunks.remove(index).insert(index, entry) =~= hunks.update(index, entry));
}

proof fn lemma_reexpands_one(
    hunks: Seq<ExpandedHunk>,
    rows: Seq<Range<DisplayRow>>,
    index: int,
    diff: Seq<SnapshotHunk>,
    buffer_id: BufferId,
    count: nat,
)
    requires
        count <= hunks.len(),
        0 <= index < hunks.len(),
        hunks[index].folded,
        forall|i: int|
            0 <= i < hunks.len() ==> (starts_in(#[trigger] hunks[i], buffer_id) <==> i == index),
        diff.len() == 1,
        touches(rows[index], diff[0]),
    ensures
        ({
            let after = sync_outcome(hunks, rows, diff, buffer_id, true, count);
            &&& after.next == 0
            &&& count <= index ==> {
                &&& after.kept == hunks.take(count as int)
                &&& after.released == Seq::<ExpandedHunk>::empty()
                &&& after.reexpand == Seq::<HoveredHunk>::empty()
            }
            &&& count > index ==> {
                &&& after.kept == hunks.take(index) + hunks.subrange(index + 1, count as int)
                &&& after.released == seq![hunks[index]]
                &&& after.reexpand == seq![visible_hunk(diff[0])->0]
            }
        }),
    decreases count,
{
    let after = sync_outcome(hunks, rows, diff, buffer_id, true, count);
    if count > 0 {
        let last = count - 1;
        lemma_reexpands_one(hunks, rows, index, diff, buffer_id, last as nat);
        assert(starts_in(hunks[last], buffer_id) <==> last == index);
        if last == index {
            assert(deciding_hunk(hunks[last], rows[last], diff, 0) == 0);
        }
    }
    if count <= index {
        assert(after.kept =~= hunks.take(count as int));
    } else {
        assert(after.kept =~= hunks.take(index) + hunks.subrange(index + 1, count as int));
        assert(after.released =~= seq![hunks[index]]);
        assert(after.reexpand =~= seq![visible_hunk(diff[0])->0]);
    }
}

} // verus!
