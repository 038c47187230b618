//! What a caller can rely on when hunks are toggled: of what goes into the call, and what comes
//! out of it.
use std::ops::Range;
use vstd::prelude::*;

use crate::anchor::DisplayRow;
use crate::call_laws::{expand_from, expands, lemma_effects_are_as_viewed, take_off};
use crate::editor::Editor;
use crate::effect::{clear_effects, effect_views, expand_effects, Effect, EffectView};
use crate::expanded::{blocks_of, ranges_of};
use crate::hunk::{DisplayDiffHunk, ExpandedHunk, HoveredHunk, SnapshotHunk};
use crate::order::{chosen, lemma_chosen_agree, lemma_chosen_all};
use crate::toggle::{
    collapses, hunks_to_expand, lemma_scan_end_bounds, lies_past, scan_end,
    toggle_effects, toggle_outcome, toggled, visible_hunk,
};
use crate::toggle_laws::{
    as_visible, expansions, lemma_next_bounds, lemma_scan_passes, lemma_tail,
    lemma_visible_stretch,
};

verus! {

/// Whether a hunk to toggle is visible below the rows of an expanded one.
pub open spec fn is_below(toggle: SnapshotHunk, rows: Range<DisplayRow>) -> bool {
    toggle.display matches DisplayDiffHunk::Unfolded { display_row_range, .. }
        && display_row_range.start.0 > rows.end.0
}

/// Whether a hunk to toggle is visible in exactly the rows of an expanded one, and these are
/// not reversed.
pub open spec fn is_in_rows(toggle: SnapshotHunk, rows: Range<DisplayRow>) -> bool {
    toggle.display matches DisplayDiffHunk::Unfolded { display_row_range, .. }
        && display_row_range.start.0 == rows.start.0 && display_row_range.end.0 == rows.end.0
        && rows.start.0 <= rows.end.0
}

/// Whether an expanded hunk in `rows` is held against the hunks to toggle from `from` up to
/// `to`. One in a fold is held against none. Any other is held against all up to and with the
/// first that is in its rows, unless one below it comes first; that one, if there is one, is
/// left for the next.
pub open spec fn is_held_against(
    hunk: ExpandedHunk,
    rows: Range<DisplayRow>,
    toggles: Seq<SnapshotHunk>,
    from: int,
    to: int,
) -> bool {
    &&& 0 <= from <= to <= toggles.len()
    &&& hunk.folded ==> to == from
    &&& !hunk.folded ==> {
        &&& forall|k: int|
            #![trigger toggles[k]]
            from <= k < to ==> !is_below(toggles[k], rows)
        &&& forall|k: int|
            #![trigger toggles[k]]
            from <= k < to - 1 ==> !is_in_rows(toggles[k], rows)
        &&& (from < to && is_in_rows(toggles[to - 1], rows)) || to == toggles.len() || is_below(
            toggles[to],
            rows,
        )
    }
}

/// Whether the expanded hunks are, one after the other, held against the hunks to toggle, each
/// from where the one before has left off. `ends` says where each begins.
pub open spec fn are_held_against(
    hunks: Seq<ExpandedHunk>,
    rows: Seq<Range<DisplayRow>>,
    toggles: Seq<SnapshotHunk>,
    ends: Seq<int>,
) -> bool {
    &&& ends.len() == hunks.len() + 1
    &&& ends[0] == 0
    &&& forall|i: int|
        #![trigger hunks[i]]
        0 <= i < hunks.len() ==> is_held_against(hunks[i], rows[i], toggles, ends[i], ends[i + 1])
}

/// Whether the expanded hunk at `i` meets a hunk in its own rows.
pub open spec fn meets_its_own(
    hunks: Seq<ExpandedHunk>,
    rows: Seq<Range<DisplayRow>>,
    toggles: Seq<SnapshotHunk>,
    ends: Seq<int>,
    i: int,
) -> bool {
    !hunks[i].folded && ends[i] < ends[i + 1] && is_in_rows(toggles[ends[i + 1] - 1], rows[i])
}

/// Whether the hunk to toggle at `k` is one in whose rows an expanded one was met.
pub open spec fn is_met(
    hunks: Seq<ExpandedHunk>,
    rows: Seq<Range<DisplayRow>>,
    toggles: Seq<SnapshotHunk>,
    ends: Seq<int>,
    k: int,
) -> bool {
    exists|i: int|
        0 <= i < hunks.len() && #[trigger] meets_its_own(hunks, rows, toggles, ends, i) && k
            == ends[i + 1] - 1
}

/// The hunks to toggle as they would be expanded: the first `count`, if they are visible, with
/// what the screen says of them, and all the others with their rows, their status and the part
/// of the diff base that they replaced.
pub open spec fn as_expanded(toggles: Seq<SnapshotHunk>, count: int) -> Seq<HoveredHunk> {
    Seq::new(
        toggles.len(),
        |k: int|
            match toggles[k].display {
                DisplayDiffHunk::Unfolded {
                    diff_base_byte_range,
                    multi_buffer_range,
                    status,
                    ..
                } if k < count => HoveredHunk { multi_buffer_range, status, diff_base_byte_range },
                _ => HoveredHunk {
                    multi_buffer_range: toggles[k].row_anchors,
                    status: toggles[k].status,
                    diff_base_byte_range: toggles[k].hunk.diff_base_byte_range,
                },
            },
    )
}

/// What toggling leads to, given against which hunks the expanded ones were held. Those that
/// met a hunk in their own rows are taken off, and the others stay, in order. Of the hunks to
/// toggle, those that were met are not expanded, nor are those in folds that were gone past;
/// all the others are, in order. In the end the editor is drawn.
pub open spec fn is_toggle_result(
    hunks: Seq<ExpandedHunk>,
    rows: Seq<Range<DisplayRow>>,
    toggles: Seq<SnapshotHunk>,
    ends: Seq<int>,
    after: Seq<ExpandedHunk>,
    effects: Seq<Effect>,
) -> bool {
    let gone = chosen(
        hunks,
        |i: int| meets_its_own(hunks, rows, toggles, ends, i),
        hunks.len(),
    );
    let expanded = chosen(
        as_expanded(toggles, ends[hunks.len() as int]),
        |k: int|
            k >= ends[hunks.len() as int] || (toggles[k].display is Unfolded && !is_met(
                hunks,
                rows,
                toggles,
                ends,
                k,
            )),
        toggles.len(),
    );
    &&& after == chosen(
        hunks,
        |i: int| !meets_its_own(hunks, rows, toggles, ends, i),
        hunks.len(),
    )
    &&& effects.len() == gone.len() + 1 + expanded.len() + 1
    &&& take_off(effects, gone)
    &&& expand_from(effects, gone.len() as int + 1, None, expanded)
    &&& effects.last() is Notify
}

/// Toggling collapses exactly the expanded hunks that meet a hunk to toggle in their own rows,
/// when the former are held against the latter one after the other, and expands the others.
/// Nothing else changes.
pub proof fn toggling_does_what_is_asked(
    editor: &mut Editor,
    toggles: &Vec<SnapshotHunk>,
    rows: &Vec<Range<DisplayRow>>,
    effects: Vec<Effect>,
)
    requires
        rows@.len() == old(editor).expanded_hunks.hunks@.len(),
        call_ensures(Editor::apply_toggle, (editor, toggles, rows), effects),
    ensures
        exists|ends: Seq<int>|
            #![trigger are_held_against(
                old(editor).expanded_hunks.hunks@,
                rows@,
                toggles@,
                ends,
            )]
            are_held_against(old(editor).expanded_hunks.hunks@, rows@, toggles@, ends)
                && is_toggle_result(
                old(editor).expanded_hunks.hunks@,
                rows@,
                toggles@,
                ends,
                final(editor).expanded_hunks.hunks@,
                effects@,
            ),
        final(editor).expanded_hunks.diff_base@ == old(editor).expanded_hunks.diff_base@,
        final(editor).expanded_hunks.toggle_task == old(editor).expanded_hunks.toggle_task,
        final(editor).expanded_hunks.sync_tasks@ == old(editor).expanded_hunks.sync_tasks@,
{
    let hunks = old(editor).expanded_hunks.hunks@;
    lemma_held_against(hunks, rows@, toggles@);
    lemma_toggle_result(hunks, rows@, toggles@, effects@);
}

proof fn lemma_toggle_result(
    hunks: Seq<ExpandedHunk>,
    rows: Seq<Range<DisplayRow>>,
    toggles: Seq<SnapshotHunk>,
    effects: Seq<Effect>,
)
    requires
        effect_views(effects) == toggle_effects(hunks, rows, toggles),
    ensures
        is_toggle_result(
            hunks,
            rows,
            toggles,
            next_after(hunks, rows, toggles),
            toggled(hunks, rows, toggles).kept,
            effects,
        ),
{
    let outcome = toggled(hunks, rows, toggles);
    let expanded = hunks_to_expand(hunks, rows, toggles);
    let removal = clear_effects(ranges_of(outcome.collapsed)).push(
        EffectView::RemoveBlocks { blocks: blocks_of(outcome.collapsed) },
    );
    assert(effect_views(effects) =~= removal + expand_effects(None, expanded)
        + seq![EffectView::Notify]);
    lemma_effects_are_as_viewed(
        effects,
        outcome.collapsed,
        None,
        expanded,
        seq![EffectView::Notify],
    );
    assert(effects.last()@ == seq![EffectView::Notify][0]);
    lemma_split_by_rows(hunks, rows, toggles, hunks.len());
    lemma_expanded_rest(hunks, rows, toggles);
}

/// In an editor without expanded hunks, toggling expands each of the hunks, in order, with its
/// rows, its status and the part of the diff base that it replaced.
pub proof fn toggling_expands_all_where_nothing_is_expanded(
    editor: &mut Editor,
    toggles: &Vec<SnapshotHunk>,
    rows: &Vec<Range<DisplayRow>>,
    effects: Vec<Effect>,
)
    requires
        old(editor).expanded_hunks.hunks@.len() == 0,
        rows@.len() == 0,
        call_ensures(Editor::apply_toggle, (editor, toggles, rows), effects),
    ensures
        final(editor).expanded_hunks.hunks@.len() == 0,
        effects@.len() == toggles@.len() + 2,
        forall|k: int|
            #![trigger toggles@[k]]
            0 <= k < toggles@.len() ==> (effects@[k + 1] matches Effect::Expand {
                diff_base_buffer,
                hunk,
            } && diff_base_buffer is None && hunk.multi_buffer_range == toggles@[k].row_anchors
                && hunk.status == toggles@[k].status && hunk.diff_base_byte_range
                == toggles@[k].hunk.diff_base_byte_range),
        effects@.last() is Notify,
{
    let hunks = old(editor).expanded_hunks.hunks@;
    toggling_does_what_is_asked(editor, toggles, rows, effects);
    let ends = choose|ends: Seq<int>|
        #![trigger are_held_against(hunks, rows@, toggles@, ends)]
        are_held_against(hunks, rows@, toggles@, ends) && is_toggle_result(
            hunks,
            rows@,
            toggles@,
            ends,
            final(editor).expanded_hunks.hunks@,
            effects@,
        );
    let all = as_expanded(toggles@, 0);
    let choice = |k: int|
        k >= ends[hunks.len() as int] || (toggles@[k].display is Unfolded && !is_met(
            hunks,
            rows@,
            toggles@,
            ends,
            k,
        ));
    lemma_chosen_all(all, choice, toggles@.len());
    assert(all.take(toggles@.len() as int) =~= all);
    let expanded = chosen(all, choice, toggles@.len());
    assert forall|k: int| #![trigger toggles@[k]] 0 <= k < toggles@.len() implies (effects@[k
        + 1] matches Effect::Expand { diff_base_buffer, hunk } && diff_base_buffer is None
        && hunk.multi_buffer_range == toggles@[k].row_anchors && hunk.status == toggles@[k].status
        && hunk.diff_base_byte_range == toggles@[k].hunk.diff_base_byte_range) by {
        assert(expanded[k] == all[k]);
        assert(expands(effects@[k + 1], None, expanded[k]));
    }
}

/// Where each expanded hunk begins among the hunks to toggle.
spec fn next_after(
    hunks: Seq<ExpandedHunk>,
    rows: Seq<Range<DisplayRow>>,
    toggles: Seq<SnapshotHunk>,
) -> Seq<int> {
    Seq::new(
        hunks.len() + 1,
        |i: int| toggle_outcome(hunks, rows, toggles, i as nat).next,
    )
}

proof fn lemma_held_against(
    hunks: Seq<ExpandedHunk>,
    rows: Seq<Range<DisplayRow>>,
    toggles: Seq<SnapshotHunk>,
)
    ensures
        are_held_against(hunks, rows, toggles, next_after(hunks, rows, toggles)),
        forall|i: int|
            0 <= i < hunks.len() ==> #[trigger] meets_its_own(
                hunks,
                rows,
                toggles,
                next_after(hunks, rows, toggles),
                i,
            ) == steps_over(hunks, rows, toggles, i),
{
    let ends = next_after(hunks, rows, toggles);
    assert forall|i: int| #![trigger hunks[i]] 0 <= i < hunks.len() implies is_held_against(
        hunks[i],
        rows[i],
        toggles,
        ends[i],
        ends[i + 1],
    ) && meets_its_own(hunks, rows, toggles, ends, i) == steps_over(hunks, rows, toggles, i) by {
        lemma_next_bounds(hunks, rows, toggles, i as nat);
        lemma_next_bounds(hunks, rows, toggles, (i + 1) as nat);
        let from = toggle_outcome(hunks, rows, toggles, i as nat).next;
        let end = scan_end(toggles, from, rows[i]);
        assert(ends[i] == from);
        assert(ends[i + 1] == toggle_outcome(hunks, rows, toggles, (i + 1) as nat).next);
        if !hunks[i].folded {
            lemma_scan_end_bounds(toggles, from, rows[i]);
            lemma_scan_passes(toggles, from, rows[i]);
            lemma_scan_stops(toggles, from, rows[i]);
            assert forall|k: int| #![trigger toggles[k]] 0 <= k < toggles.len() implies is_below(
                toggles[k],
                rows[i],
            ) == lies_past(toggles[k], rows[i]) && is_in_rows(toggles[k], rows[i]) == collapses(
                toggles[k],
                rows[i],
            ) by {}
        }
    }
    assert forall|i: int| 0 <= i < hunks.len() implies #[trigger] meets_its_own(
        hunks,
        rows,
        toggles,
        ends,
        i,
    ) == steps_over(hunks, rows, toggles, i) by {
        assert(hunks[i] == hunks[i]);
    }
}

/// Whether the scan for the expanded hunk at `i` ends at one that collapses it.
spec fn steps_over(
    hunks: Seq<ExpandedHunk>,
    rows: Seq<Range<DisplayRow>>,
    toggles: Seq<SnapshotHunk>,
    i: int,
) -> bool {
    let end = scan_end(toggles, toggle_outcome(hunks, rows, toggles, i as nat).next, rows[i]);
    !hunks[i].folded && end < toggles.len() && collapses(toggles[end], rows[i])
}

/// A scan that does not go to the end stops at a hunk that ends it.
proof fn lemma_scan_stops(toggles: Seq<SnapshotHunk>, from: int, rows: Range<DisplayRow>)
    requires
        0 <= from <= toggles.len(),
    ensures
        scan_end(toggles, from, rows) < toggles.len() ==> collapses(
            toggles[scan_end(toggles, from, rows)],
            rows,
        ) || lies_past(toggles[scan_end(toggles, from, rows)], rows),
    decreases toggles.len() - from,
{
    if !(from >= toggles.len() || collapses(toggles[from], rows) || lies_past(
        toggles[from],
        rows,
    )) {
        lemma_scan_stops(toggles, from + 1, rows);
    }
}

proof fn lemma_split_by_rows(
    hunks: Seq<ExpandedHunk>,
    rows: Seq<Range<DisplayRow>>,
    toggles: Seq<SnapshotHunk>,
    count: nat,
)
    requires
        count <= hunks.len(),
    ensures
        ({
            let ends = next_after(hunks, rows, toggles);
            let outcome = toggle_outcome(hunks, rows, toggles, count);
            &&& outcome.kept == chosen(
                hunks,
                |i: int| !meets_its_own(hunks, rows, toggles, ends, i),
                count,
            )
            &&& outcome.collapsed == chosen(
                hunks,
                |i: int| meets_its_own(hunks, rows, toggles, ends, i),
                count,
            )
        }),
    decreases count,
{
    if count > 0 {
        lemma_split_by_rows(hunks, rows, toggles, (count - 1) as nat);
        lemma_held_against(hunks, rows, toggles);
        let ends = next_after(hunks, rows, toggles);
        assert(meets_its_own(hunks, rows, toggles, ends, count - 1) == steps_over(
            hunks,
            rows,
            toggles,
            count - 1,
        ));
    }
}

/// What the expanded hunks are held against lies in order.
proof fn lemma_ends_ascend(
    hunks: Seq<ExpandedHunk>,
    rows: Seq<Range<DisplayRow>>,
    toggles: Seq<SnapshotHunk>,
    i: nat,
    j: nat,
)
    requires
        i <= j,
    ensures
        toggle_outcome(hunks, rows, toggles, i).next <= toggle_outcome(
            hunks,
            rows,
            toggles,
            j,
        ).next,
    decreases j,
{
    if i < j {
        lemma_ends_ascend(hunks, rows, toggles, i, (j - 1) as nat);
        lemma_next_bounds(hunks, rows, toggles, j);
    }
}

/// A hunk to toggle that the scan for the expanded hunk at `at` has gone past is met exactly if
/// it is the one that ended the scan.
proof fn lemma_met_once(
    hunks: Seq<ExpandedHunk>,
    rows: Seq<Range<DisplayRow>>,
    toggles: Seq<SnapshotHunk>,
    at: int,
    k: int,
)
    requires
        0 <= at < hunks.len(),
        next_after(hunks, rows, toggles)[at] <= k < next_after(hunks, rows, toggles)[at + 1],
    ensures
        is_met(hunks, rows, toggles, next_after(hunks, rows, toggles), k) == (meets_its_own(
            hunks,
            rows,
            toggles,
            next_after(hunks, rows, toggles),
            at,
        ) && k == next_after(hunks, rows, toggles)[at + 1] - 1),
{
    let ends = next_after(hunks, rows, toggles);
    if is_met(hunks, rows, toggles, ends, k) {
        let i = choose|i: int|
            0 <= i < hunks.len() && #[trigger] meets_its_own(hunks, rows, toggles, ends, i) && k
                == ends[i + 1] - 1;
        if i < at {
            lemma_ends_ascend(hunks, rows, toggles, (i + 1) as nat, at as nat);
        } else if i > at {
            lemma_ends_ascend(hunks, rows, toggles, (at + 1) as nat, i as nat);
        }
        assert(i == at);
    }
}

proof fn lemma_expanded_so_far(
    hunks: Seq<ExpandedHunk>,
    rows: Seq<Range<DisplayRow>>,
    toggles: Seq<SnapshotHunk>,
    count: nat,
)
    requires
        count <= hunks.len(),
    ensures
        ({
            let ends = next_after(hunks, rows, toggles);
            let outcome = toggle_outcome(hunks, rows, toggles, count);
            outcome.expand == chosen(
                as_visible(toggles),
                |k: int|
                    visible_hunk(toggles[k]) is Some && !is_met(hunks, rows, toggles, ends, k),
                outcome.next as nat,
            )
        }),
    decreases count,
{
    let ends = next_after(hunks, rows, toggles);
    let left = |k: int|
        visible_hunk(toggles[k]) is Some && !is_met(hunks, rows, toggles, ends, k);
    if count > 0 {
        let last = count - 1;
        lemma_expanded_so_far(hunks, rows, toggles, last as nat);
        lemma_held_against(hunks, rows, toggles);
        lemma_next_bounds(hunks, rows, toggles, last as nat);
        let before = toggle_outcome(hunks, rows, toggles, last as nat);
        let outcome = toggle_outcome(hunks, rows, toggles, count);
        let from = before.next;
        assert(ends[last] == from && ends[last + 1] == outcome.next);
        assert(meets_its_own(hunks, rows, toggles, ends, last) == steps_over(
            hunks,
            rows,
            toggles,
            last,
        ));
        if !hunks[last].folded {
            let end = scan_end(toggles, from, rows[last]);
            lemma_scan_end_bounds(toggles, from, rows[last]);
            assert forall|k: int| from <= k < end implies #[trigger] left(k) == (visible_hunk(
                toggles[k],
            ) is Some) by {
                lemma_met_once(hunks, rows, toggles, last, k);
            }
            lemma_visible_stretch(toggles, left, from, end);
            if steps_over(hunks, rows, toggles, last) {
                lemma_met_once(hunks, rows, toggles, last, end);
                assert(!left(end));
            }
        }
    }
}

proof fn lemma_expanded_rest(
    hunks: Seq<ExpandedHunk>,
    rows: Seq<Range<DisplayRow>>,
    toggles: Seq<SnapshotHunk>,
)
    ensures
        ({
            let ends = next_after(hunks, rows, toggles);
            hunks_to_expand(hunks, rows, toggles) == chosen(
                as_expanded(toggles, ends[hunks.len() as int]),
                |k: int|
                    k >= ends[hunks.len() as int] || (toggles[k].display is Unfolded && !is_met(
                        hunks,
                        rows,
                        toggles,
                        ends,
                        k,
                    )),
                toggles.len(),
            )
        }),
{
    let ends = next_after(hunks, rows, toggles);
    let next = toggled(hunks, rows, toggles).next;
    assert(ends[hunks.len() as int] == next);
    lemma_expanded_so_far(hunks, rows, toggles, hunks.len());
    lemma_next_bounds(hunks, rows, toggles, hunks.len());
    let left = |k: int|
        visible_hunk(toggles[k]) is Some && !is_met(hunks, rows, toggles, ends, k);
    let choice = |k: int|
        k >= ends[hunks.len() as int] || (toggles[k].display is Unfolded && !is_met(
            hunks,
            rows,
            toggles,
            ends,
            k,
        ));
    lemma_chosen_agree(as_visible(toggles), expansions(toggles, next), left, choice, next as nat);
    lemma_tail(toggles, next, choice, toggles.len());
    assert(toggles.skip(next) =~= toggles.subrange(next, toggles.len() as int));
    lemma_chosen_agree(
        expansions(toggles, next),
        as_expanded(toggles, next),
        choice,
        choice,
        toggles.len(),
    );
}

} // verus!
