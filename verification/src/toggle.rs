//! Toggling hunks: those that are expanded are collapsed, the others are expanded.
use std::collections::HashSet;
use std::ops::Range;
use vstd::prelude::*;

use crate::anchor::{copy_range, same_rows, Anchor, DisplayRow};
use crate::editor::Editor;
use crate::effect::{
    clear_effects, effect_views, expand_effects, push_expand_effects, removal_effects, Effect,
    EffectView,
};
use crate::expanded::{blocks_of, hunks_well_formed, lemma_blocks_of_push, ranges_of};
use crate::hunk::{CustomBlockId, DisplayDiffHunk, ExpandedHunk, HoveredHunk, SnapshotHunk};
use crate::toggle_laws::toggle_keeps_well_formed;

verus! {

broadcast use vstd::std_specs::hash::group_hash_axioms;

/// The rows in which a hunk is visible; none if it is hidden in a fold.
pub open spec fn shown_rows(hunk: SnapshotHunk) -> Option<Range<DisplayRow>> {
    match hunk.display {
        DisplayDiffHunk::Folded { .. } => None,
        DisplayDiffHunk::Unfolded { display_row_range, .. } => Some(display_row_range),
    }
}

/// A hunk as it is visible; none if it is hidden in a fold.
pub open spec fn visible_hunk(hunk: SnapshotHunk) -> Option<HoveredHunk> {
    match hunk.display {
        DisplayDiffHunk::Folded { .. } => None,
        DisplayDiffHunk::Unfolded { diff_base_byte_range, multi_buffer_range, status, .. } => Some(
            HoveredHunk { multi_buffer_range, status, diff_base_byte_range },
        ),
    }
}

/// A hunk as its rows in the text give it, whether it is visible or not.
pub open spec fn row_hunk(hunk: SnapshotHunk) -> HoveredHunk {
    HoveredHunk {
        multi_buffer_range: hunk.row_anchors,
        status: hunk.status,
        diff_base_byte_range: hunk.hunk.diff_base_byte_range,
    }
}

/// Whether toggling `hunk` collapses the expanded hunk in `rows`: it is visible in
/// exactly these rows.
pub open spec fn collapses(hunk: SnapshotHunk, rows: Range<DisplayRow>) -> bool {
    shown_rows(hunk) == Some(rows) && rows.start.0 <= rows.end.0
}

/// Whether `hunk` is visible below `rows`.
pub open spec fn lies_past(hunk: SnapshotHunk, rows: Range<DisplayRow>) -> bool {
    shown_rows(hunk) matches Some(shown) && shown.start.0 > rows.end.0
}

/// The first of the hunks to toggle, from the one at `from` on, that collapses the
/// expanded hunk in `rows` or lies past it; their number if there is none.
pub open spec fn scan_end(toggles: Seq<SnapshotHunk>, from: int, rows: Range<DisplayRow>) -> int
    decreases toggles.len() - from,
{
    if from >= toggles.len() || collapses(toggles[from], rows) || lies_past(toggles[from], rows) {
        from
    } else {
        scan_end(toggles, from + 1, rows)
    }
}

/// The hunks among `toggles`, from the one at `from` up to the one at `to`, that are
/// visible.
pub open spec fn visible_hunks(toggles: Seq<SnapshotHunk>, from: int, to: int) -> Seq<HoveredHunk> {
    toggles.subrange(from, to).filter_map(|hunk: SnapshotHunk| visible_hunk(hunk))
}

/// What becomes of the expanded hunks, and of the hunks to toggle, while the expanded
/// hunks are gone through in order.
pub struct ToggleOutcome {
    /// The hunks that stay expanded.
    pub kept: Seq<ExpandedHunk>,
    /// The hunks that are collapsed.
    pub collapsed: Seq<ExpandedHunk>,
    /// The hunks to be expanded.
    pub expand: Seq<HoveredHunk>,
    /// The number of hunks to toggle that have been dealt with.
    pub next: int,
}

/// What becomes of one more expanded hunk. A hunk that has disappeared in a fold stays.
/// For any other, the hunks to toggle are gone through up to the one that collapses it or
/// lies past it, and those in between that are visible are to be expanded.
pub open spec fn toggle_step(
    before: ToggleOutcome,
    hunk: ExpandedHunk,
    rows: Range<DisplayRow>,
    toggles: Seq<SnapshotHunk>,
) -> ToggleOutcome {
    let end = scan_end(toggles, before.next, rows);
    if hunk.folded {
        ToggleOutcome { kept: before.kept.push(hunk), ..before }
    } else if end < toggles.len() && collapses(toggles[end], rows) {
        ToggleOutcome {
            kept: before.kept,
            collapsed: before.collapsed.push(hunk),
            expand: before.expand + visible_hunks(toggles, before.next, end),
            next: end + 1,
        }
    } else {
        ToggleOutcome {
            kept: before.kept.push(hunk),
            collapsed: before.collapsed,
            expand: before.expand + visible_hunks(toggles, before.next, end),
            next: end,
        }
    }
}

/// What has become of the first `count` of the expanded hunks, which are shown in `rows`.
pub open spec fn toggle_outcome(
    hunks: Seq<ExpandedHunk>,
    rows: Seq<Range<DisplayRow>>,
    toggles: Seq<SnapshotHunk>,
    count: nat,
) -> ToggleOutcome
    decreases count,
{
    if count == 0 {
        ToggleOutcome {
            kept: Seq::empty(),
            collapsed: Seq::empty(),
            expand: Seq::empty(),
            next: 0,
        }
    } else {
        toggle_step(
            toggle_outcome(hunks, rows, toggles, (count - 1) as nat),
            hunks[count - 1],
            rows[count - 1],
            toggles,
        )
    }
}

/// What becomes of the expanded hunks when all of them have been gone through.
pub open spec fn toggled(
    hunks: Seq<ExpandedHunk>,
    rows: Seq<Range<DisplayRow>>,
    toggles: Seq<SnapshotHunk>,
) -> ToggleOutcome {
    toggle_outcome(hunks, rows, toggles, hunks.len())
}

/// The hunks to be expanded: those that the expanded hunks were held against, then all
/// the remaining ones.
pub open spec fn hunks_to_expand(
    hunks: Seq<ExpandedHunk>,
    rows: Seq<Range<DisplayRow>>,
    toggles: Seq<SnapshotHunk>,
) -> Seq<HoveredHunk> {
    let outcome = toggled(hunks, rows, toggles);
    outcome.expand + toggles.skip(outcome.next).map_values(|hunk: SnapshotHunk| row_hunk(hunk))
}

/// What toggling does on the screen.
pub open spec fn toggle_effects(
    hunks: Seq<ExpandedHunk>,
    rows: Seq<Range<DisplayRow>>,
    toggles: Seq<SnapshotHunk>,
) -> Seq<EffectView> {
    let collapsed = toggled(hunks, rows, toggles).collapsed;
    (clear_effects(ranges_of(collapsed)).push(
        EffectView::RemoveBlocks { blocks: blocks_of(collapsed) },
    ) + expand_effects(None, hunks_to_expand(hunks, rows, toggles))).push(EffectView::Notify)
}

/// The scan ends within the hunks to toggle.
pub proof fn lemma_scan_end_bounds(toggles: Seq<SnapshotHunk>, from: int, rows: Range<DisplayRow>)
    requires
        0 <= from <= toggles.len(),
    ensures
        from <= scan_end(toggles, from, rows) <= toggles.len(),
    decreases toggles.len() - from,
{
    if !(from >= toggles.len() || collapses(toggles[from], rows) || lies_past(
        toggles[from],
        rows,
    )) {
        lemma_scan_end_bounds(toggles, from + 1, rows);
    }
}

impl Editor {
    /// Toggles hunks. `hunks_to_toggle` are these hunks in the order of the text, and
    /// `expanded_rows` the rows in which the expanded hunks are shown, both in the same
    /// snapshot. Returns what is to be done on the screen, in this order.
    pub fn apply_toggle(
        &mut self,
        hunks_to_toggle: &Vec<SnapshotHunk>,
        expanded_rows: &Vec<Range<DisplayRow>>,
    ) -> (effects: Vec<Effect>)
        requires
            expanded_rows@.len() == old(self).expanded_hunks.hunks@.len(),
        ensures
            final(self).expanded_hunks.hunks@ == toggled(
                old(self).expanded_hunks.hunks@,
                expanded_rows@,
                hunks_to_toggle@,
            ).kept,
            final(self).expanded_hunks.diff_base == old(self).expanded_hunks.diff_base,
            final(self).expanded_hunks.toggle_task == old(self).expanded_hunks.toggle_task,
            final(self).expanded_hunks.sync_tasks == old(self).expanded_hunks.sync_tasks,
            effect_views(effects@) == toggle_effects(
                old(self).expanded_hunks.hunks@,
                expanded_rows@,
                hunks_to_toggle@,
            ),
            old(self).expanded_hunks.well_formed() ==> final(self).expanded_hunks.well_formed(),
    {
        let mut kept: Vec<ExpandedHunk> = Vec::new();
        let mut highlights_to_remove: Vec<Range<Anchor>> = Vec::new();
        let mut blocks_to_remove: HashSet<CustomBlockId> = HashSet::new();
        let mut hunks_to_expand: Vec<HoveredHunk> = Vec::new();
        let mut next: usize = 0;
        let ghost hunks = self.expanded_hunks.hunks@;
        let ghost rows = expanded_rows@;
        let ghost toggles = hunks_to_toggle@;
        let ghost mut collapsed: Seq<ExpandedHunk> = Seq::empty();

        assert(ranges_of(collapsed) =~= highlights_to_remove@);
        assert(blocks_of(collapsed) =~= blocks_to_remove@);
        let mut i: usize = 0;
        while i < self.expanded_hunks.hunks.len()
            invariant
                self.expanded_hunks.hunks@ == hunks,
                rows == expanded_rows@,
                toggles == hunks_to_toggle@,
                rows.len() == hunks.len(),
                i <= hunks.len(),
                next <= toggles.len(),
                highlights_to_remove@ == ranges_of(collapsed),
                blocks_to_remove@ == blocks_of(collapsed),
                toggle_outcome(hunks, rows, toggles, i as nat) == (ToggleOutcome {
                    kept: kept@,
                    collapsed,
                    expand: hunks_to_expand@,
                    next: next as int,
                }),
                self.expanded_hunks.diff_base == old(self).expanded_hunks.diff_base,
                self.expanded_hunks.toggle_task == old(self).expanded_hunks.toggle_task,
                self.expanded_hunks.sync_tasks == old(self).expanded_hunks.sync_tasks,
            decreases hunks.len() - i,
        {
            let expanded_hunk = &self.expanded_hunks.hunks[i];
            if !expanded_hunk.folded {
                let expanded_hunk_rows = &expanded_rows[i];
                let (end, collapse) = Self::scan_toggles(
                    hunks_to_toggle,
                    next,
                    expanded_hunk_rows,
                    &mut hunks_to_expand,
                );
                next = end;
                if collapse {
                    assert(next < hunks_to_toggle.len());
                    next = next + 1;
                    highlights_to_remove.push(copy_range(&expanded_hunk.hunk_range));
                    match expanded_hunk.block {
                        Some(block) => {
                            blocks_to_remove.insert(block);
                        },
                        None => {},
                    }
                    proof {
                        lemma_blocks_of_push(collapsed, *expanded_hunk);
                        collapsed = collapsed.push(*expanded_hunk);
                        assert(ranges_of(collapsed) =~= highlights_to_remove@);
                        assert(blocks_of(collapsed) =~= blocks_to_remove@);
                    }
                } else {
                    kept.push(expanded_hunk.clone());
                }
            } else {
                kept.push(expanded_hunk.clone());
            }
            i = i + 1;
        }
        let ghost expand_before = hunks_to_expand@;
        let ghost first_remaining = next as int;
        let ghost remaining = toggles.skip(first_remaining).map_values(
            |hunk: SnapshotHunk| row_hunk(hunk),
        );
        while next < hunks_to_toggle.len()
            invariant
                toggles == hunks_to_toggle@,
                0 <= first_remaining <= next <= toggles.len(),
                remaining == toggles.skip(first_remaining).map_values(
                    |hunk: SnapshotHunk| row_hunk(hunk),
                ),
                hunks_to_expand@ == expand_before + remaining.take(next - first_remaining),
            decreases toggles.len() - next,
        {
            let remaining_hunk = &hunks_to_toggle[next];
            hunks_to_expand.push(
                HoveredHunk {
                    multi_buffer_range: copy_range(&remaining_hunk.row_anchors),
                    status: remaining_hunk.status,
                    diff_base_byte_range: copy_range(&remaining_hunk.hunk.diff_base_byte_range),
                },
            );
            assert(remaining.take(next + 1 - first_remaining) =~= remaining.take(
                next - first_remaining,
            ).push(remaining[next - first_remaining]));
            next = next + 1;
        }
        assert(remaining.take(remaining.len() as int) =~= remaining);

        proof {
            if hunks_well_formed(hunks) {
                toggle_keeps_well_formed(hunks, rows, toggles);
            }
        }
        self.expanded_hunks.hunks = kept;
        let mut effects = removal_effects(highlights_to_remove, blocks_to_remove);
        push_expand_effects(&mut effects, None, hunks_to_expand);
        let ghost before_notify = effects@;
        effects.push(Effect::Notify);
        assert(effect_views(effects@) =~= effect_views(before_notify).push(EffectView::Notify));
        effects
    }

    /// Goes through the hunks to toggle, from the one at `from` on, up to the one that
    /// collapses the expanded hunk in `rows` or lies past it. Adds those in between to the
    /// hunks to be expanded. Returns where it stopped and whether the expanded hunk is
    /// collapsed.
    fn scan_toggles(
        hunks_to_toggle: &Vec<SnapshotHunk>,
        from: usize,
        rows: &Range<DisplayRow>,
        hunks_to_expand: &mut Vec<HoveredHunk>,
    ) -> (result: (usize, bool))
        requires
            from <= hunks_to_toggle@.len(),
        ensures
            result.0 == scan_end(hunks_to_toggle@, from as int, *rows),
            from <= result.0 <= hunks_to_toggle@.len(),
            result.1 == (result.0 < hunks_to_toggle@.len() && collapses(
                hunks_to_toggle@[result.0 as int],
                *rows,
            )),
            final(hunks_to_expand)@ == old(hunks_to_expand)@ + visible_hunks(
                hunks_to_toggle@,
                from as int,
                result.0 as int,
            ),
    {
        let ghost toggles = hunks_to_toggle@;
        let mut next: usize = from;
        assert(toggles.subrange(from as int, from as int) =~= Seq::empty());
        assert(hunks_to_expand@ =~= hunks_to_expand@ + visible_hunks(
            toggles,
            from as int,
            from as int,
        ));
        while next < hunks_to_toggle.len()
            invariant
                toggles == hunks_to_toggle@,
                from <= next <= toggles.len(),
                scan_end(toggles, from as int, *rows) == scan_end(toggles, next as int, *rows),
                hunks_to_expand@ == old(hunks_to_expand)@ + visible_hunks(
                    toggles,
                    from as int,
                    next as int,
                ),
            decreases toggles.len() - next,
        {
            proof {
                assert(toggles.subrange(from as int, next + 1).drop_last() =~= toggles.subrange(
                    from as int,
                    next as int,
                ));
                assert(toggles.subrange(from as int, next + 1).last() == toggles[next as int]);
            }
            match &hunks_to_toggle[next].display {
                DisplayDiffHunk::Folded { .. } => {
                    next = next + 1;
                },
                DisplayDiffHunk::Unfolded {
                    diff_base_byte_range,
                    display_row_range,
                    multi_buffer_range,
                    status,
                } => {
                    if display_row_range.start.0 > rows.end.0 {
                        return (next, false);
                    } else if same_rows(rows, display_row_range) {
                        return (next, true);
                    } else {
                        let ghost before = hunks_to_expand@;
                        hunks_to_expand.push(
                            HoveredHunk {
                                multi_buffer_range: copy_range(multi_buffer_range),
                                status: *status,
                                diff_base_byte_range: copy_range(diff_base_byte_range),
                            },
                        );
                        proof {
                            let hovered = hunks_to_expand@.last();
                            assert(visible_hunk(toggles[next as int]) == Some(hovered));
                            assert(before.push(hovered) =~= before + seq![hovered]);
                            assert(hunks_to_expand@ =~= old(hunks_to_expand)@ + visible_hunks(
                                toggles,
                                from as int,
                                next + 1,
                            ));
                        }
                        next = next + 1;
                    }
                },
            }
        }
        (next, false)
    }
}

} // verus!
