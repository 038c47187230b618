//! What a caller can rely on, said of the calls themselves: of what goes into a call and what
//! comes out of it.
use std::collections::HashSet;
use std::ops::Range;
use vstd::prelude::*;

use crate::anchor::{Anchor, BufferId};
use crate::editor::{ClearedHunks, Editor};
use crate::effect::{
    clear_effects, effect_views, expand_effects, push_expand_effects, removal_effects, Effect,
    EffectView,
};
use crate::expanded::{blocks_of, ranges_of, ExpandedHunks, ModelId};
use crate::hunk::{CustomBlockId, DiffHunkStatus, ExpandedHunk, HoveredHunk};
use crate::order::{chosen, lemma_chosen_agree, lemma_chosen_all};

verus! {

// Effects.

/// Whether an effect clears the highlight of exactly the given text.
pub open spec fn clears(effect: Effect, range: Range<Anchor>) -> bool {
    effect matches Effect::ClearHighlight { rows } && rows.start == range.start && rows.end
        == range.end
}

/// Whether some of `hunks` has the given block.
pub open spec fn owns_block(hunks: Seq<ExpandedHunk>, block: CustomBlockId) -> bool {
    exists|i: int| 0 <= i < hunks.len() && (#[trigger] hunks[i]).block == Some(block)
}

/// Whether an effect removes exactly the blocks of `hunks`.
pub open spec fn removes_blocks_of(effect: Effect, hunks: Seq<ExpandedHunk>) -> bool {
    effect matches Effect::RemoveBlocks { blocks } && forall|block: CustomBlockId|
        #![trigger blocks@.contains(block)]
        #![trigger owns_block(hunks, block)]
        blocks@.contains(block) <==> owns_block(hunks, block)
}

/// Whether an effect expands exactly the given hunk, with the given buffer of the diff base.
pub open spec fn expands(effect: Effect, buffer: Option<ModelId>, hunk: HoveredHunk) -> bool {
    effect matches Effect::Expand { diff_base_buffer, hunk: expanded } && diff_base_buffer
        == buffer && expanded.multi_buffer_range == hunk.multi_buffer_range && expanded.status
        == hunk.status && expanded.diff_base_byte_range == hunk.diff_base_byte_range
}

/// Whether effects begin with those that take `hunks` off the screen: each of their highlights
/// is cleared, in order, and then exactly their blocks are removed, all at once.
pub open spec fn take_off(effects: Seq<Effect>, hunks: Seq<ExpandedHunk>) -> bool {
    &&& effects.len() > hunks.len()
    &&& forall|i: int|
        0 <= i < hunks.len() ==> clears(#[trigger] effects[i], hunks[i].hunk_range)
    &&& removes_blocks_of(effects[hunks.len() as int], hunks)
}

/// Whether effects from `from` on expand `hunks`, in order.
pub open spec fn expand_from(
    effects: Seq<Effect>,
    from: int,
    buffer: Option<ModelId>,
    hunks: Seq<HoveredHunk>,
) -> bool {
    &&& effects.len() >= from + hunks.len()
    &&& forall|i: int|
        from <= i < from + hunks.len() ==> expands(#[trigger] effects[i], buffer, hunks[i - from])
}

/// Effects that are listed by their views are what the views say.
pub proof fn lemma_effects_are_as_viewed(
    effects: Seq<Effect>,
    taken_off: Seq<ExpandedHunk>,
    buffer: Option<ModelId>,
    expanded: Seq<HoveredHunk>,
    rest: Seq<EffectView>,
)
    requires
        effect_views(effects) == clear_effects(ranges_of(taken_off)).push(
            EffectView::RemoveBlocks { blocks: blocks_of(taken_off) },
        ) + expand_effects(buffer, expanded) + rest,
    ensures
        take_off(effects, taken_off),
        expand_from(effects, (taken_off.len() + 1) as int, buffer, expanded),
        effects.len() == taken_off.len() + 1 + expanded.len() + rest.len(),
        forall|i: int|
            0 <= i < rest.len() ==> effects[taken_off.len() + 1 + expanded.len() + i]@
                == #[trigger] rest[i],
{
    let views = effect_views(effects);
    let count = taken_off.len() as int;
    let removal = clear_effects(ranges_of(taken_off)).push(
        EffectView::RemoveBlocks { blocks: blocks_of(taken_off) },
    );
    assert(removal.len() == count + 1);
    assert(views.len() == effects.len());
    assert(views.len() == count + 1 + expanded.len() + rest.len());
    assert forall|i: int| 0 <= i < count implies clears(
        #[trigger] effects[i],
        taken_off[i].hunk_range,
    ) by {
        assert(views[i] == effects[i]@);
        assert(views[i] == removal[i]);
    }
    assert(views[count] == effects[count]@);
    assert(views[count] == removal[count]);
    assert(removes_blocks_of(effects[count], taken_off));
    assert forall|i: int| count + 1 <= i < count + 1 + expanded.len() implies expands(
        #[trigger] effects[i],
        buffer,
        expanded[i - (count + 1)],
    ) by {
        assert(views[i] == effects[i]@);
        assert(views[i] == expand_effects(buffer, expanded)[i - (count + 1)]);
    }
    assert forall|i: int| 0 <= i < rest.len() implies effects[count + 1 + expanded.len() + i]@
        == #[trigger] rest[i] by {
        let at = count + 1 + expanded.len() + i;
        assert(views[at] == effects[at]@);
        assert(views[at] == rest[i]);
    }
}

/// The effects that take hunks off the screen clear each of the given rows and then remove
/// exactly the given blocks.
pub proof fn removal_clears_then_removes(
    rows: Vec<Range<Anchor>>,
    blocks: HashSet<CustomBlockId>,
    effects: Vec<Effect>,
)
    requires
        call_ensures(removal_effects, (rows, blocks), effects),
    ensures
        effects@.len() == rows@.len() + 1,
        forall|i: int| 0 <= i < rows@.len() ==> clears(#[trigger] effects@[i], rows@[i]),
        effects@.last() matches Effect::RemoveBlocks { blocks: removed } && removed@ == blocks@,
{
    let views = effect_views(effects@);
    assert(views.len() == effects@.len());
    assert(views.len() == rows@.len() + 1);
    assert forall|i: int| 0 <= i < rows@.len() implies clears(#[trigger] effects@[i], rows@[i]) by {
        assert(views[i] == effects@[i]@);
        assert(views[i] == clear_effects(rows@)[i]);
    }
    assert(views[rows@.len() as int] == effects@[rows@.len() as int]@);
}

/// Adding the effects that expand hunks leaves the others as they are, and adds one for each
/// hunk, in order.
pub proof fn expansions_are_added_at_the_end(
    effects: &mut Vec<Effect>,
    buffer: Option<ModelId>,
    hunks: Vec<HoveredHunk>,
)
    requires
        call_ensures(push_expand_effects, (effects, buffer, hunks), ()),
    ensures
        final(effects)@.len() == old(effects)@.len() + hunks@.len(),
        forall|i: int|
            0 <= i < old(effects)@.len() ==> #[trigger] final(effects)@[i] == old(effects)@[i],
        expand_from(final(effects)@, old(effects)@.len() as int, buffer, hunks@),
{
    let before = old(effects)@;
    let after = final(effects)@;
    let views = effect_views(after);
    assert(views.len() == after.len());
    assert forall|i: int| before.len() <= i < before.len() + hunks@.len() implies expands(
        #[trigger] after[i],
        buffer,
        hunks@[i - before.len()],
    ) by {
        assert(views[i] == after[i]@);
        assert(views[i] == expand_effects(buffer, hunks@)[i - before.len()]);
    }
}

// The expanded hunks as a whole.

/// Well-formed hunks that are in a fold, or that only added text, have no block.
pub proof fn only_shown_deleted_text_has_a_block(expanded: ExpandedHunks, i: int)
    requires
        expanded.well_formed(),
        0 <= i < expanded.hunks@.len(),
        expanded.hunks@[i].block is Some,
    ensures
        !expanded.hunks@[i].folded,
        expanded.hunks@[i].status != DiffHunkStatus::Added,
{
}

/// A new editor has no expanded hunk, no buffer of a diff base and no task.
pub proof fn nothing_is_expanded_at_first(expanded: ExpandedHunks)
    requires
        call_ensures(<ExpandedHunks as Default>::default, (), expanded),
    ensures
        expanded.hunks@.len() == 0,
        forall|buffer_id: BufferId| !expanded.diff_base@.contains_key(buffer_id),
        expanded.toggle_task is None,
        forall|buffer_id: BufferId| !expanded.sync_tasks@.contains_key(buffer_id),
{
}

/// The expanded hunks are listed in order, each of them, but for those in folds if these are
/// not asked for.
pub proof fn hunks_are_listed_in_order(
    expanded: &ExpandedHunks,
    include_folded: bool,
    listed: Vec<&ExpandedHunk>,
)
    requires
        call_ensures(ExpandedHunks::hunks, (expanded, include_folded), listed),
    ensures
        listed@.unref() == chosen(
            expanded.hunks@,
            |i: int| include_folded || !expanded.hunks@[i].folded,
            expanded.hunks@.len(),
        ),
        include_folded ==> listed@.unref() == expanded.hunks@,
{
    let hunks = expanded.hunks@;
    let wanted = |hunk: ExpandedHunk| include_folded || !hunk.folded;
    lemma_filter_is_chosen(hunks, wanted, hunks.len());
    assert(hunks.take(hunks.len() as int) =~= hunks);
    lemma_chosen_agree(
        hunks,
        hunks,
        |i: int| wanted(hunks[i]),
        |i: int| include_folded || !hunks[i].folded,
        hunks.len(),
    );
    if include_folded {
        lemma_chosen_all(
            hunks,
            |i: int| include_folded || !hunks[i].folded,
            hunks.len(),
        );
    }
}

/// To filter is to choose by what stands at each index.
pub proof fn lemma_filter_is_chosen<T>(elements: Seq<T>, wanted: spec_fn(T) -> bool, count: nat)
    requires
        count <= elements.len(),
    ensures
        elements.take(count as int).filter(wanted) == chosen(
            elements,
            |i: int| wanted(elements[i]),
            count,
        ),
    decreases count,
{
    reveal(Seq::filter);
    if count > 0 {
        lemma_filter_is_chosen(elements, wanted, (count - 1) as nat);
        assert(elements.take(count as int).drop_last() =~= elements.take(count - 1));
        assert(elements.take(count as int).last() == elements[count - 1]);
    } else {
        assert(elements.take(0) =~= Seq::empty());
    }
}

/// To filter and map is to choose among what is mapped to something.
pub proof fn lemma_filter_map_is_chosen<A, B>(
    elements: Seq<A>,
    f: spec_fn(A) -> Option<B>,
    count: nat,
)
    requires
        count <= elements.len(),
    ensures
        elements.take(count as int).filter_map(f) == chosen(
            Seq::new(elements.len(), |i: int| f(elements[i])->0),
            |i: int| f(elements[i]) is Some,
            count,
        ),
    decreases count,
{
    let mapped = Seq::new(elements.len(), |i: int| f(elements[i])->0);
    let choice = |i: int| f(elements[i]) is Some;
    if count > 0 {
        lemma_filter_map_is_chosen(elements, f, (count - 1) as nat);
        assert(elements.take(count as int).drop_last() =~= elements.take(count - 1));
        assert(elements.take(count as int).last() == elements[count - 1]);
        assert(elements.take(count as int).filter_map(f) =~= chosen(mapped, choice, count));
    } else {
        assert(elements.take(0) =~= Seq::empty());
    }
}

/// Clearing takes everything away: no hunk and no task is left, all highlights are cleared, and
/// exactly the blocks that some expanded hunk had are removed. It says so if there were any.
pub proof fn clearing_leaves_nothing_behind(editor: &mut Editor, cleared: ClearedHunks)
    requires
        call_ensures(Editor::clear_clicked_diff_hunks, (editor,), cleared),
    ensures
        final(editor).expanded_hunks.hunks@.len() == 0,
        final(editor).expanded_hunks.toggle_task is None,
        forall|buffer_id: BufferId|
            !final(editor).expanded_hunks.sync_tasks@.contains_key(buffer_id),
        final(editor).expanded_hunks.diff_base@ == old(editor).expanded_hunks.diff_base@,
        cleared.removed_blocks <==> exists|block: CustomBlockId|
            owns_block(old(editor).expanded_hunks.hunks@, block),
        cleared.effects@.len() == (if cleared.removed_blocks {
            2nat
        } else {
            1nat
        }),
        cleared.effects@[0] is ClearAllHighlights,
        cleared.removed_blocks ==> removes_blocks_of(
            cleared.effects@[1],
            old(editor).expanded_hunks.hunks@,
        ),
        forall|block: CustomBlockId|
            owns_block(old(editor).expanded_hunks.hunks@, block) ==> exists|i: int|
                0 <= i < cleared.effects@.len() && removes(
                    #[trigger] cleared.effects@[i],
                    block,
                ),
{
    let hunks = old(editor).expanded_hunks.hunks@;
    let after = final(editor).expanded_hunks;
    let effects = cleared.effects@;
    let views = effect_views(effects);
    assert(!after.hunk_update_tasks().contains_key(None));
    assert forall|buffer_id: BufferId| !after.sync_tasks@.contains_key(buffer_id) by {
        assert(!after.hunk_update_tasks().contains_key(Some(buffer_id)));
    }
    assert forall|block: CustomBlockId| #[trigger]
        owns_block(hunks, block) <==> blocks_of(hunks).contains(block) by {}
    if cleared.removed_blocks {
        let block = choose|block: CustomBlockId| blocks_of(hunks).contains(block);
        assert(!(blocks_of(hunks) =~= Set::empty()));
        assert(owns_block(hunks, block));
    } else {
        assert(blocks_of(hunks) =~= Set::empty());
    }
    assert(views.len() == effects.len());
    assert(views[0] == effects[0]@);
    if cleared.removed_blocks {
        assert(views[1] == effects[1]@);
        assert(removes_blocks_of(effects[1], hunks));
    }
    assert forall|block: CustomBlockId| owns_block(hunks, block) implies exists|i: int|
        0 <= i < effects.len() && removes(#[trigger] effects[i], block) by {
        assert(removes(effects[1], block));
    }
}

/// Whether an effect removes the given block, maybe among others.
pub open spec fn removes(effect: Effect, block: CustomBlockId) -> bool {
    effect matches Effect::RemoveBlocks { blocks } && blocks@.contains(block)
}

} // verus!
