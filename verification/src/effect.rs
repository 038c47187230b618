//! What the editor has to do on the screen after its expanded hunks have changed.
use std::collections::HashSet;
use std::ops::Range;
use vstd::prelude::*;

use crate::anchor::{copy_range, Anchor};
use crate::expanded::ModelId;
use crate::hunk::{CustomBlockId, HoveredHunk};

verus! {

/// One thing to be done on the screen.
#[derive(Debug, PartialEq, Eq)]
pub enum Effect {
    /// Stop highlighting the rows of a hunk.
    ClearHighlight { rows: Range<Anchor> },
    /// Stop highlighting the rows of every hunk.
    ClearAllHighlights,
    /// Remove blocks.
    RemoveBlocks { blocks: HashSet<CustomBlockId> },
    /// Expand a hunk, with a given buffer of its diff base or with whichever one can be had.
    Expand { diff_base_buffer: Option<ModelId>, hunk: HoveredHunk },
    /// Draw the editor again.
    Notify,
}

/// An effect, with its blocks as a mathematical set.
pub enum EffectView {
    ClearHighlight { rows: Range<Anchor> },
    ClearAllHighlights,
    RemoveBlocks { blocks: Set<CustomBlockId> },
    Expand { diff_base_buffer: Option<ModelId>, hunk: HoveredHunk },
    Notify,
}

impl View for Effect {
    type V = EffectView;

    open spec fn view(&self) -> EffectView {
        match *self {
            Effect::ClearHighlight { rows } => EffectView::ClearHighlight { rows },
            Effect::ClearAllHighlights => EffectView::ClearAllHighlights,
            Effect::RemoveBlocks { blocks } => EffectView::RemoveBlocks { blocks: blocks@ },
            Effect::Expand { diff_base_buffer, hunk } => EffectView::Expand {
                diff_base_buffer,
                hunk,
            },
            Effect::Notify => EffectView::Notify,
        }
    }
}

/// The effects of a list, each by its view.
pub open spec fn effect_views(effects: Seq<Effect>) -> Seq<EffectView> {
    Seq::new(effects.len(), |i: int| effects[i]@)
}

/// Clears the highlights of `rows`, one after the other.
pub open spec fn clear_effects(rows: Seq<Range<Anchor>>) -> Seq<EffectView> {
    Seq::new(rows.len(), |i: int| EffectView::ClearHighlight { rows: rows[i] })
}

/// Expands `hunks`, one after the other, each with the same buffer of the diff base.
pub open spec fn expand_effects(diff_base_buffer: Option<ModelId>, hunks: Seq<HoveredHunk>) -> Seq<
    EffectView,
> {
    Seq::new(hunks.len(), |i: int| EffectView::Expand { diff_base_buffer, hunk: hunks[i] })
}

/// Lists the effects that take hunks off the screen: their highlights go first, then
/// their blocks, all at once.
pub fn removal_effects(rows: Vec<Range<Anchor>>, blocks: HashSet<CustomBlockId>) -> (effects: Vec<
    Effect,
>)
    ensures
        effect_views(effects@) == clear_effects(rows@).push(
            EffectView::RemoveBlocks { blocks: blocks@ },
        ),
{
    let mut effects: Vec<Effect> = Vec::new();
    let mut i: usize = 0;
    while i < rows.len()
        invariant
            i <= rows.len(),
            effects.len() == i,
            forall|j: int|
                0 <= j < i ==> (#[trigger] effects@[j])@ == (EffectView::ClearHighlight {
                    rows: rows@[j],
                }),
        decreases rows.len() - i,
    {
        effects.push(Effect::ClearHighlight { rows: copy_range(&rows[i]) });
        i = i + 1;
    }
    effects.push(Effect::RemoveBlocks { blocks });
    assert(effect_views(effects@) =~= clear_effects(rows@).push(
        EffectView::RemoveBlocks { blocks: blocks@ },
    ));
    effects
}

/// Adds to `effects` those that expand `hunks`.
pub fn push_expand_effects(
    effects: &mut Vec<Effect>,
    diff_base_buffer: Option<ModelId>,
    hunks: Vec<HoveredHunk>,
)
    ensures
        effect_views(final(effects)@) == effect_views(old(effects)@) + expand_effects(
            diff_base_buffer,
            hunks@,
        ),
        forall|i: int|
            0 <= i < old(effects)@.len() ==> #[trigger] final(effects)@[i] == old(effects)@[i],
{
    let ghost before = effects@;
    let mut i: usize = 0;
    while i < hunks.len()
        invariant
            i <= hunks.len(),
            effects.len() == before.len() + i,
            forall|j: int| 0 <= j < before.len() ==> #[trigger] effects@[j] == before[j],
            forall|j: int|
                before.len() <= j < before.len() + i ==> (#[trigger] effects@[j])@ == (
                EffectView::Expand { diff_base_buffer, hunk: hunks@[j - before.len()] }),
        decreases hunks.len() - i,
    {
        effects.push(Effect::Expand { diff_base_buffer, hunk: hunks[i].clone() });
        i = i + 1;
    }
    assert(effect_views(effects@) =~= effect_views(before) + expand_effects(
        diff_base_buffer,
        hunks@,
    ));
}

} // verus!
