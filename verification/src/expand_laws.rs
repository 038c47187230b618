//! What holds of expanding hunks.
use vstd::prelude::*;

use crate::anchor::{Anchor, AnchorOrder};
use crate::expand::{
    expanded_hunk, fits_at, has_same, in_order, lemma_fits_at_once, placed_block,
    shows_what_it_should, Placement,
};
use crate::expanded::{
    blocks_distinct, blocks_of, hunk_well_formed, hunks_well_formed, ranges_of,
};
use crate::hunk::{CustomBlockId, ExpandedHunk, HoveredHunk};
use crate::menu::is_expanded;
use crate::order::sorted_by;

verus! {

/// The order of one position relative to another.
pub open spec fn order_of(position: int, other: int) -> AnchorOrder {
    if position < other {
        AnchorOrder::Before
    } else if position == other {
        AnchorOrder::Same
    } else {
        AnchorOrder::After
    }
}

/// The order of the starts of hunks relative to `start`, by their positions in the text.
pub open spec fn starts_relative_to(
    hunks: Seq<ExpandedHunk>,
    start: Anchor,
    position: spec_fn(Anchor) -> int,
) -> Seq<AnchorOrder> {
    Seq::new(
        hunks.len(),
        |i: int| order_of(position(hunks[i].hunk_range.start), position(start)),
    )
}

/// The starts of hunks that are in the order of the text are sorted relative to any anchor.
pub proof fn sorted_hunks_are_in_order(
    hunks: Seq<ExpandedHunk>,
    start: Anchor,
    position: spec_fn(Anchor) -> int,
)
    requires
        sorted_by(hunks, position),
    ensures
        in_order(starts_relative_to(hunks, start, position)),
{
    let starts = starts_relative_to(hunks, start, position);
    let ranges = ranges_of(hunks);
    assert forall|i: int, j: int|
        #![trigger starts[i], starts[j]]
        0 <= i <= j < starts.len() implies {
        &&& starts[j] is Before ==> starts[i] is Before
        &&& starts[i] is After ==> starts[j] is After
    } by {
        assert(ranges[i].start == hunks[i].hunk_range.start);
        assert(ranges[j].start == hunks[j].hunk_range.start);
    }
}

/// Expanding a hunk keeps the order of the expanded hunks: if each started after the one
/// before, each still does once the hunk has been put where it fits. So no two expanded
/// hunks ever start at the same place.
pub proof fn expansion_keeps_order(
    hunks: Seq<ExpandedHunk>,
    hunk: HoveredHunk,
    block: Option<CustomBlockId>,
    index: int,
    position: spec_fn(Anchor) -> int,
)
    requires
        sorted_by(hunks, position),
        fits_at(starts_relative_to(hunks, hunk.multi_buffer_range.start, position), index),
    ensures
        sorted_by(hunks.insert(index, expanded_hunk(hunk, block)), position),
{
    let start = hunk.multi_buffer_range.start;
    let starts = starts_relative_to(hunks, start, position);
    sorted_hunks_are_in_order(hunks, start, position);
    lemma_fits_at_once(starts, index);
    let after = hunks.insert(index, expanded_hunk(hunk, block));
    let ranges = ranges_of(hunks);
    let ranges_after = ranges_of(after);
    assert forall|i: int, j: int|
        #![trigger ranges_after[i], ranges_after[j]]
        0 <= i < j < ranges_after.len() implies position(ranges_after[i].start) < position(
        ranges_after[j].start,
    ) by {
        let before_i = if i < index {
            i
        } else {
            i - 1
        };
        let before_j = if j < index {
            j
        } else {
            j - 1
        };
        if i != index {
            assert(ranges_after[i] == ranges[before_i]);
        }
        if j != index {
            assert(ranges_after[j] == ranges[before_j]);
        }
        if i == index {
            assert(starts[before_j] is After);
        } else if j == index {
            assert(starts[before_i] is Before);
        } else {
            assert(before_i < before_j);
        }
    }
}

/// A hunk is expanded once only: as soon as it stands among the expanded hunks, there is no
/// place for another that starts where it does.
pub proof fn expanded_hunk_takes_its_place(
    hunks: Seq<ExpandedHunk>,
    hunk: HoveredHunk,
    block: Option<CustomBlockId>,
    index: int,
    position: spec_fn(Anchor) -> int,
)
    requires
        sorted_by(hunks, position),
        fits_at(starts_relative_to(hunks, hunk.multi_buffer_range.start, position), index),
    ensures
        ({
            let after = hunks.insert(index, expanded_hunk(hunk, block));
            let starts = starts_relative_to(after, hunk.multi_buffer_range.start, position);
            &&& in_order(starts)
            &&& has_same(starts)
            &&& forall|place: int| !#[trigger] fits_at(starts, place)
        }),
{
    let after = hunks.insert(index, expanded_hunk(hunk, block));
    let start = hunk.multi_buffer_range.start;
    let starts = starts_relative_to(after, start, position);
    expansion_keeps_order(hunks, hunk, block, index, position);
    sorted_hunks_are_in_order(after, start, position);
    assert(starts[index] is Same);
    assert forall|place: int| !#[trigger] fits_at(starts, place) by {
        if fits_at(starts, place) {
            lemma_fits_at_once(starts, place);
        }
    }
}

/// Expanding a hunk undoes its collapse: once a hunk has left the expanded hunks, the only
/// place into which one with the same start fits is the one that it had.
pub proof fn expansion_finds_the_old_place(
    hunks: Seq<ExpandedHunk>,
    index: int,
    position: spec_fn(Anchor) -> int,
)
    requires
        sorted_by(hunks, position),
        0 <= index < hunks.len(),
    ensures
        ({
            let starts = starts_relative_to(
                hunks.remove(index),
                hunks[index].hunk_range.start,
                position,
            );
            &&& in_order(starts)
            &&& !has_same(starts)
            &&& forall|place: int| #[trigger] fits_at(starts, place) <==> place == index
        }),
{
    let rest = hunks.remove(index);
    let start = hunks[index].hunk_range.start;
    let starts = starts_relative_to(rest, start, position);
    let ranges = ranges_of(hunks);
    let ranges_rest = ranges_of(rest);
    assert(ranges[index].start == start);
    assert forall|i: int, j: int|
        #![trigger ranges_rest[i], ranges_rest[j]]
        0 <= i < j < ranges_rest.len() implies position(ranges_rest[i].start) < position(
        ranges_rest[j].start,
    ) by {
        assert(ranges_rest[i] == ranges[if i < index {
            i
        } else {
            i + 1
        }]);
        assert(ranges_rest[j] == ranges[if j < index {
            j
        } else {
            j + 1
        }]);
    }
    assert(sorted_by(rest, position));
    sorted_hunks_are_in_order(rest, start, position);
    if index > 0 {
        assert(ranges[index - 1].start == rest[index - 1].hunk_range.start);
        assert(starts[index - 1] is Before);
    }
    if index < rest.len() {
        assert(ranges[index + 1].start == rest[index].hunk_range.start);
        assert(starts[index] is After);
    }
    assert(fits_at(starts, index));
    lemma_fits_at_once(starts, index);
}

/// Expanding a hunk keeps the expanded hunks well-formed, whatever blocks were inserted for
/// it.
pub proof fn expansion_keeps_well_formed(
    hunks: Seq<ExpandedHunk>,
    placement: Placement,
    new_block_ids: Seq<CustomBlockId>,
)
    requires
        hunks_well_formed(hunks),
        placement.index <= hunks.len(),
        shows_what_it_should(placement),
    ensures
        hunks_well_formed(
            hunks.insert(
                placement.index as int,
                expanded_hunk(placement.hunk, placed_block(placement, new_block_ids)),
            ),
        ),
{
    let index = placement.index as int;
    let after = hunks.insert(
        index,
        expanded_hunk(placement.hunk, placed_block(placement, new_block_ids)),
    );
    assert forall|i: int| 0 <= i < after.len() implies hunk_well_formed(#[trigger] after[i]) by {
        if i < index {
            assert(after[i] == hunks[i]);
        } else if i > index {
            assert(after[i] == hunks[i - 1]);
        }
    }
}

/// A hunk that has just been expanded is one that the menu offers to collapse.
pub proof fn expanded_hunk_can_be_collapsed(
    hunks: Seq<ExpandedHunk>,
    hunk: HoveredHunk,
    block: Option<CustomBlockId>,
    index: int,
)
    requires
        0 <= index <= hunks.len(),
    ensures
        is_expanded(hunks.insert(index, expanded_hunk(hunk, block)), hunk.multi_buffer_range),
{
    let after = hunks.insert(index, expanded_hunk(hunk, block));
    assert(after[index] == expanded_hunk(hunk, block));
}

/// Expanding a hunk adds its block, if it has one, to those of the expanded hunks, and takes
/// none away. A block that is new keeps the blocks distinct.
pub proof fn expansion_accounts_for_blocks(hunks: Seq<ExpandedHunk>, hunk: ExpandedHunk, index: int)
    requires
        0 <= index <= hunks.len(),
    ensures
        blocks_of(hunks.insert(index, hunk)) == match hunk.block {
            Some(block) => blocks_of(hunks).insert(block),
            None => blocks_of(hunks),
        },
        blocks_distinct(hunks) && (hunk.block is Some ==> !blocks_of(hunks).contains(hunk.block->0))
            ==> blocks_distinct(hunks.insert(index, hunk)),
{
    let after = hunks.insert(index, hunk);
    assert forall|i: int| 0 <= i < hunks.len() implies #[trigger] hunks[i] == after[if i < index {
        i
    } else {
        i + 1
    }] by {}
    assert forall|block: CustomBlockId| #[trigger] blocks_of(after).contains(block) <==> (
    blocks_of(hunks).contains(block) || hunk.block == Some(block)) by {
        if blocks_of(hunks).contains(block) {
            let i = choose|i: int|
                0 <= i < hunks.len() && (#[trigger] hunks[i]).block == Some(block);
            assert(after[if i < index {
                i
            } else {
                i + 1
            }] == hunks[i]);
        }
        assert(after[index] == hunk);
        if blocks_of(after).contains(block) {
            let i = choose|i: int|
                0 <= i < after.len() && (#[trigger] after[i]).block == Some(block);
            if i < index {
                assert(after[i] == hunks[i]);
            } else if i > index {
                assert(after[i] == hunks[i - 1]);
            }
        }
    }
    match hunk.block {
        Some(block) => assert(blocks_of(after) =~= blocks_of(hunks).insert(block)),
        None => assert(blocks_of(after) =~= blocks_of(hunks)),
    }
    if blocks_distinct(hunks) && (hunk.block is Some ==> !blocks_of(hunks).contains(
        hunk.block->0,
    )) {
        assert forall|i: int, j: int|
            #![trigger after[i], after[j]]
            0 <= i < j < after.len() && after[i].block is Some implies after[i].block
            != after[j].block by {
            let before_i = if i < index {
                i
            } else {
                i - 1
            };
            let before_j = if j < index {
                j
            } else {
                j - 1
            };
            if i != index {
                assert(after[i] == hunks[before_i]);
            }
            if j != index {
                assert(after[j] == hunks[before_j]);
            }
            if i == index {
                if hunks[before_j].block == hunk.block {
                    assert(blocks_of(hunks).contains(hunk.block->0));
                }
            } else if j == index {
                if hunks[before_i].block == hunk.block {
                    assert(blocks_of(hunks).contains(hunk.block->0));
                }
            }
        }
    }
}

} // verus!
