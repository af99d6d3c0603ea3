//! What holds of the rules in every position.

use crate::card::{
    lemma_validstack_join, stackable, suit_of_foundation, validstack, Card, Suit,
};
use crate::deal::initial_layout;
use crate::invariants::{lemma_exposed_means_unsealed, lemma_promote_keeps};
use crate::layout::{
    dragon_set, lemma_foundation_short, sealed_with, Layout, CELLS_END, ROSE_SLOT, TABLEAU_END,
};
use crate::rules::{
    exposed, grab_outcome, load, next_promotable, place_outcome, promotable, promoted, settled,
    stow_destination, stow_outcome, sweep, top_is_dragon, MoveError,
};
use vstd::prelude::*;

verus! {

/// Two games started from the same seed start from the same layout.
pub proof fn lemma_same_seed_same_layout(first: u64, second: u64)
    requires
        first == second,
    ensures
        initial_layout(first) == initial_layout(second),
{
}

/// A placement onto a tableau pile that is a valid stack, made because the
/// pile is empty or because the hand fits its top card, leaves the pile a
/// valid stack.
pub proof fn lemma_placement_keeps_run(lay: Layout, slot: int)
    requires
        lay.wf(),
        0 <= slot < TABLEAU_END,
        place_outcome(lay, slot) is Ok,
        validstack(lay.piles[slot]),
        lay.piles[slot].len() == 0 || stackable(lay.piles[slot].last(), lay.hand[0]),
    ensures
        validstack(place_outcome(lay, slot)->Ok_0.piles[slot]),
{
    lemma_validstack_join(lay.piles[slot], lay.hand);
}

/// With an empty hand the top card of a tableau pile can always be lifted.
pub proof fn lemma_top_card_can_be_grabbed(lay: Layout, slot: int, index: usize)
    requires
        lay.wf(),
        lay.hand.len() == 0,
        0 <= slot < TABLEAU_END,
        index + 1 == lay.piles[slot].len(),
    ensures
        grab_outcome(lay, slot, Some(index)) == Ok::<Layout, MoveError>(
            Layout {
                piles: lay.piles.update(slot, lay.piles[slot].drop_last()),
                hand: seq![lay.piles[slot].last()],
                recentgrab: slot,
            },
        ),
{
    let stack = lay.piles[slot];
    assert(stack.skip(index as int) =~= seq![stack.last()]);
    assert(stack.take(index as int) =~= stack.drop_last());
}

/// An empty tableau pile takes whatever the hand holds.
pub proof fn lemma_empty_pile_takes_hand(lay: Layout, slot: int)
    requires
        lay.wf(),
        lay.hand.len() > 0,
        0 <= slot < TABLEAU_END,
        lay.piles[slot].len() == 0,
    ensures
        place_outcome(lay, slot) == Ok::<Layout, MoveError>(
            Layout {
                piles: lay.piles.update(slot, lay.hand),
                hand: Seq::empty(),
                recentgrab: lay.recentgrab,
            },
        ),
{
    assert(lay.piles[slot] + lay.hand =~= lay.hand);
}

/// A foundation refuses a single card of another suit, and the layout stays
/// as it is.
pub proof fn lemma_foundation_refuses_other_suit(lay: Layout, slot: int)
    requires
        lay.wf(),
        lay.hand.len() == 1,
        CELLS_END <= slot <= ROSE_SLOT,
        lay.hand[0].suit != suit_of_foundation(slot),
    ensures
        place_outcome(lay, slot) == Err::<Layout, MoveError>(MoveError::WrongSuitOrRank),
{
}

/// Cards lifted from a tableau pile can always go back: the placement is
/// accepted and the pile is as it was before the grab.
pub proof fn lemma_return_restores(lay: Layout, slot: int, index: Option<usize>)
    requires
        lay.wf(),
        0 <= slot < TABLEAU_END,
        grab_outcome(lay, slot, index) is Ok,
    ensures
        place_outcome(grab_outcome(lay, slot, index)->Ok_0, slot) == Ok::<Layout, MoveError>(
            Layout { piles: lay.piles, hand: Seq::empty(), recentgrab: slot },
        ),
{
    let mid = grab_outcome(lay, slot, index)->Ok_0;
    let from = index->Some_0 as int;
    let back = place_outcome(mid, slot)->Ok_0;
    assert(mid.hand.len() > 0);
    assert(lay.piles[slot].take(from) + lay.piles[slot].skip(from) =~= lay.piles[slot]);
    assert(back.piles =~= lay.piles);
}

/// In a well-formed layout each suit foundation holds exactly the ranks 1
/// to n of its suit in order, for some n up to 9.
pub proof fn lemma_foundation_is_run(lay: Layout, slot: int)
    requires
        lay.wf(),
        11 <= slot < 14,
    ensures
        lay.piles[slot].len() <= 9,
        lay.piles[slot] == Seq::new(
            lay.piles[slot].len(),
            |i: int| Card { suit: suit_of_foundation(slot), value: (i + 1) as i8 },
        ),
{
    lemma_foundation_short(lay, slot);
    let stack = lay.piles[slot];
    let run = Seq::new(
        stack.len(),
        |i: int| Card { suit: suit_of_foundation(slot), value: (i + 1) as i8 },
    );
    assert forall|i: int| 0 <= i < stack.len() implies stack[i] == run[i] by {
        assert(stack[i].suit == suit_of_foundation(slot) && stack[i].value == i + 1);
    }
    assert(stack =~= run);
}

/// A stow of a suit's dragons succeeds exactly when four dragons of the
/// suit lie on top of tableau piles and holding cells and a holding cell is
/// empty or sealed with that suit. It then takes those four tops off their
/// slots, leaves every other stack as it was, and fills one holding cell
/// with the sealed set.
pub proof fn lemma_stow_succeeds_iff(lay: Layout, suit: Suit)
    requires
        lay.wf(),
    ensures
        stow_outcome(lay, suit) is Ok <==> exposed(lay.piles, suit, CELLS_END as int) == 4 && exists|
            cell: int,
        |
            8 <= cell < CELLS_END && (#[trigger] lay.piles[cell].len() == 0 || sealed_with(
                lay.piles[cell],
                suit,
            )),
        stow_outcome(lay, suit) matches Ok(next) ==> {
            let dest = stow_destination(lay.piles, suit)->Some_0;
            &&& 8 <= dest < CELLS_END
            &&& lay.piles[dest].len() == 0
            &&& next.piles.len() == lay.piles.len()
            &&& next.piles[dest] == dragon_set(suit)
            &&& next.hand == lay.hand
            &&& forall|i: int|
                0 <= i < lay.piles.len() && i != dest ==> #[trigger] next.piles[i] == if i
                    < CELLS_END && top_is_dragon(lay.piles[i], suit) {
                    lay.piles[i].drop_last()
                } else {
                    lay.piles[i]
                }
        },
{
    if stow_outcome(lay, suit) is Ok {
        lemma_exposed_means_unsealed(lay, suit, 8);
        lemma_exposed_means_unsealed(lay, suit, 9);
        lemma_exposed_means_unsealed(lay, suit, 10);
        let dest = stow_destination(lay.piles, suit)->Some_0;
        assert(lay.piles[dest].len() == 0 || sealed_with(lay.piles[dest], suit));
    }
    if exposed(lay.piles, suit, CELLS_END as int) == 4 && exists|cell: int|
        8 <= cell < CELLS_END && (#[trigger] lay.piles[cell].len() == 0 || sealed_with(
            lay.piles[cell],
            suit,
        )) {
        let cell = choose|cell: int|
            8 <= cell < CELLS_END && (#[trigger] lay.piles[cell].len() == 0 || sealed_with(
                lay.piles[cell],
                suit,
            ));
        assert(stow_destination(lay.piles, suit) is Some);
    }
}

/// The first slot due for promotion from `from` on is due, and no slot
/// between is.
pub proof fn lemma_next_promotable(piles: Seq<Seq<Card>>, from: int)
    requires
        0 <= from <= CELLS_END,
    ensures
        from <= next_promotable(piles, from) <= CELLS_END,
        next_promotable(piles, from) < CELLS_END ==> promotable(
            piles,
            next_promotable(piles, from),
        ),
        forall|j: int| from <= j < next_promotable(piles, from) ==> !promotable(piles, j),
    decreases CELLS_END - from,
{
    if from < CELLS_END && !promotable(piles, from) {
        lemma_next_promotable(piles, from + 1);
    }
}

/// The sweep of a well-formed layout ends in a well-formed layout with the
/// same cards in which no card is due for promotion.
pub proof fn lemma_sweep_settles(lay: Layout)
    requires
        lay.wf(),
    ensures
        ({
            let done = Layout {
                piles: sweep(lay.piles),
                hand: lay.hand,
                recentgrab: lay.recentgrab,
            };
            done.wf() && done.census() == lay.census() && settled(done.piles)
        }),
    decreases load(lay.piles),
{
    let slot = next_promotable(lay.piles, 0);
    lemma_next_promotable(lay.piles, 0);
    if slot < CELLS_END {
        lemma_promote_keeps(lay, slot);
        lemma_sweep_settles(
            Layout { piles: promoted(lay.piles, slot), hand: lay.hand, recentgrab: lay.recentgrab },
        );
    }
}

/// Whether a game is won depends on the hand and the tableau piles alone.
pub proof fn lemma_won_ignores_cells_and_foundations(first: Layout, second: Layout)
    requires
        first.hand == second.hand,
        forall|i: int| 0 <= i < TABLEAU_END ==> first.piles[i] == second.piles[i],
    ensures
        first.won() == second.won(),
{
    if first.won() {
        assert forall|i: int| 0 <= i < TABLEAU_END implies (#[trigger] second.piles[i]).len()
            == 0 by {
            assert(first.piles[i].len() == 0);
        }
    }
    if second.won() {
        assert forall|i: int| 0 <= i < TABLEAU_END implies (#[trigger] first.piles[i]).len()
            == 0 by {
            assert(second.piles[i].len() == 0);
        }
    }
}

} // verus!
