//! The rules of the game as functions on layouts: what a grab, a placement,
//! a dragon stow and the promotion sweep make of a layout, and when each is
//! refused.

use crate::card::{
    foundation_of, is_dragon_of, is_rose, stackable, suit_of_foundation, validstack, Card, Suit,
};
use crate::layout::{
    dragon_set, sealed_with, Layout, CELLS_END, ROSE_SLOT, SLOTS, TABLEAU_END,
};
use vstd::prelude::*;

verus! {

/// Why a move was refused.
#[derive(Clone, Copy, Debug, PartialEq, Eq, Structural)]
pub enum MoveError {
    /// The slot cannot be the source or destination of this move.
    InvalidSlot,
    /// For a tableau pile no start index was given, or one beyond its cards.
    IndexOutOfRange,
    /// The cards from the start index up are not a valid stack.
    NotAValidRun,
    /// A grab was asked for while the hand holds cards.
    HandNotEmpty,
    /// A placement was asked for while the hand is empty.
    HandEmpty,
    /// The holding cell already holds a card.
    DestinationOccupied,
    /// The card does not fit the destination by suit or rank.
    WrongSuitOrRank,
    /// The card is of the foundation's suit but not its next rank.
    FoundationGap,
    /// The holding cell is sealed.
    SealedCell,
    /// Not exactly four dragons of the suit lie on top of slots.
    NotEnoughDragonsExposed,
    /// No holding cell can take the dragons.
    NoAvailableHoldingCell,
    /// The holding cell or foundation to grab from holds no card.
    EmptySlot,
    /// The hand holds more than the one card that the destination takes.
    TooManyCards,
}

/// A card that the sweep moved, and the foundation slot it went to.
#[derive(Clone, Copy, Debug, PartialEq, Eq, Structural)]
pub struct Promotion {
    pub card: Card,
    pub destination: usize,
}

/// The layout after lifting the cards of `slot` from index `from` up.
pub open spec fn lifted(lay: Layout, slot: int, from: int) -> Layout {
    Layout {
        piles: lay.piles.update(slot, lay.piles[slot].take(from)),
        hand: lay.piles[slot].skip(from),
        recentgrab: slot,
    }
}

/// What a grab from `slot` makes of a layout. From a tableau pile the cards
/// from `index` up are lifted if they are a valid stack; from a holding cell
/// its single card; from a suit foundation its top card.
pub open spec fn grab_outcome(lay: Layout, slot: int, index: Option<usize>) -> Result<
    Layout,
    MoveError,
> {
    let stack = lay.piles[slot];
    if lay.hand.len() > 0 {
        Err(MoveError::HandNotEmpty)
    } else if slot < 0 || slot >= ROSE_SLOT {
        Err(MoveError::InvalidSlot)
    } else if slot < TABLEAU_END {
        match index {
            None => Err(MoveError::IndexOutOfRange),
            Some(from) => if from >= stack.len() {
                Err(MoveError::IndexOutOfRange)
            } else if !validstack(stack.skip(from as int)) {
                Err(MoveError::NotAValidRun)
            } else {
                Ok(lifted(lay, slot, from as int))
            },
        }
    } else if stack.len() == 0 {
        Err(MoveError::EmptySlot)
    } else if slot < CELLS_END && stack.len() != 1 {
        Err(MoveError::SealedCell)
    } else {
        Ok(lifted(lay, slot, stack.len() - 1))
    }
}

/// The layout after putting the whole hand on `slot`.
pub open spec fn dropped(lay: Layout, slot: int) -> Layout {
    Layout {
        piles: lay.piles.update(slot, lay.piles[slot] + lay.hand),
        hand: Seq::empty(),
        recentgrab: lay.recentgrab,
    }
}

/// What placing the hand on `slot` makes of a layout. A tableau pile takes
/// the hand if the pile is empty, if the hand came from it, or if the hand's
/// bottom card may lie on its top card. An empty holding cell takes a single
/// card. A suit foundation takes the next rank of its suit, the Rose
/// foundation the Rose card.
pub open spec fn place_outcome(lay: Layout, slot: int) -> Result<Layout, MoveError> {
    let stack = lay.piles[slot];
    if lay.hand.len() == 0 {
        Err(MoveError::HandEmpty)
    } else if slot < 0 || slot >= SLOTS {
        Err(MoveError::InvalidSlot)
    } else if slot < TABLEAU_END {
        if stack.len() == 0 || slot == lay.recentgrab || stackable(stack.last(), lay.hand[0]) {
            Ok(dropped(lay, slot))
        } else {
            Err(MoveError::WrongSuitOrRank)
        }
    } else if slot < CELLS_END {
        if stack.len() > 1 {
            Err(MoveError::SealedCell)
        } else if stack.len() == 1 {
            Err(MoveError::DestinationOccupied)
        } else if lay.hand.len() != 1 {
            Err(MoveError::TooManyCards)
        } else {
            Ok(dropped(lay, slot))
        }
    } else if lay.hand.len() != 1 {
        Err(MoveError::TooManyCards)
    } else if lay.hand[0].suit != suit_of_foundation(slot) {
        Err(MoveError::WrongSuitOrRank)
    } else if slot < ROSE_SLOT && lay.hand[0].value != stack.len() + 1 {
        Err(MoveError::FoundationGap)
    } else {
        Ok(dropped(lay, slot))
    }
}

/// The top card of the stack is a dragon of `suit`.
pub open spec fn top_is_dragon(stack: Seq<Card>, suit: Suit) -> bool {
    stack.len() > 0 && is_dragon_of(stack.last(), suit)
}

/// How many of the slots below `upto` have a dragon of `suit` on top.
pub open spec fn exposed(piles: Seq<Seq<Card>>, suit: Suit, upto: int) -> nat
    decreases upto,
{
    if upto <= 0 {
        0
    } else {
        exposed(piles, suit, upto - 1) + if top_is_dragon(piles[upto - 1], suit) {
            1nat
        } else {
            0nat
        }
    }
}

/// The holding cell that a stow of `suit` would fill: the first empty one,
/// else the first one sealed with that suit's dragons.
pub open spec fn stow_destination(piles: Seq<Seq<Card>>, suit: Suit) -> Option<int> {
    if piles[8].len() == 0 {
        Some(8)
    } else if piles[9].len() == 0 {
        Some(9)
    } else if piles[10].len() == 0 {
        Some(10)
    } else if sealed_with(piles[8], suit) {
        Some(8)
    } else if sealed_with(piles[9], suit) {
        Some(9)
    } else if sealed_with(piles[10], suit) {
        Some(10)
    } else {
        None
    }
}

/// The board after a stow of `suit` into `dest`: every dragon of the suit on
/// top of a tableau pile or holding cell is gone, and `dest` holds the four.
pub open spec fn stowed(piles: Seq<Seq<Card>>, suit: Suit, dest: int) -> Seq<Seq<Card>> {
    Seq::new(
        piles.len(),
        |i: int|
            if i == dest {
                dragon_set(suit)
            } else if i < CELLS_END && top_is_dragon(piles[i], suit) {
                piles[i].drop_last()
            } else {
                piles[i]
            },
    )
}

/// What a stow of the dragons of `suit` makes of a layout. It needs a
/// holding cell to fill and exactly four exposed dragons of the suit.
pub open spec fn stow_outcome(lay: Layout, suit: Suit) -> Result<Layout, MoveError> {
    match stow_destination(lay.piles, suit) {
        None => Err(MoveError::NoAvailableHoldingCell),
        Some(dest) => if exposed(lay.piles, suit, CELLS_END as int) != 4 {
            Err(MoveError::NotEnoughDragonsExposed)
        } else {
            Ok(
                Layout {
                    piles: stowed(lay.piles, suit, dest),
                    hand: lay.hand,
                    recentgrab: lay.recentgrab,
                },
            )
        },
    }
}

/// The rank that the sweep promotes: one more than the shortest of the three
/// suit foundations.
pub open spec fn level(piles: Seq<Seq<Card>>) -> int {
    let red = piles[11].len() as int;
    let green = piles[12].len() as int;
    let black = piles[13].len() as int;
    1 + if red <= green && red <= black {
        red
    } else if green <= black {
        green
    } else {
        black
    }
}

/// The top card of slot `i` is due for promotion: it has the level's rank or
/// is the Rose card.
pub open spec fn promotable(piles: Seq<Seq<Card>>, i: int) -> bool {
    piles[i].len() > 0 && (piles[i].last().value == level(piles) || is_rose(piles[i].last()))
}

/// The first slot from `from` on, below the foundations, whose top card is
/// due for promotion; `CELLS_END` if there is none.
pub open spec fn next_promotable(piles: Seq<Seq<Card>>, from: int) -> int
    decreases CELLS_END - from,
{
    if from >= CELLS_END {
        CELLS_END as int
    } else if promotable(piles, from) {
        from
    } else {
        next_promotable(piles, from + 1)
    }
}

/// The board after the top card of slot `i` went to its foundation.
pub open spec fn promoted(piles: Seq<Seq<Card>>, i: int) -> Seq<Seq<Card>> {
    let card = piles[i].last();
    let home = foundation_of(card.suit);
    piles.update(i, piles[i].drop_last()).update(home, piles[home].push(card))
}

/// The number of cards on the tableau piles and holding cells.
pub open spec fn load(piles: Seq<Seq<Card>>) -> nat {
    piles[0].len() + piles[1].len() + piles[2].len() + piles[3].len() + piles[4].len()
        + piles[5].len() + piles[6].len() + piles[7].len() + piles[8].len() + piles[9].len()
        + piles[10].len()
}

/// The board after the sweep: the first card due for promotion goes to its
/// foundation, and the scan starts again, until none is due.
pub open spec fn sweep(piles: Seq<Seq<Card>>) -> Seq<Seq<Card>>
    decreases load(piles),
{
    let i = next_promotable(piles, 0);
    if piles.len() != SLOTS || i < 0 || i >= CELLS_END || piles[i].len() == 0 {
        piles
    } else {
        sweep(promoted(piles, i))
    }
}

/// The promotions of the sweep, in the order in which they happen.
pub open spec fn sweep_events(piles: Seq<Seq<Card>>) -> Seq<Promotion>
    decreases load(piles),
{
    let i = next_promotable(piles, 0);
    if piles.len() != SLOTS || i < 0 || i >= CELLS_END || piles[i].len() == 0 {
        Seq::empty()
    } else {
        let card = piles[i].last();
        seq![Promotion { card, destination: foundation_of(card.suit) as usize }] + sweep_events(
            promoted(piles, i),
        )
    }
}

/// What the sweep makes of a layout. It runs only while the hand is empty.
pub open spec fn sweep_outcome(lay: Layout) -> Layout {
    if lay.hand.len() > 0 {
        lay
    } else {
        Layout { piles: sweep(lay.piles), hand: lay.hand, recentgrab: lay.recentgrab }
    }
}

/// The promotions that the sweep of a layout makes.
pub open spec fn sweep_report(lay: Layout) -> Seq<Promotion> {
    if lay.hand.len() > 0 {
        Seq::empty()
    } else {
        sweep_events(lay.piles)
    }
}

/// No card on a tableau pile or holding cell is due for promotion.
pub open spec fn settled(piles: Seq<Seq<Card>>) -> bool {
    forall|i: int| 0 <= i < CELLS_END ==> !promotable(piles, i)
}

} // verus!
