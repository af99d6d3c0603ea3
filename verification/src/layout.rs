//! The mathematical model of a session: fifteen stacks with fixed roles, the
//! hand, and the census of cards that every move conserves.

use crate::card::{validstack, Card, Suit, SENTINEL};
use vstd::multiset::Multiset;
use vstd::prelude::*;

verus! {

/// The number of slots on the board.
pub const SLOTS: usize = 15;

/// Slots below this one are tableau piles.
pub const TABLEAU_END: usize = 8;

/// Slots from `TABLEAU_END` up to this one are holding cells; the sweep and
/// the dragon stow look at the slots below it.
pub const CELLS_END: usize = 11;

/// The slot of the Rose foundation.
pub const ROSE_SLOT: usize = 14;

/// The number of cards in the deck.
pub const DECK_SIZE: usize = 40;

/// What a session holds: the stacks of the fifteen slots, each bottom first,
/// the hand, and the slot that the hand was last lifted from.
pub struct Layout {
    pub piles: Seq<Seq<Card>>,
    pub hand: Seq<Card>,
    pub recentgrab: int,
}

/// The stacks of a board as sequences.
pub open spec fn stacks(board: Vec<Vec<Card>>) -> Seq<Seq<Card>> {
    Seq::new(board@.len(), |i: int| board@[i]@)
}

/// The Rose card.
pub open spec fn rose_card() -> Card {
    Card { suit: Suit::Rose, value: SENTINEL }
}

/// The dragon of a suit.
pub open spec fn dragon(suit: Suit) -> Card {
    Card { suit, value: SENTINEL }
}

/// The card at position `i` of the deck in its canonical order: for Red,
/// Green and Black in turn the ranks 1 to 9 and four dragons, then the Rose
/// card.
pub open spec fn canonical(i: int) -> Card {
    if i >= 39 {
        rose_card()
    } else {
        let suit = if i < 13 {
            Suit::Red
        } else if i < 26 {
            Suit::Green
        } else {
            Suit::Black
        };
        let place = i % 13;
        Card {
            suit,
            value: if place < 9 {
                (place + 1) as i8
            } else {
                SENTINEL
            },
        }
    }
}

/// The first `n` cards of the canonical deck.
pub open spec fn deck_prefix(n: int) -> Seq<Card> {
    Seq::new(n as nat, |i: int| canonical(i))
}

/// The forty cards in canonical order.
pub open spec fn ordered_deck() -> Seq<Card> {
    deck_prefix(DECK_SIZE as int)
}

/// The deck as a multiset.
pub open spec fn full_deck() -> Multiset<Card> {
    ordered_deck().to_multiset()
}

/// How often a card occurs in the deck: four times for a dragon, once for a
/// rank from 1 to 9 of a ranked suit and for the Rose card, never otherwise.
pub open spec fn copies(card: Card) -> nat {
    if card.suit == Suit::Rose {
        if card.value == SENTINEL {
            1
        } else {
            0
        }
    } else if card.value == SENTINEL {
        4
    } else if 1 <= card.value <= 9 {
        1
    } else {
        0
    }
}

/// The cards of all stacks of `piles` together.
pub open spec fn total(piles: Seq<Seq<Card>>) -> Multiset<Card>
    decreases piles.len(),
{
    if piles.len() == 0 {
        Multiset::empty()
    } else {
        total(piles.drop_last()).add(piles.last().to_multiset())
    }
}

/// Four dragons of one suit, as a sealed cell holds them.
pub open spec fn dragon_set(suit: Suit) -> Seq<Card> {
    Seq::new(4, |i: int| dragon(suit))
}

/// The stack is the sealed set of four dragons of `suit`.
pub open spec fn sealed_with(stack: Seq<Card>, suit: Suit) -> bool {
    suit != Suit::Rose && stack == dragon_set(suit)
}

/// The stack is a sealed set of four dragons of some suit.
pub open spec fn sealed(stack: Seq<Card>) -> bool {
    sealed_with(stack, Suit::Red) || sealed_with(stack, Suit::Green) || sealed_with(
        stack,
        Suit::Black,
    )
}

/// What a holding cell may hold: nothing, one card, or a sealed dragon set.
pub open spec fn cell_ok(stack: Seq<Card>) -> bool {
    stack.len() <= 1 || sealed(stack)
}

/// The stack is the run 1, 2, .., n of `suit` for its length n.
pub open spec fn is_run(stack: Seq<Card>, suit: Suit) -> bool {
    forall|i: int|
        0 <= i < stack.len() ==> (#[trigger] stack[i]).suit == suit && stack[i].value == i + 1
}

/// What the Rose foundation may hold: nothing, or the Rose card.
pub open spec fn rose_ok(stack: Seq<Card>) -> bool {
    stack.len() == 0 || stack == seq![rose_card()]
}

impl Layout {
    /// All cards of the session: those on the board and those in the hand.
    pub open spec fn census(self) -> Multiset<Card> {
        total(self.piles).add(self.hand.to_multiset())
    }

    /// The invariant of a session. There are fifteen slots; each holding
    /// cell is empty, holds one card or is sealed; each suit foundation is
    /// the run from 1 of its suit; the Rose foundation holds at most the
    /// Rose card; the hand is a valid stack; and no card occurs more often
    /// than the deck has it.
    pub open spec fn wf(self) -> bool {
        &&& self.piles.len() == SLOTS
        &&& cell_ok(self.piles[8])
        &&& cell_ok(self.piles[9])
        &&& cell_ok(self.piles[10])
        &&& is_run(self.piles[11], Suit::Red)
        &&& is_run(self.piles[12], Suit::Green)
        &&& is_run(self.piles[13], Suit::Black)
        &&& rose_ok(self.piles[14])
        &&& validstack(self.hand)
        &&& self.census().subset_of(full_deck())
    }

    /// The session holds the whole deck.
    pub open spec fn complete(self) -> bool {
        self.census() == full_deck()
    }

    /// The game is won: the hand and the eight tableau piles are empty.
    pub open spec fn won(self) -> bool {
        self.hand.len() == 0 && forall|i: int|
            0 <= i < TABLEAU_END ==> (#[trigger] self.piles[i]).len() == 0
    }
}

spec fn copies_below(n: int, card: Card) -> nat
    decreases n,
{
    if n <= 0 {
        0
    } else {
        copies_below(n - 1, card) + if canonical(n - 1) == card {
            1nat
        } else {
            0nat
        }
    }
}

proof fn lemma_prefix_count(n: int, card: Card)
    requires
        0 <= n,
    ensures
        deck_prefix(n).to_multiset().count(card) == copies_below(n, card),
    decreases n,
{
    broadcast use vstd::seq_lib::group_to_multiset_ensures;
    broadcast use vstd::multiset::group_multiset_axioms;

    if n == 0 {
        assert(deck_prefix(0).to_multiset().len() == 0);
    } else {
        lemma_prefix_count(n - 1, card);
        assert(deck_prefix(n) =~= deck_prefix(n - 1).push(canonical(n - 1)));
    }
}

/// The deck holds each card as often as `copies` says.
pub proof fn lemma_deck_copies(card: Card)
    ensures
        full_deck().count(card) == copies(card),
{
    lemma_prefix_count(40, card);
    assert(copies_below(40, card) == copies(card)) by {
        reveal_with_fuel(copies_below, 41);
    }
}

/// The empty stack holds no card.
pub proof fn lemma_empty_count(card: Card)
    ensures
        Seq::<Card>::empty().to_multiset().count(card) == 0,
{
    broadcast use vstd::seq_lib::group_to_multiset_ensures;
    broadcast use vstd::multiset::group_multiset_axioms;

    assert(Seq::<Card>::empty().to_multiset().len() == 0);
}

/// Replacing one stack changes the total by the difference of the two.
pub proof fn lemma_total_update(piles: Seq<Seq<Card>>, i: int, stack: Seq<Card>)
    requires
        0 <= i < piles.len(),
    ensures
        total(piles.update(i, stack)).add(piles[i].to_multiset()) =~= total(piles).add(
            stack.to_multiset(),
        ),
    decreases piles.len(),
{
    broadcast use vstd::multiset::group_multiset_axioms;

    let changed = piles.update(i, stack);
    let left = total(changed).add(piles[i].to_multiset());
    let right = total(piles).add(stack.to_multiset());
    if i == piles.len() - 1 {
        assert(changed.drop_last() =~= piles.drop_last());
        assert(changed.last() == stack);
    } else {
        lemma_total_update(piles.drop_last(), i, stack);
        assert(changed.drop_last() =~= piles.drop_last().update(i, stack));
        assert(changed.last() == piles.last());
        assert(piles.drop_last()[i] == piles[i]);
    }
    assert forall|card: Card| left.count(card) == right.count(card) by {
        if i != piles.len() - 1 {
            let inner_left = total(piles.drop_last().update(i, stack)).add(piles[i].to_multiset());
            let inner_right = total(piles.drop_last()).add(stack.to_multiset());
            assert(inner_left.count(card) == inner_right.count(card));
        }
    }
}

/// A card occurs on the board at least as often as in two different slots
/// together.
pub proof fn lemma_total_two_slots(piles: Seq<Seq<Card>>, i: int, j: int, card: Card)
    requires
        0 <= i < piles.len(),
        0 <= j < piles.len(),
        i != j,
    ensures
        total(piles).count(card) >= piles[i].to_multiset().count(card) + piles[j].to_multiset().count(
            card,
        ),
{
    broadcast use vstd::multiset::group_multiset_axioms;

    let none = Seq::<Card>::empty();
    let first = piles.update(i, none);
    let second = first.update(j, none);
    lemma_empty_count(card);
    lemma_total_update(piles, i, none);
    lemma_total_update(first, j, none);
    assert(total(first).add(piles[i].to_multiset()).count(card) == total(piles).add(
        none.to_multiset(),
    ).count(card));
    assert(total(second).add(first[j].to_multiset()).count(card) == total(first).add(
        none.to_multiset(),
    ).count(card));
}

/// A card occurs on the board at least as often as in one slot.
pub proof fn lemma_total_one_slot(piles: Seq<Seq<Card>>, i: int, card: Card)
    requires
        0 <= i < piles.len(),
    ensures
        total(piles).count(card) >= piles[i].to_multiset().count(card),
{
    broadcast use vstd::multiset::group_multiset_axioms;

    let none = Seq::<Card>::empty();
    lemma_empty_count(card);
    lemma_total_update(piles, i, none);
    assert(total(piles.update(i, none)).add(piles[i].to_multiset()).count(card) == total(piles).add(
        none.to_multiset(),
    ).count(card));
}

/// A card of a stack occurs in it.
pub proof fn lemma_count_of_member(stack: Seq<Card>, i: int)
    requires
        0 <= i < stack.len(),
    ensures
        stack.to_multiset().count(stack[i]) >= 1,
{
    broadcast use vstd::seq_lib::group_to_multiset_ensures;

    assert(stack.contains(stack[i]));
}

/// A sealed set holds its dragon four times.
pub proof fn lemma_dragon_set_count(suit: Suit)
    ensures
        dragon_set(suit).to_multiset().count(dragon(suit)) == 4,
        dragon_set(suit).to_multiset().len() == 4,
{
    broadcast use vstd::seq_lib::group_to_multiset_ensures;
    broadcast use vstd::multiset::group_multiset_axioms;

    let d = dragon(suit);
    let none = Seq::<Card>::empty();
    assert(none.to_multiset().len() == 0);
    assert(dragon_set(suit) =~= none.push(d).push(d).push(d).push(d));
}

/// In a well-formed layout every card that occurs is a card of the deck, and
/// occurs no more often than the deck has it.
pub proof fn lemma_census_bound(lay: Layout, card: Card)
    requires
        lay.wf(),
    ensures
        lay.census().count(card) <= copies(card),
{
    lemma_deck_copies(card);
}

/// In a well-formed layout a suit foundation holds at most nine cards.
pub proof fn lemma_foundation_short(lay: Layout, slot: int)
    requires
        lay.wf(),
        11 <= slot < 14,
    ensures
        lay.piles[slot].len() <= 9,
{
    broadcast use vstd::multiset::group_multiset_axioms;

    let stack = lay.piles[slot];
    if stack.len() > 9 {
        let card = stack[9];
        assert(card.value == 10);
        lemma_count_of_member(stack, 9);
        lemma_total_one_slot(lay.piles, slot, card);
        lemma_census_bound(lay, card);
    }
}

} // verus!
