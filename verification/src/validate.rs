//! An executable test of the session invariant on a given board and hand.

use crate::card::{Card, Suit, SENTINEL};
use crate::deal::build_deck;
use crate::layout::{
    canonical, cell_ok, copies, dragon, dragon_set, full_deck, is_run, lemma_count_of_member,
    lemma_deck_copies, lemma_empty_count, lemma_total_one_slot, ordered_deck, rose_card, rose_ok,
    sealed, sealed_with, stacks, total, Layout, DECK_SIZE, SLOTS,
};
use vstd::prelude::*;

verus! {

/// Every card of the stack is a card of the deck.
pub open spec fn only_deck(stack: Seq<Card>) -> bool {
    forall|i: int| 0 <= i < stack.len() ==> copies(#[trigger] stack[i]) > 0
}

/// The place of a card of the deck in the canonical order; for a dragon the
/// first of its four places.
pub open spec fn deck_position(card: Card) -> int {
    let within = if card.value == SENTINEL {
        9
    } else {
        card.value - 1
    };
    match card.suit {
        Suit::Red => within,
        Suit::Green => 13 + within,
        Suit::Black => 26 + within,
        Suit::Rose => 39,
    }
}

/// A card of the deck stands at its place in the canonical order.
pub proof fn lemma_deck_position(card: Card)
    requires
        copies(card) > 0,
    ensures
        0 <= deck_position(card) < DECK_SIZE,
        canonical(deck_position(card)) == card,
{
}

/// A card that occurs on the board occurs in one of its stacks.
proof fn lemma_total_member(piles: Seq<Seq<Card>>, card: Card) -> (slot: int)
    requires
        total(piles).count(card) > 0,
    ensures
        0 <= slot < piles.len(),
        piles[slot].to_multiset().count(card) > 0,
    decreases piles.len(),
{
    broadcast use vstd::multiset::group_multiset_axioms;

    if piles.len() == 0 {
        0
    } else if piles.last().to_multiset().count(card) > 0 {
        piles.len() - 1
    } else {
        lemma_total_member(piles.drop_last(), card)
    }
}

/// How often a card occurs in the deck.
pub fn deck_copies(card: Card) -> (count: usize)
    ensures
        count == copies(card),
{
    if card.suit == Suit::Rose {
        if card.value == SENTINEL {
            1
        } else {
            0
        }
    } else if card.value == SENTINEL {
        4
    } else if 1 <= card.value && card.value <= 9 {
        1
    } else {
        0
    }
}

/// Tells whether a holding cell may hold the stack.
pub fn cell_allowed(stack: &Vec<Card>) -> (ok: bool)
    ensures
        ok == cell_ok(stack@),
{
    if stack.len() <= 1 {
        return true;
    }
    if stack.len() != 4 {
        return false;
    }
    let first = stack[0];
    let all = first.is_dragon() && stack[1] == first && stack[2] == first && stack[3] == first;
    proof {
        if all {
            assert(stack@ =~= dragon_set(first.suit));
            assert(sealed_with(stack@, first.suit));
        } else if sealed(stack@) {
            let suit = first.suit;
            assert(stack@[0] == dragon(suit) && stack@[1] == dragon(suit) && stack@[2] == dragon(
                suit,
            ) && stack@[3] == dragon(suit));
        }
    }
    all
}

/// Tells whether the stack is the run from 1 of a suit.
pub fn is_run_of(stack: &Vec<Card>, suit: Suit) -> (ok: bool)
    ensures
        ok == is_run(stack@, suit),
{
    let mut i: usize = 0;
    while i < stack.len()
        invariant
            i <= stack.len(),
            forall|j: int| 0 <= j < i ==> (#[trigger] stack@[j]).suit == suit && stack@[j].value == j + 1,
        decreases stack.len() - i,
    {
        let card = stack[i];
        if i >= 127 || card.suit != suit || card.value != (i + 1) as i8 {
            assert(!(stack@[i as int].suit == suit && stack@[i as int].value == i + 1));
            return false;
        }
        i += 1;
    }
    true
}

/// Tells whether the Rose foundation may hold the stack.
pub fn rose_allowed(stack: &Vec<Card>) -> (ok: bool)
    ensures
        ok == rose_ok(stack@),
{
    if stack.len() == 0 {
        return true;
    }
    let ok = stack.len() == 1 && stack[0].suit == Suit::Rose && stack[0].value == SENTINEL;
    proof {
        if ok {
            assert(stack@ =~= seq![rose_card()]);
        } else if rose_ok(stack@) {
            assert(stack@[0] == rose_card());
        }
    }
    ok
}

/// Tells whether every card of the stack is a card of the deck.
pub fn only_deck_cards(stack: &Vec<Card>) -> (ok: bool)
    ensures
        ok == only_deck(stack@),
{
    let mut i: usize = 0;
    while i < stack.len()
        invariant
            i <= stack.len(),
            forall|j: int| 0 <= j < i ==> copies(#[trigger] stack@[j]) > 0,
        decreases stack.len() - i,
    {
        if deck_copies(stack[i]) == 0 {
            assert(copies(stack@[i as int]) == 0);
            return false;
        }
        i += 1;
    }
    true
}

/// Counts how often a card occurs in a stack.
pub fn copies_in_stack(stack: &Vec<Card>, card: Card) -> (count: usize)
    ensures
        count == stack@.to_multiset().count(card),
{
    let mut count: usize = 0;
    let mut i: usize = 0;
    proof {
        lemma_empty_count(card);
        assert(stack@.take(0) =~= Seq::<Card>::empty());
    }
    while i < stack.len()
        invariant
            i <= stack.len(),
            count <= i,
            count == stack@.take(i as int).to_multiset().count(card),
        decreases stack.len() - i,
    {
        proof {
            broadcast use vstd::seq_lib::group_to_multiset_ensures;
            broadcast use vstd::multiset::group_multiset_axioms;

            assert(stack@.take(i + 1) =~= stack@.take(i as int).push(stack@[i as int]));
        }
        if stack[i] == card {
            count += 1;
        }
        i += 1;
    }
    assert(stack@.take(stack@.len() as int) =~= stack@);
    count
}

/// Counts how often a card occurs on a board of at most sixteen stacks.
pub fn copies_on_board(board: &Vec<Vec<Card>>, card: Card) -> (count: u128)
    requires
        board@.len() <= 16,
    ensures
        count == total(stacks(*board)).count(card),
        count <= 16 * 0x1_0000_0000_0000_0000,
{
    let ghost piles = stacks(*board);
    let mut count: u128 = 0;
    let mut j: usize = 0;
    proof {
        broadcast use vstd::multiset::group_multiset_axioms;

        assert(piles.take(0) =~= Seq::<Seq<Card>>::empty());
    }
    while j < board.len()
        invariant
            j <= board@.len() <= 16,
            piles == stacks(*board),
            count <= j * 0x1_0000_0000_0000_0000,
            count == total(piles.take(j as int)).count(card),
        decreases board@.len() - j,
    {
        let here = copies_in_stack(&board[j], card);
        proof {
            broadcast use vstd::multiset::group_multiset_axioms;

            let upto = piles.take(j + 1);
            assert(upto.drop_last() =~= piles.take(j as int));
            assert(upto.last() == piles[j as int]);
        }
        count = count + here as u128;
        j += 1;
    }
    assert(piles.take(piles.len() as int) =~= piles);
    count
}

/// Tells whether no card occurs on the board and in the hand together more
/// often than the deck has it.
pub fn census_within_deck(board: &Vec<Vec<Card>>, hand: &Vec<Card>) -> (ok: bool)
    requires
        board@.len() == SLOTS,
    ensures
        ok == (Layout { piles: stacks(*board), hand: hand@, recentgrab: 0 }).census().subset_of(
            full_deck(),
        ),
{
    let ghost lay = Layout { piles: stacks(*board), hand: hand@, recentgrab: 0 };
    let mut j: usize = 0;
    while j < SLOTS
        invariant
            j <= SLOTS,
            board@.len() == SLOTS,
            lay == (Layout { piles: stacks(*board), hand: hand@, recentgrab: 0 }),
            forall|k: int| 0 <= k < j ==> only_deck(#[trigger] lay.piles[k]),
        decreases SLOTS - j,
    {
        if !only_deck_cards(&board[j]) {
            proof {
                broadcast use vstd::multiset::group_multiset_axioms;

                let stack = lay.piles[j as int];
                let i = choose|i: int| 0 <= i < stack.len() && copies(#[trigger] stack[i]) == 0;
                lemma_count_of_member(stack, i);
                lemma_total_one_slot(lay.piles, j as int, stack[i]);
                lemma_deck_copies(stack[i]);
            }
            return false;
        }
        j += 1;
    }
    if !only_deck_cards(hand) {
        proof {
            broadcast use vstd::multiset::group_multiset_axioms;

            let i = choose|i: int| 0 <= i < hand@.len() && copies(#[trigger] hand@[i]) == 0;
            lemma_count_of_member(hand@, i);
            lemma_deck_copies(hand@[i]);
        }
        return false;
    }
    let deck = build_deck();
    let mut k: usize = 0;
    while k < DECK_SIZE
        invariant
            k <= DECK_SIZE,
            board@.len() == SLOTS,
            deck@ == ordered_deck(),
            lay == (Layout { piles: stacks(*board), hand: hand@, recentgrab: 0 }),
            forall|p: int| 0 <= p < k ==> lay.census().count(#[trigger] canonical(p)) <= copies(canonical(p)),
        decreases DECK_SIZE - k,
    {
        let card = deck[k];
        let found = copies_on_board(board, card) + copies_in_stack(hand, card) as u128;
        proof {
            broadcast use vstd::multiset::group_multiset_axioms;

            assert(card == canonical(k as int));
            assert(found == lay.census().count(card));
            lemma_deck_copies(card);
        }
        if found > deck_copies(card) as u128 {
            return false;
        }
        k += 1;
    }
    proof {
        broadcast use vstd::seq_lib::group_to_multiset_ensures;
        broadcast use vstd::multiset::group_multiset_axioms;

        assert forall|card: Card| lay.census().count(card) <= full_deck().count(card) by {
            lemma_deck_copies(card);
            if copies(card) > 0 {
                lemma_deck_position(card);
                assert(lay.census().count(canonical(deck_position(card))) <= copies(card));
            } else if lay.census().count(card) > 0 {
                if hand@.to_multiset().count(card) > 0 {
                    assert(hand@.contains(card));
                    let i = choose|i: int| 0 <= i < hand@.len() && hand@[i] == card;
                    assert(copies(hand@[i]) > 0);
                } else {
                    let slot = lemma_total_member(lay.piles, card);
                    let stack = lay.piles[slot];
                    assert(stack.contains(card));
                    let i = choose|i: int| 0 <= i < stack.len() && stack[i] == card;
                    assert(only_deck(stack));
                    assert(copies(stack[i]) > 0);
                }
            }
        }
    }
    true
}

/// Tells whether a board and a hand make a well-formed layout.
pub fn well_formed(board: &Vec<Vec<Card>>, hand: &Vec<Card>) -> (ok: bool)
    ensures
        ok == (Layout { piles: stacks(*board), hand: hand@, recentgrab: 0 }).wf(),
{
    board.len() == SLOTS && cell_allowed(&board[8]) && cell_allowed(&board[9]) && cell_allowed(
        &board[10],
    ) && is_run_of(&board[11], Suit::Red) && is_run_of(&board[12], Suit::Green) && is_run_of(
        &board[13],
        Suit::Black,
    ) && rose_allowed(&board[14]) && Card::validstack(hand) && census_within_deck(board, hand)
}

} // verus!
