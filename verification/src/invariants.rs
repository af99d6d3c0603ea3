//! Every rule keeps a layout well-formed and neither creates nor destroys a
//! card.

use crate::card::{foundation_of, suit_of_foundation, validstack, Card, Suit};
use crate::layout::{
    cell_ok, copies, dragon, is_run, lemma_census_bound, lemma_count_of_member,
    lemma_dragon_set_count, lemma_empty_count, lemma_total_one_slot, lemma_total_two_slots,
    lemma_total_update, rose_card, sealed_with, total, Layout, CELLS_END,
};
use crate::rules::{
    dropped, exposed, grab_outcome, level, lifted, place_outcome, promotable, promoted,
    top_is_dragon,
};
use vstd::prelude::*;

verus! {

/// The board after the top card of slot `i` went onto slot `j`.
pub open spec fn moved_top(piles: Seq<Seq<Card>>, i: int, j: int) -> Seq<Seq<Card>> {
    piles.update(i, piles[i].drop_last()).update(j, piles[j].push(piles[i].last()))
}

/// Moving the top card of one slot onto another leaves the cards of the
/// board the same.
pub proof fn lemma_moved_top_total(piles: Seq<Seq<Card>>, i: int, j: int)
    requires
        0 <= i < piles.len(),
        0 <= j < piles.len(),
        i != j,
        piles[i].len() > 0,
    ensures
        total(moved_top(piles, i, j)) == total(piles),
{
    broadcast use vstd::seq_lib::group_to_multiset_ensures;
    broadcast use vstd::multiset::group_multiset_axioms;

    let card = piles[i].last();
    let rest = piles[i].drop_last();
    let first = piles.update(i, rest);
    let grown = piles[j].push(card);
    let second = first.update(j, grown);
    lemma_total_update(piles, i, rest);
    lemma_total_update(first, j, grown);
    assert(piles[i] =~= rest.push(card));
    assert(first[j] == piles[j]);
    let a = total(first).add(piles[i].to_multiset());
    let b = total(piles).add(rest.to_multiset());
    let c = total(second).add(piles[j].to_multiset());
    let d = total(first).add(grown.to_multiset());
    assert forall|x: Card| total(second).count(x) == total(piles).count(x) by {
        assert(a.count(x) == b.count(x));
        assert(c.count(x) == d.count(x));
        assert(piles[i].to_multiset().count(x) == rest.to_multiset().insert(card).count(x));
        assert(grown.to_multiset().count(x) == piles[j].to_multiset().insert(card).count(x));
    }
    assert(total(second) =~= total(piles));
}

/// A card in the hand and on the board occurs at least twice.
proof fn lemma_hand_and_slot(lay: Layout, slot: int, card: Card)
    requires
        0 <= slot < lay.piles.len(),
    ensures
        lay.census().count(card) >= lay.piles[slot].to_multiset().count(card)
            + lay.hand.to_multiset().count(card),
{
    broadcast use vstd::multiset::group_multiset_axioms;

    lemma_total_one_slot(lay.piles, slot, card);
}

/// A successful grab leaves a well-formed layout with the same cards.
pub proof fn lemma_grab_keeps(lay: Layout, slot: int, index: Option<usize>)
    requires
        lay.wf(),
        grab_outcome(lay, slot, index) is Ok,
    ensures
        grab_outcome(lay, slot, index)->Ok_0.wf(),
        grab_outcome(lay, slot, index)->Ok_0.census() == lay.census(),
{
    broadcast use vstd::multiset::group_multiset_axioms;

    let next = grab_outcome(lay, slot, index)->Ok_0;
    let stack = lay.piles[slot];
    let from: int = if slot < 8 {
        index->Some_0 as int
    } else {
        stack.len() - 1
    };
    assert(next == lifted(lay, slot, from));
    let below = stack.take(from);
    let above = stack.skip(from);
    assert(stack =~= below + above);
    vstd::seq_lib::lemma_multiset_commutative(below, above);
    lemma_total_update(lay.piles, slot, below);
    let a = total(next.piles).add(stack.to_multiset());
    let b = total(lay.piles).add(below.to_multiset());
    assert forall|x: Card| next.census().count(x) == lay.census().count(x) by {
        lemma_empty_count(x);
        assert(lay.hand =~= Seq::<Card>::empty());
        assert(a.count(x) == b.count(x));
    }
    assert(next.census() =~= lay.census());
    if slot >= 8 {
        assert(validstack(above));
    }
    if 11 <= slot {
        assert(is_run(below, suit_of_foundation(slot))) by {
            assert forall|i: int| 0 <= i < below.len() implies (#[trigger] below[i]).suit
                == suit_of_foundation(slot) && below[i].value == i + 1 by {
                assert(below[i] == stack[i]);
            }
        }
    }
}

/// A successful placement leaves a well-formed layout with the same cards.
pub proof fn lemma_place_keeps(lay: Layout, slot: int)
    requires
        lay.wf(),
        place_outcome(lay, slot) is Ok,
    ensures
        place_outcome(lay, slot)->Ok_0.wf(),
        place_outcome(lay, slot)->Ok_0.census() == lay.census(),
{
    broadcast use vstd::multiset::group_multiset_axioms;

    let next = place_outcome(lay, slot)->Ok_0;
    let stack = lay.piles[slot];
    let joined = stack + lay.hand;
    assert(next == dropped(lay, slot));
    vstd::seq_lib::lemma_multiset_commutative(stack, lay.hand);
    lemma_total_update(lay.piles, slot, joined);
    let a = total(next.piles).add(stack.to_multiset());
    let b = total(lay.piles).add(joined.to_multiset());
    assert forall|x: Card| next.census().count(x) == lay.census().count(x) by {
        lemma_empty_count(x);
        assert(a.count(x) == b.count(x));
    }
    assert(next.census() =~= lay.census());
    if 8 <= slot < 11 {
        assert(joined.len() == 1);
    }
    if 11 <= slot < 14 {
        let suit = suit_of_foundation(slot);
        assert forall|i: int| 0 <= i < joined.len() implies (#[trigger] joined[i]).suit == suit
            && joined[i].value == i + 1 by {
            if i < stack.len() {
                assert(joined[i] == stack[i]);
            } else {
                assert(joined[i] == lay.hand[0]);
            }
        }
    }
    if slot == 14 {
        let card = lay.hand[0];
        lemma_count_of_member(lay.hand, 0);
        lemma_hand_and_slot(lay, slot, card);
        lemma_census_bound(lay, card);
        assert(card == rose_card());
        if stack.len() > 0 {
            assert(stack[0] == rose_card());
            lemma_count_of_member(stack, 0);
        }
        assert(stack.len() == 0);
        assert(joined =~= seq![rose_card()]);
    }
}

/// In a well-formed layout a card that is due for promotion is the Rose
/// card, bound for the empty Rose foundation, or the next rank of its suit's
/// foundation; and it does not lie on a sealed cell.
pub proof fn lemma_promotable_fits(lay: Layout, i: int)
    requires
        lay.wf(),
        0 <= i < CELLS_END,
        promotable(lay.piles, i),
    ensures
        ({
            let card = lay.piles[i].last();
            let home = foundation_of(card.suit);
            &&& 11 <= home <= 14
            &&& card.suit == Suit::Rose ==> card == rose_card() && lay.piles[home].len() == 0
            &&& card.suit != Suit::Rose ==> card.value == lay.piles[home].len() + 1 && 1
                <= card.value <= 9
            &&& i >= 8 ==> lay.piles[i].len() == 1
        }),
{
    broadcast use vstd::multiset::group_multiset_axioms;

    let piles = lay.piles;
    let card = piles[i].last();
    let home = foundation_of(card.suit);
    let top = piles[i].len() - 1;
    lemma_count_of_member(piles[i], top);
    lemma_total_one_slot(piles, i, card);
    lemma_census_bound(lay, card);
    assert(copies(card) >= 1);
    if card.suit == Suit::Rose {
        if piles[home].len() > 0 {
            assert(piles[home][0] == rose_card());
            lemma_count_of_member(piles[home], 0);
            lemma_total_two_slots(piles, i, home, card);
        }
    } else {
        assert(card.value == level(piles));
        if card.value <= piles[home].len() {
            let at = card.value - 1;
            assert(piles[home][at] == card);
            lemma_count_of_member(piles[home], at);
            lemma_total_two_slots(piles, i, home, card);
        }
    }
    if i >= 8 {
        assert(cell_ok(piles[i]));
        if piles[i].len() > 1 {
            assert(piles[i][top].value == -1);
        }
    }
}

/// Promoting a card that is due leaves a well-formed layout with the same
/// cards.
pub proof fn lemma_promote_keeps(lay: Layout, i: int)
    requires
        lay.wf(),
        0 <= i < CELLS_END,
        promotable(lay.piles, i),
    ensures
        ({
            let next = Layout {
                piles: promoted(lay.piles, i),
                hand: lay.hand,
                recentgrab: lay.recentgrab,
            };
            next.wf() && next.census() == lay.census()
        }),
{
    let piles = lay.piles;
    let card = piles[i].last();
    let home = foundation_of(card.suit);
    let next = Layout { piles: promoted(piles, i), hand: lay.hand, recentgrab: lay.recentgrab };
    lemma_promotable_fits(lay, i);
    assert(promoted(piles, i) == moved_top(piles, i, home));
    lemma_moved_top_total(piles, i, home);
    let grown = piles[home].push(card);
    assert(next.piles[home] == grown);
    if home == 14 {
        assert(grown =~= seq![rose_card()]);
    } else {
        assert forall|k: int| 0 <= k < grown.len() implies (#[trigger] grown[k]).suit == card.suit
            && grown[k].value == k + 1 by {
            if k < piles[home].len() {
                assert(grown[k] == piles[home][k]);
            }
        }
    }
    if i >= 8 {
        assert(next.piles[i].len() == 0);
    }
}

/// Where at least two dragons of a suit are exposed below `upto`, one of
/// them lies on a slot other than `skip`.
proof fn lemma_exposed_elsewhere(piles: Seq<Seq<Card>>, suit: Suit, upto: int, skip: int) -> (k:
    int)
    requires
        0 <= upto,
        exposed(piles, suit, upto) >= 2,
    ensures
        0 <= k < upto,
        k != skip,
        top_is_dragon(piles[k], suit),
    decreases upto,
{
    if upto - 1 != skip && top_is_dragon(piles[upto - 1], suit) {
        upto - 1
    } else if exposed(piles, suit, upto - 1) >= 2 {
        lemma_exposed_elsewhere(piles, suit, upto - 1, skip)
    } else {
        lemma_exposed_first(piles, suit, upto - 1)
    }
}

/// Where a dragon of a suit is exposed below `upto`, it lies on some slot.
proof fn lemma_exposed_first(piles: Seq<Seq<Card>>, suit: Suit, upto: int) -> (k: int)
    requires
        exposed(piles, suit, upto) >= 1,
    ensures
        0 <= k < upto,
        top_is_dragon(piles[k], suit),
    decreases upto,
{
    if top_is_dragon(piles[upto - 1], suit) {
        upto - 1
    } else {
        lemma_exposed_first(piles, suit, upto - 1)
    }
}

/// In a well-formed layout with at least two exposed dragons of a suit, no
/// holding cell is sealed with that suit.
pub proof fn lemma_exposed_means_unsealed(lay: Layout, suit: Suit, cell: int)
    requires
        lay.wf(),
        8 <= cell < CELLS_END,
        exposed(lay.piles, suit, CELLS_END as int) >= 2,
    ensures
        !sealed_with(lay.piles[cell], suit),
{
    broadcast use vstd::multiset::group_multiset_axioms;

    if sealed_with(lay.piles[cell], suit) {
        let card = dragon(suit);
        let k = lemma_exposed_elsewhere(lay.piles, suit, CELLS_END as int, cell);
        assert(lay.piles[k].last() == card);
        lemma_count_of_member(lay.piles[k], lay.piles[k].len() - 1);
        lemma_dragon_set_count(suit);
        lemma_total_two_slots(lay.piles, cell, k, card);
        lemma_census_bound(lay, card);
    }
}

} // verus!
