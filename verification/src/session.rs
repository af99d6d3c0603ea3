//! A game session: the board, the hand and the moves on them.

use crate::card::{Card, Suit};
use crate::deal::{
    build_deck, check_picks, dealt, draw_picks, initial_layout, layout_from_picks, shuffle,
    valid_picks, PILE_HEIGHT,
};
use crate::invariants::{
    lemma_exposed_means_unsealed, lemma_grab_keeps, lemma_moved_top_total, lemma_place_keeps,
    lemma_promote_keeps, moved_top,
};
use crate::layout::{
    dragon, dragon_set, full_deck, lemma_empty_count, lemma_foundation_short, lemma_total_update,
    sealed_with, stacks, total, Layout, CELLS_END, DECK_SIZE, ROSE_SLOT, SLOTS, TABLEAU_END,
};
use crate::rules::{
    exposed, grab_outcome, level, load, next_promotable, place_outcome, promotable, promoted,
    settled, stow_destination, stow_outcome, stowed, sweep, sweep_events, sweep_outcome,
    sweep_report, top_is_dragon, MoveError, Promotion,
};
use crate::validate::well_formed;
use vstd::prelude::*;

verus! {

/// One game in progress. Slots 0 to 7 are tableau piles, 8 to 10 holding
/// cells, 11 to 13 the Red, Green and Black foundations and 14 the Rose
/// foundation. Every stack is held bottom first.
pub struct Session {
    board: Vec<Vec<Card>>,
    hand: Vec<Card>,
    recentgrab: usize,
}

impl View for Session {
    type V = Layout;

    closed spec fn view(&self) -> Layout {
        Layout { piles: stacks(self.board), hand: self.hand@, recentgrab: self.recentgrab as int }
    }
}

impl Session {
    /// Deals forty cards that make up the deck: five rounds over the eight
    /// tableau piles, each pile taking the last card that is left.
    pub fn deal(cards: Vec<Card>) -> (session: Session)
        requires
            cards@.len() == DECK_SIZE,
            cards@.to_multiset() == full_deck(),
        ensures
            session@ == (Layout { piles: dealt(cards@), hand: Seq::empty(), recentgrab: 0 }),
            session@.wf(),
            session@.complete(),
    {
        let ghost whole = cards@;
        let mut cards = cards;
        let mut board: Vec<Vec<Card>> = Vec::new();
        let mut slot: usize = 0;
        while slot < SLOTS
            invariant
                slot <= SLOTS,
                board@.len() == slot,
                forall|j: int| 0 <= j < slot ==> (#[trigger] board@[j])@.len() == 0,
                total(stacks(board)) == vstd::multiset::Multiset::<Card>::empty(),
            decreases SLOTS - slot,
        {
            let ghost before = stacks(board);
            board.push(Vec::new());
            slot += 1;
            proof {
                broadcast use vstd::multiset::group_multiset_axioms;

                assert(stacks(board).drop_last() =~= before);
                assert forall|x: Card| total(stacks(board)).count(x) == 0 by {
                    lemma_empty_count(x);
                    assert(stacks(board).last() =~= Seq::<Card>::empty());
                }
                assert(total(stacks(board)) =~= vstd::multiset::Multiset::<Card>::empty());
            }
        }
        proof {
            broadcast use vstd::multiset::group_multiset_axioms;

            assert(cards@ =~= whole.take(DECK_SIZE as int));
            assert(total(stacks(board)).add(cards@.to_multiset()) =~= whole.to_multiset());
        }
        let mut round: usize = 0;
        while round < PILE_HEIGHT
            invariant
                round <= PILE_HEIGHT,
                whole.len() == DECK_SIZE,
                board@.len() == SLOTS,
                cards@ == whole.take(DECK_SIZE - TABLEAU_END * round),
                forall|j: int| 0 <= j < TABLEAU_END ==> (#[trigger] board@[j])@.len() == round,
                forall|j: int, r: int|
                    0 <= j < TABLEAU_END && 0 <= r < round ==> #[trigger] board@[j]@[r]
                        == whole[DECK_SIZE - 1 - (TABLEAU_END * r + j)],
                forall|j: int| TABLEAU_END <= j < SLOTS ==> (#[trigger] board@[j])@.len() == 0,
                total(stacks(board)).add(cards@.to_multiset()) == whole.to_multiset(),
            decreases PILE_HEIGHT - round,
        {
            let mut pile: usize = 0;
            while pile < TABLEAU_END
                invariant
                    round < PILE_HEIGHT,
                    pile <= TABLEAU_END,
                    whole.len() == DECK_SIZE,
                    board@.len() == SLOTS,
                    cards@ == whole.take(DECK_SIZE - (TABLEAU_END * round + pile)),
                    forall|j: int|
                        0 <= j < TABLEAU_END ==> (#[trigger] board@[j])@.len() == round + if j
                            < pile {
                            1int
                        } else {
                            0int
                        },
                    forall|j: int, r: int|
                        0 <= j < TABLEAU_END && 0 <= r < board@[j]@.len() ==> #[trigger] board@[j]@[r]
                            == whole[DECK_SIZE - 1 - (TABLEAU_END * r + j)],
                    forall|j: int| TABLEAU_END <= j < SLOTS ==> (#[trigger] board@[j])@.len() == 0,
                    total(stacks(board)).add(cards@.to_multiset()) == whole.to_multiset(),
                decreases TABLEAU_END - pile,
            {
                let ghost before = stacks(board);
                let ghost left = cards@;
                let card = cards.pop().unwrap();
                board[pile].push(card);
                proof {
                    broadcast use vstd::seq_lib::group_to_multiset_ensures;
                    broadcast use vstd::multiset::group_multiset_axioms;

                    let grown = before[pile as int].push(card);
                    assert(stacks(board) =~= before.update(pile as int, grown));
                    lemma_total_update(before, pile as int, grown);
                    assert(left =~= cards@.push(card));
                    let a = total(stacks(board)).add(before[pile as int].to_multiset());
                    let b = total(before).add(grown.to_multiset());
                    assert forall|x: Card|
                        total(stacks(board)).add(cards@.to_multiset()).count(x) == total(
                            before,
                        ).add(left.to_multiset()).count(x) by {
                        assert(a.count(x) == b.count(x));
                    }
                    assert(total(stacks(board)).add(cards@.to_multiset()) =~= total(before).add(
                        left.to_multiset(),
                    ));
                    assert(cards@ =~= whole.take(DECK_SIZE - (TABLEAU_END * round + pile + 1)));
                }
                pile += 1;
            }
            round += 1;
        }
        let session = Session { board, hand: Vec::new(), recentgrab: 0 };
        proof {
            broadcast use vstd::multiset::group_multiset_axioms;

            let target = dealt(whole);
            assert forall|j: int| 0 <= j < SLOTS implies #[trigger] session@.piles[j]
                =~= target[j] by {}
            assert(session@.piles =~= target);
            assert(cards@ =~= Seq::<Card>::empty());
            assert forall|x: Card| session@.census().count(x) == full_deck().count(x) by {
                lemma_empty_count(x);
            }
            assert(session@.census() =~= full_deck());
        }
        session
    }

    /// Starts a game from a seed: the canonical deck is shuffled by the
    /// picks of a generator seeded with it and dealt. The same seed always
    /// gives the same layout.
    pub fn new_game(seed: u64) -> (session: Session)
        ensures
            session@ == initial_layout(seed),
            session@.wf(),
            session@.complete(),
    {
        let picks = draw_picks(seed);
        let cards = shuffle(build_deck(), &picks);
        Session::deal(cards)
    }

    /// Starts a game from forty picks, each an index into what is left of
    /// the canonical deck when it is used; `None` where the picks are not
    /// such.
    pub fn from_picks(picks: &Vec<usize>) -> (session: Option<Session>)
        ensures
            session is Some <==> valid_picks(picks@, DECK_SIZE as nat),
            session matches Some(s) ==> s@ == layout_from_picks(picks@) && s@.wf()
                && s@.complete(),
    {
        if !check_picks(picks, DECK_SIZE) {
            return None;
        }
        let cards = shuffle(build_deck(), picks);
        Some(Session::deal(cards))
    }

    /// Takes up a game at a given position: the stacks of the fifteen
    /// slots, the hand, and the slot that the hand came from. `None` where
    /// they do not make a well-formed layout.
    pub fn from_parts(board: Vec<Vec<Card>>, hand: Vec<Card>, recentgrab: usize) -> (session:
        Option<Session>)
        ensures
            session is Some <==> (Layout {
                piles: stacks(board),
                hand: hand@,
                recentgrab: recentgrab as int,
            }).wf(),
            session matches Some(s) ==> s@ == (Layout {
                piles: stacks(board),
                hand: hand@,
                recentgrab: recentgrab as int,
            }),
    {
        if well_formed(&board, &hand) {
            Some(Session { board, hand, recentgrab })
        } else {
            None
        }
    }

    /// The stacks of the fifteen slots, each bottom first.
    pub fn board(&self) -> (board: &Vec<Vec<Card>>)
        ensures
            stacks(*board) == self@.piles,
    {
        &self.board
    }

    /// The cards in the hand, bottom first.
    pub fn hand(&self) -> (hand: &Vec<Card>)
        ensures
            hand@ == self@.hand,
    {
        &self.hand
    }

    /// The slot that the hand was last lifted from.
    pub fn recentgrab(&self) -> (slot: usize)
        ensures
            slot == self@.recentgrab,
    {
        self.recentgrab
    }

    /// Lifts cards from `slot` into the empty hand: from a tableau pile the
    /// cards from `index` up, from a holding cell or suit foundation the top
    /// card. A refused grab changes nothing.
    pub fn grab(&mut self, slot: usize, index: Option<usize>) -> (outcome: Result<(), MoveError>)
        requires
            old(self)@.wf(),
        ensures
            final(self)@.wf(),
            final(self)@.census() == old(self)@.census(),
            match outcome {
                Ok(_) => grab_outcome(old(self)@, slot as int, index) == Ok::<Layout, MoveError>(
                    final(self)@,
                ),
                Err(e) => grab_outcome(old(self)@, slot as int, index) == Err::<Layout, MoveError>(
                    e,
                ) && final(self)@ == old(self)@,
            },
    {
        if self.hand.len() > 0 {
            return Err(MoveError::HandNotEmpty);
        }
        if slot >= ROSE_SLOT {
            return Err(MoveError::InvalidSlot);
        }
        let size = self.board[slot].len();
        let from: usize;
        if slot < TABLEAU_END {
            match index {
                None => {
                    return Err(MoveError::IndexOutOfRange);
                },
                Some(start) => {
                    if start >= size {
                        return Err(MoveError::IndexOutOfRange);
                    }
                    if !Card::valid_from(&self.board[slot], start) {
                        return Err(MoveError::NotAValidRun);
                    }
                    from = start;
                },
            }
        } else {
            if size == 0 {
                return Err(MoveError::EmptySlot);
            }
            if slot < CELLS_END && size != 1 {
                return Err(MoveError::SealedCell);
            }
            from = size - 1;
        }
        let lifted = self.board[slot].split_off(from);
        self.hand = lifted;
        self.recentgrab = slot;
        proof {
            let target = grab_outcome(old(self)@, slot as int, index)->Ok_0;
            assert(self@.piles =~= target.piles);
            assert(self@ == target);
            lemma_grab_keeps(old(self)@, slot as int, index);
        }
        Ok(())
    }

    /// Puts the whole hand on `slot`, if the rules of that slot take it. A
    /// refused placement changes nothing.
    pub fn place(&mut self, slot: usize) -> (outcome: Result<(), MoveError>)
        requires
            old(self)@.wf(),
        ensures
            final(self)@.wf(),
            final(self)@.census() == old(self)@.census(),
            match outcome {
                Ok(_) => place_outcome(old(self)@, slot as int) == Ok::<Layout, MoveError>(
                    final(self)@,
                ),
                Err(e) => place_outcome(old(self)@, slot as int) == Err::<Layout, MoveError>(e)
                    && final(self)@ == old(self)@,
            },
    {
        if self.hand.len() == 0 {
            return Err(MoveError::HandEmpty);
        }
        if slot >= SLOTS {
            return Err(MoveError::InvalidSlot);
        }
        let size = self.board[slot].len();
        let held = self.hand.len();
        let bottom = self.hand[0];
        if slot < TABLEAU_END {
            if !(size == 0 || slot == self.recentgrab || Card::stackable(
                &self.board[slot][size - 1],
                &bottom,
            )) {
                return Err(MoveError::WrongSuitOrRank);
            }
        } else if slot < CELLS_END {
            if size > 1 {
                return Err(MoveError::SealedCell);
            }
            if size == 1 {
                return Err(MoveError::DestinationOccupied);
            }
            if held != 1 {
                return Err(MoveError::TooManyCards);
            }
        } else {
            if held != 1 {
                return Err(MoveError::TooManyCards);
            }
            if bottom.suit != Suit::of_foundation(slot) {
                return Err(MoveError::WrongSuitOrRank);
            }
            if slot < ROSE_SLOT {
                proof {
                    lemma_foundation_short(self@, slot as int);
                }
                if bottom.value != (size + 1) as i8 {
                    return Err(MoveError::FoundationGap);
                }
            }
        }
        self.board[slot].append(&mut self.hand);
        proof {
            let target = place_outcome(old(self)@, slot as int)->Ok_0;
            assert(self@.piles =~= target.piles);
            assert(self@ == target);
            lemma_place_keeps(old(self)@, slot as int);
        }
        Ok(())
    }

    /// The holding cell that a stow of `suit` would fill, if there is one.
    fn stow_cell(&self, suit: Suit) -> (cell: Option<usize>)
        requires
            self@.wf(),
        ensures
            match cell {
                Some(c) => stow_destination(self@.piles, suit) == Some(c as int),
                None => stow_destination(self@.piles, suit) is None,
            },
    {
        let mut matching: Option<usize> = None;
        let mut i: usize = TABLEAU_END;
        while i < CELLS_END
            invariant
                self@.wf(),
                8 <= i <= 11,
                forall|k: int| 8 <= k < i ==> (#[trigger] self@.piles[k]).len() != 0,
                match matching {
                    Some(c) => 8 <= c < i && sealed_with(self@.piles[c as int], suit) && forall|
                        k: int,
                    |
                        8 <= k < c ==> !sealed_with(#[trigger] self@.piles[k], suit),
                    None => forall|k: int|
                        8 <= k < i ==> !sealed_with(#[trigger] self@.piles[k], suit),
                },
            decreases 11 - i,
        {
            let size = self.board[i].len();
            if size == 0 {
                return Some(i);
            }
            let bottom = self.board[i][0];
            let fits = size == 4 && bottom.is_dragon_of(suit);
            proof {
                let stack = self@.piles[i as int];
                if fits {
                    assert(stack[0] == dragon(suit));
                    assert(stack =~= dragon_set(suit));
                } else if sealed_with(stack, suit) {
                    assert(stack[0] == dragon(suit));
                }
            }
            if fits && matching.is_none() {
                matching = Some(i);
            }
            i += 1;
        }
        matching
    }

    /// The number of tableau piles and holding cells with a dragon of `suit`
    /// on top.
    fn exposed_dragons(&self, suit: Suit) -> (count: usize)
        requires
            self@.piles.len() == SLOTS,
        ensures
            count == exposed(self@.piles, suit, CELLS_END as int),
    {
        let mut count: usize = 0;
        let mut i: usize = 0;
        while i < CELLS_END
            invariant
                self@.piles.len() == SLOTS,
                i <= 11,
                count <= i,
                count == exposed(self@.piles, suit, i as int),
            decreases 11 - i,
        {
            let size = self.board[i].len();
            if size > 0 && self.board[i][size - 1].is_dragon_of(suit) {
                count += 1;
            }
            i += 1;
        }
        count
    }

    /// Collects the four dragons of `suit` into a holding cell, which is
    /// sealed by it. It needs a holding cell that is empty, or sealed with
    /// that suit, and exactly four dragons of the suit on top of tableau
    /// piles and holding cells. No card is a dragon of the Rose suit, so a
    /// stow of it is always refused. A refused stow changes nothing.
    pub fn stow_dragons(&mut self, suit: Suit) -> (outcome: Result<(), MoveError>)
        requires
            old(self)@.wf(),
        ensures
            final(self)@.wf(),
            final(self)@.census() == old(self)@.census(),
            match outcome {
                Ok(_) => stow_outcome(old(self)@, suit) == Ok::<Layout, MoveError>(final(self)@),
                Err(e) => stow_outcome(old(self)@, suit) == Err::<Layout, MoveError>(e)
                    && final(self)@ == old(self)@,
            },
    {
        let dest = match self.stow_cell(suit) {
            None => {
                return Err(MoveError::NoAvailableHoldingCell);
            },
            Some(cell) => cell,
        };
        if self.exposed_dragons(suit) != 4 {
            return Err(MoveError::NotEnoughDragonsExposed);
        }
        let ghost start = self@;
        proof {
            lemma_exposed_means_unsealed(start, suit, 8);
            lemma_exposed_means_unsealed(start, suit, 9);
            lemma_exposed_means_unsealed(start, suit, 10);
            assert(start.piles[dest as int].len() == 0);
        }
        let mut i: usize = 0;
        while i < CELLS_END
            invariant
                i <= 11,
                8 <= dest < 11,
                start.piles.len() == SLOTS,
                start.piles[dest as int].len() == 0,
                exposed(start.piles, suit, CELLS_END as int) == 4,
                self@.piles.len() == SLOTS,
                self@.hand == start.hand,
                self@.recentgrab == start.recentgrab,
                total(self@.piles) == total(start.piles),
                forall|j: int|
                    0 <= j < SLOTS && j != dest ==> #[trigger] self@.piles[j] == if j < i
                        && top_is_dragon(start.piles[j], suit) {
                        start.piles[j].drop_last()
                    } else {
                        start.piles[j]
                    },
                self@.piles[dest as int] == Seq::new(
                    exposed(start.piles, suit, i as int),
                    |k: int| dragon(suit),
                ),
            decreases 11 - i,
        {
            if i != dest {
                let size = self.board[i].len();
                if size > 0 && self.board[i][size - 1].is_dragon_of(suit) {
                    let ghost before = self@.piles;
                    let card = self.board[i].pop().unwrap();
                    self.board[dest].push(card);
                    proof {
                        assert(card == dragon(suit));
                        assert(self@.piles =~= moved_top(before, i as int, dest as int));
                        lemma_moved_top_total(before, i as int, dest as int);
                        assert(self@.piles[dest as int] =~= Seq::new(
                            exposed(start.piles, suit, i as int + 1),
                            |k: int| dragon(suit),
                        ));
                    }
                }
            }
            i += 1;
        }
        proof {
            assert(self@.piles[dest as int] =~= dragon_set(suit));
            assert(self@.piles =~= stowed(start.piles, suit, dest as int));
            assert(suit != Suit::Rose) by {
                if suit == Suit::Rose {
                    assert(exposed(start.piles, suit, 11) == 0) by {
                        reveal_with_fuel(exposed, 12);
                    }
                }
            }
        }
        Ok(())
    }

    /// The first tableau pile or holding cell whose top card is due for
    /// promotion, or `CELLS_END` if there is none.
    fn find_promotable(&self) -> (slot: usize)
        requires
            self@.wf(),
        ensures
            slot == next_promotable(self@.piles, 0),
            slot <= CELLS_END,
            slot < CELLS_END ==> promotable(self@.piles, slot as int),
            forall|j: int| 0 <= j < slot ==> !promotable(self@.piles, j),
    {
        proof {
            lemma_foundation_short(self@, 11);
            lemma_foundation_short(self@, 12);
            lemma_foundation_short(self@, 13);
        }
        let red = self.board[11].len();
        let green = self.board[12].len();
        let black = self.board[13].len();
        let least = if red <= green && red <= black {
            red
        } else if green <= black {
            green
        } else {
            black
        };
        let due: i8 = (least + 1) as i8;
        assert(due == level(self@.piles));
        let mut i: usize = 0;
        while i < CELLS_END
            invariant
                self@.piles.len() == SLOTS,
                i <= 11,
                due == level(self@.piles),
                next_promotable(self@.piles, 0) == next_promotable(self@.piles, i as int),
                forall|j: int| 0 <= j < i ==> !promotable(self@.piles, j),
            decreases 11 - i,
        {
            let size = self.board[i].len();
            if size > 0 {
                let top = self.board[i][size - 1];
                if top.value == due || top.is_rose() {
                    return i;
                }
            }
            i += 1;
        }
        i
    }

    /// Runs the promotion sweep: while the hand is empty and the top card of
    /// a tableau pile or holding cell has the rank one above the shortest
    /// suit foundation, or is the Rose card, the first such card goes to its
    /// foundation. Returns the promotions in order.
    pub fn run_autostack(&mut self) -> (events: Vec<Promotion>)
        requires
            old(self)@.wf(),
        ensures
            final(self)@.wf(),
            final(self)@.census() == old(self)@.census(),
            final(self)@ == sweep_outcome(old(self)@),
            events@ == sweep_report(old(self)@),
            old(self)@.hand.len() == 0 ==> settled(final(self)@.piles),
    {
        let mut events: Vec<Promotion> = Vec::new();
        if self.hand.len() > 0 {
            return events;
        }
        let ghost start = self@;
        loop
            invariant
                self@.wf(),
                start == old(self)@,
                self@.census() == start.census(),
                self@.hand == start.hand,
                self@.hand.len() == 0,
                self@.recentgrab == start.recentgrab,
                sweep(self@.piles) == sweep(start.piles),
                events@ + sweep_events(self@.piles) == sweep_events(start.piles),
            ensures
                settled(self@.piles),
                self@.piles == sweep(start.piles),
                events@ == sweep_events(start.piles),
            decreases load(self@.piles),
        {
            let slot = self.find_promotable();
            if slot >= CELLS_END {
                proof {
                    assert(events@ + Seq::<Promotion>::empty() =~= events@);
                }
                break ;
            }
            let ghost before = self@;
            proof {
                lemma_promote_keeps(before, slot as int);
            }
            let card = self.board[slot].pop().unwrap();
            let home = card.suit.foundation();
            self.board[home].push(card);
            let event = Promotion { card, destination: home };
            proof {
                assert(self@.piles =~= promoted(before.piles, slot as int));
                assert(sweep_events(before.piles) == seq![event] + sweep_events(self@.piles));
                assert(events@.push(event) + sweep_events(self@.piles) =~= events@ + (seq![event]
                    + sweep_events(self@.piles)));
            }
            events.push(event);
        }
        events
    }

    /// Tells whether the game is won: the hand and the eight tableau piles
    /// are empty, whatever the holding cells and foundations hold.
    pub fn is_won(&self) -> (won: bool)
        requires
            self@.piles.len() == SLOTS,
        ensures
            won == self@.won(),
    {
        if self.hand.len() > 0 {
            return false;
        }
        let mut i: usize = 0;
        while i < TABLEAU_END
            invariant
                self@.piles.len() == SLOTS,
                i <= 8,
                forall|j: int| 0 <= j < i ==> (#[trigger] self@.piles[j]).len() == 0,
            decreases 8 - i,
        {
            if self.board[i].len() > 0 {
                assert(self@.piles[i as int].len() > 0);
                return false;
            }
            i += 1;
        }
        true
    }
}

} // verus!
