//! The deck, the seeded shuffle and the layout it is dealt into.

use crate::card::{Card, Suit, SENTINEL};
use crate::generator::{
    draw_below, entropy_seed, generator_from_seed, ranged_draw, seeded_generator,
};
use crate::layout::{canonical, deck_prefix, ordered_deck, Layout, DECK_SIZE, SLOTS, TABLEAU_END};
use rand::rngs::StdRng;
use vstd::prelude::*;

verus! {

/// The number of cards dealt onto each tableau pile.
pub const PILE_HEIGHT: usize = 5;

/// The indices that a generator yields for `count` draws without
/// replacement: the first below `count`, the next below `count - 1`, and so
/// on down to a draw below 1.
pub open spec fn picks_from(generator: StdRng, count: nat) -> Seq<usize>
    decreases count,
{
    if count == 0 {
        Seq::empty()
    } else {
        let drawn = ranged_draw(generator, count as usize);
        seq![drawn.0] + picks_from(drawn.1, (count - 1) as nat)
    }
}

/// The forty picks that shuffle the deck for a seed.
pub open spec fn seeded_picks(seed: u64) -> Seq<usize> {
    picks_from(seeded_generator(seed), DECK_SIZE as nat)
}

/// The picks can shuffle a pool of `count` cards: there are `count` of them
/// and each is an index into what is left of the pool when it is used.
pub open spec fn valid_picks(picks: Seq<usize>, count: nat) -> bool {
    picks.len() == count && forall|k: int| 0 <= k < count ==> #[trigger] picks[k] < count - k
}

/// The pool shuffled by drawing without replacement: each pick in turn
/// names the card that leaves what remains of the pool and joins the end of
/// the result.
pub open spec fn shuffled(pool: Seq<Card>, picks: Seq<usize>) -> Seq<Card>
    decreases picks.len(),
{
    if picks.len() == 0 {
        Seq::empty()
    } else {
        seq![pool[picks[0] as int]] + shuffled(pool.remove(picks[0] as int), picks.skip(1))
    }
}

/// The board that forty cards are dealt into: five rounds over the eight
/// tableau piles, each taking the last card that is left. The other slots
/// are empty.
pub open spec fn dealt(cards: Seq<Card>) -> Seq<Seq<Card>> {
    Seq::new(
        SLOTS as nat,
        |slot: int|
            if slot < TABLEAU_END {
                Seq::new(
                    PILE_HEIGHT as nat,
                    |round: int| cards[DECK_SIZE - 1 - (TABLEAU_END * round + slot)],
                )
            } else {
                Seq::empty()
            },
    )
}

/// The layout that the picks deal from the canonical deck.
pub open spec fn layout_from_picks(picks: Seq<usize>) -> Layout {
    Layout { piles: dealt(shuffled(ordered_deck(), picks)), hand: Seq::empty(), recentgrab: 0 }
}

/// The layout that a new game with the seed starts from.
pub open spec fn initial_layout(seed: u64) -> Layout {
    layout_from_picks(seeded_picks(seed))
}

/// The seed that a session is built from where `supplied` was asked for and
/// `fresh` was drawn at random: zero asks for the random one.
pub open spec fn chosen_seed(supplied: u64, fresh: u64) -> u64 {
    if supplied == 0 {
        fresh
    } else {
        supplied
    }
}

/// Picks the seed of a session: `supplied`, or `fresh` where `supplied` is
/// zero.
pub fn choose_seed(supplied: u64, fresh: u64) -> (seed: u64)
    ensures
        seed == chosen_seed(supplied, fresh),
{
    if supplied == 0 {
        fresh
    } else {
        supplied
    }
}

/// Resolves the seed that a player asked for: a nonzero seed stands as it
/// is, zero is replaced by a number drawn at random.
pub fn resolve_seed(supplied: u64) -> (seed: u64)
    ensures
        supplied != 0 ==> seed == supplied,
{
    if supplied != 0 {
        supplied
    } else {
        choose_seed(supplied, entropy_seed())
    }
}

/// Builds the deck in canonical order.
pub fn build_deck() -> (deck: Vec<Card>)
    ensures
        deck@ == ordered_deck(),
{
    let mut deck: Vec<Card> = Vec::new();
    let suits = [Suit::Red, Suit::Green, Suit::Black];
    let mut s: usize = 0;
    while s < 3
        invariant
            s <= 3,
            suits[0] == Suit::Red,
            suits[1] == Suit::Green,
            suits[2] == Suit::Black,
            deck@ =~= deck_prefix(13 * s),
        decreases 3 - s,
    {
        let suit = suits[s];
        let mut value: i8 = 1;
        while value <= 9
            invariant
                s < 3,
                1 <= value <= 10,
                suit == suits[s as int],
                suits[0] == Suit::Red,
                suits[1] == Suit::Green,
                suits[2] == Suit::Black,
                deck@ =~= deck_prefix(13 * s + value - 1),
            decreases 10 - value,
        {
            deck.push(Card::new(suit, value));
            value += 1;
        }
        let mut d: usize = 0;
        while d < 4
            invariant
                s < 3,
                d <= 4,
                suit == suits[s as int],
                suits[0] == Suit::Red,
                suits[1] == Suit::Green,
                suits[2] == Suit::Black,
                deck@ =~= deck_prefix(13 * s + 9 + d),
            decreases 4 - d,
        {
            deck.push(Card::new(suit, SENTINEL));
            d += 1;
        }
        s += 1;
    }
    deck.push(Card::new(Suit::Rose, SENTINEL));
    assert(deck@ =~= ordered_deck());
    deck
}

/// Draws the forty picks of a seed from a generator built from it.
pub fn draw_picks(seed: u64) -> (picks: Vec<usize>)
    ensures
        picks@ == seeded_picks(seed),
        valid_picks(picks@, DECK_SIZE as nat),
{
    let mut generator = generator_from_seed(seed);
    let mut picks: Vec<usize> = Vec::new();
    let mut left: usize = DECK_SIZE;
    while left > 0
        invariant
            left <= DECK_SIZE,
            picks@.len() == DECK_SIZE - left,
            picks@ + picks_from(generator, left as nat) == seeded_picks(seed),
            forall|k: int| 0 <= k < picks@.len() ==> #[trigger] picks@[k] < DECK_SIZE - k,
        decreases left,
    {
        let ghost before = picks@;
        let ghost rest = picks_from(ranged_draw(generator, left).1, (left - 1) as nat);
        let pick = draw_below(&mut generator, left);
        picks.push(pick);
        left -= 1;
        proof {
            assert(picks@ + rest =~= before + (seq![pick] + rest));
        }
    }
    proof {
        assert(picks@ + Seq::<usize>::empty() =~= picks@);
    }
    picks
}

/// Tells whether the picks can shuffle a pool of `count` cards.
pub fn check_picks(picks: &Vec<usize>, count: usize) -> (valid: bool)
    ensures
        valid == valid_picks(picks@, count as nat),
{
    if picks.len() != count {
        return false;
    }
    let mut k: usize = 0;
    while k < count
        invariant
            k <= count,
            picks@.len() == count,
            forall|j: int| 0 <= j < k ==> #[trigger] picks@[j] < count - j,
        decreases count - k,
    {
        if picks[k] >= count - k {
            return false;
        }
        k += 1;
    }
    true
}

/// Shuffles the pool by drawing without replacement: each pick in turn
/// removes a card from what is left and appends it to the result, which
/// holds the cards of the pool in a new order.
pub fn shuffle(pool: Vec<Card>, picks: &Vec<usize>) -> (cards: Vec<Card>)
    requires
        valid_picks(picks@, pool@.len()),
    ensures
        cards@ == shuffled(pool@, picks@),
        cards@.len() == pool@.len(),
        cards@.to_multiset() == pool@.to_multiset(),
{
    broadcast use vstd::seq_lib::group_to_multiset_ensures;
    broadcast use vstd::multiset::group_multiset_axioms;

    let ghost whole = pool@;
    let count = pool.len();
    let mut pool = pool;
    let mut cards: Vec<Card> = Vec::new();
    let mut k: usize = 0;
    proof {
        assert(picks@.skip(0) =~= picks@);
        assert(cards@.to_multiset().len() == 0);
        assert(cards@.to_multiset().add(pool@.to_multiset()) =~= whole.to_multiset());
    }
    while k < count
        invariant
            k <= count,
            count == whole.len(),
            valid_picks(picks@, count as nat),
            pool@.len() == count - k,
            cards@.len() == k,
            cards@ + shuffled(pool@, picks@.skip(k as int)) == shuffled(whole, picks@),
            cards@.to_multiset().add(pool@.to_multiset()) == whole.to_multiset(),
        decreases count - k,
    {
        let ghost before = cards@;
        let ghost left = pool@;
        let ghost ahead = picks@.skip(k as int);
        let pick = picks[k];
        let card = pool.remove(pick);
        cards.push(card);
        k += 1;
        proof {
            assert(ahead[0] == pick);
            assert(ahead.skip(1) =~= picks@.skip(k as int));
            let rest = shuffled(pool@, picks@.skip(k as int));
            assert(shuffled(left, ahead) == seq![card] + rest);
            assert(cards@ + rest =~= before + (seq![card] + rest));
            broadcast use vstd::seq_lib::group_to_multiset_ensures;
            broadcast use vstd::multiset::group_multiset_axioms;

            assert(left.contains(card));
            assert(left.to_multiset().count(card) > 0);
            assert(cards@.to_multiset() =~= before.to_multiset().insert(card));
            assert(pool@.to_multiset() =~= left.to_multiset().remove(card));
            assert forall|x: Card|
                cards@.to_multiset().add(pool@.to_multiset()).count(x) == before.to_multiset().add(
                    left.to_multiset(),
                ).count(x) by {}
            assert(cards@.to_multiset().add(pool@.to_multiset()) =~= before.to_multiset().add(
                left.to_multiset(),
            ));
        }
    }
    proof {
        broadcast use vstd::seq_lib::group_to_multiset_ensures;
        broadcast use vstd::multiset::group_multiset_axioms;

        assert(picks@.skip(count as int) =~= Seq::<usize>::empty());
        assert(cards@ + Seq::<Card>::empty() =~= cards@);
        assert(pool@.to_multiset().len() == 0);
        assert(cards@.to_multiset() =~= whole.to_multiset());
    }
    cards
}

} // verus!
