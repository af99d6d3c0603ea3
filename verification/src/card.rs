//! Cards, suits and the stacking relation between two cards.

use vstd::prelude::*;

verus! {

/// The suit of a card. `Rose` is the suit of a single card.
#[derive(Clone, Copy, Debug, PartialEq, Eq, Structural)]
pub enum Suit {
    Red,
    Green,
    Black,
    Rose,
}

/// A card: a suit and a value. Ranked cards carry 1 to 9; dragons and the
/// Rose card carry the sentinel -1, so the suit tells them apart.
#[derive(Clone, Copy, Debug, PartialEq, Eq, Structural)]
pub struct Card {
    pub suit: Suit,
    pub value: i8,
}

/// The value shared by dragons and the Rose card.
pub const SENTINEL: i8 = -1;

/// `upper` may lie directly on `lower`: the suits differ and the values
/// descend by exactly one.
pub open spec fn stackable(lower: Card, upper: Card) -> bool {
    lower.suit != upper.suit && lower.value == upper.value + 1
}

/// Every card of `stack` (bottom first) may lie on the one below it.
pub open spec fn validstack(stack: Seq<Card>) -> bool {
    forall|i: int| 0 <= i < stack.len() - 1 ==> stackable(#[trigger] stack[i], stack[i + 1])
}

/// A dragon: the sentinel value on one of the three ranked suits.
pub open spec fn is_dragon(card: Card) -> bool {
    card.value == SENTINEL && card.suit != Suit::Rose
}

/// A dragon of the given suit.
pub open spec fn is_dragon_of(card: Card, suit: Suit) -> bool {
    is_dragon(card) && card.suit == suit
}

/// A card of the Rose suit.
pub open spec fn is_rose(card: Card) -> bool {
    card.suit == Suit::Rose
}

/// The slot of the foundation that collects a suit.
pub open spec fn foundation_of(suit: Suit) -> int {
    match suit {
        Suit::Red => 11,
        Suit::Green => 12,
        Suit::Black => 13,
        Suit::Rose => 14,
    }
}

/// The suit that the foundation at `slot` collects; `Rose` for every slot but
/// the three suit foundations.
pub open spec fn suit_of_foundation(slot: int) -> Suit {
    if slot == 11 {
        Suit::Red
    } else if slot == 12 {
        Suit::Green
    } else if slot == 13 {
        Suit::Black
    } else {
        Suit::Rose
    }
}

/// A sequence of at most one card is a valid stack.
pub proof fn lemma_short_stack_valid(stack: Seq<Card>)
    requires
        stack.len() <= 1,
    ensures
        validstack(stack),
{
}

/// A sequence is a valid stack exactly when each adjacent pair alternates
/// suit and descends by one.
pub proof fn lemma_validstack_pairs(stack: Seq<Card>)
    ensures
        validstack(stack) <==> forall|i: int|
            0 <= i && i + 1 < stack.len() ==> (#[trigger] stack[i]).suit != stack[i + 1].suit
                && stack[i].value - stack[i + 1].value == 1,
{
    if validstack(stack) {
        assert forall|i: int| 0 <= i && i + 1 < stack.len() implies (#[trigger] stack[i]).suit
            != stack[i + 1].suit && stack[i].value - stack[i + 1].value == 1 by {
            assert(stackable(stack[i], stack[i + 1]));
        }
    }
}

/// Two stacks joined end to end are a valid stack exactly when each is one
/// and, where both hold a card, the first card of the second may lie on the
/// last card of the first.
pub proof fn lemma_validstack_join(below: Seq<Card>, above: Seq<Card>)
    ensures
        validstack(below + above) <==> validstack(below) && validstack(above) && (below.len() > 0
            && above.len() > 0 ==> stackable(below.last(), above[0])),
{
    let joined = below + above;
    let n = below.len() as int;
    if validstack(joined) {
        assert forall|i: int| 0 <= i < below.len() - 1 implies stackable(
            #[trigger] below[i],
            below[i + 1],
        ) by {
            assert(stackable(joined[i], joined[i + 1]));
        }
        assert forall|i: int| 0 <= i < above.len() - 1 implies stackable(
            #[trigger] above[i],
            above[i + 1],
        ) by {
            assert(stackable(joined[n + i], joined[n + i + 1]));
        }
        if below.len() > 0 && above.len() > 0 {
            assert(stackable(joined[n - 1], joined[n - 1 + 1]));
        }
    }
    if validstack(below) && validstack(above) && (below.len() > 0 && above.len() > 0 ==> stackable(
        below.last(),
        above[0],
    )) {
        assert forall|i: int| 0 <= i < joined.len() - 1 implies stackable(
            #[trigger] joined[i],
            joined[i + 1],
        ) by {
            if i + 1 < n {
                assert(stackable(below[i], below[i + 1]));
            } else if i >= n {
                assert(stackable(above[i - n], above[i - n + 1]));
            }
        }
    }
}

impl Card {
    /// Builds a card from its suit and value.
    pub fn new(suit: Suit, value: i8) -> (card: Card)
        ensures
            card.suit == suit,
            card.value == value,
    {
        Card { suit, value }
    }

    /// Tells whether `upper` may lie directly on `lower`.
    pub fn stackable(lower: &Card, upper: &Card) -> (fits: bool)
        ensures
            fits == stackable(*lower, *upper),
    {
        lower.suit != upper.suit && upper.value < i8::MAX && lower.value == upper.value + 1
    }

    /// Tells whether `stack`, bottom first, is a valid stack.
    pub fn validstack(stack: &Vec<Card>) -> (valid: bool)
        ensures
            valid == validstack(stack@),
    {
        if stack.len() <= 1 {
            return true;
        }
        let mut i: usize = 0;
        while i < stack.len() - 1
            invariant
                stack.len() >= 2,
                i <= stack.len() - 1,
                forall|j: int| 0 <= j < i ==> stackable(#[trigger] stack@[j], stack@[j + 1]),
            decreases stack.len() - i,
        {
            if !Card::stackable(&stack[i], &stack[i + 1]) {
                assert(!stackable(stack@[i as int], stack@[i as int + 1]));
                return false;
            }
            i += 1;
        }
        true
    }

    /// Tells whether the cards of `stack` from index `from` up are a valid
    /// stack.
    pub fn valid_from(stack: &Vec<Card>, from: usize) -> (valid: bool)
        requires
            from <= stack.len(),
        ensures
            valid == validstack(stack@.skip(from as int)),
    {
        let ghost upper = stack@.skip(from as int);
        if stack.len() - from <= 1 {
            return true;
        }
        let mut i: usize = from;
        while i < stack.len() - 1
            invariant
                from <= i < stack.len(),
                upper == stack@.skip(from as int),
                forall|j: int| 0 <= j < i - from ==> stackable(#[trigger] upper[j], upper[j + 1]),
            decreases stack.len() - i,
        {
            if !Card::stackable(&stack[i], &stack[i + 1]) {
                assert(!stackable(upper[i - from], upper[i - from + 1]));
                return false;
            }
            i += 1;
        }
        true
    }

    /// Tells whether the card is a dragon.
    pub fn is_dragon(&self) -> (dragon: bool)
        ensures
            dragon == is_dragon(*self),
    {
        self.value == SENTINEL && self.suit != Suit::Rose
    }

    /// Tells whether the card is a dragon of the given suit.
    pub fn is_dragon_of(&self, suit: Suit) -> (dragon: bool)
        ensures
            dragon == is_dragon_of(*self, suit),
    {
        self.is_dragon() && self.suit == suit
    }

    /// Tells whether the card is of the Rose suit.
    pub fn is_rose(&self) -> (rose: bool)
        ensures
            rose == is_rose(*self),
    {
        self.suit == Suit::Rose
    }
}

impl Suit {
    /// The suit that the foundation at `slot` collects; `Rose` for every
    /// slot but the three suit foundations.
    pub fn of_foundation(slot: usize) -> (suit: Suit)
        ensures
            suit == suit_of_foundation(slot as int),
    {
        if slot == 11 {
            Suit::Red
        } else if slot == 12 {
            Suit::Green
        } else if slot == 13 {
            Suit::Black
        } else {
            Suit::Rose
        }
    }

    /// The slot of the foundation that collects this suit.
    pub fn foundation(self) -> (slot: usize)
        ensures
            slot == foundation_of(self),
    {
        match self {
            Suit::Red => 11,
            Suit::Green => 12,
            Suit::Black => 13,
            Suit::Rose => 14,
        }
    }
}

} // verus!
