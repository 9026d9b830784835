use vstd::prelude::*;

use crate::entities::card::Card;
use crate::entities::suit::Suit;
use crate::entities::value::Value;

verus! {

/// The cards not yet dealt; cards are dealt from the end.
#[derive(Debug)]
pub struct Deck {
    cards: Vec<Card>,
}

impl View for Deck {
    type V = Seq<Card>;

    closed spec fn view(&self) -> Seq<Card> {
        self.cards@
    }
}

/// The `i`-th suit in the order a fresh deck is laid out.
pub open spec fn suit_at(i: int) -> Suit {
    if i == 0 {
        Suit::Heart
    } else if i == 1 {
        Suit::Diamond
    } else if i == 2 {
        Suit::Spade
    } else {
        Suit::Club
    }
}

/// The `i`-th value in the order a fresh deck is laid out, two first.
pub open spec fn value_at(i: int) -> Value {
    if i == 0 {
        Value::Two
    } else if i == 1 {
        Value::Three
    } else if i == 2 {
        Value::Four
    } else if i == 3 {
        Value::Five
    } else if i == 4 {
        Value::Six
    } else if i == 5 {
        Value::Seven
    } else if i == 6 {
        Value::Eight
    } else if i == 7 {
        Value::Nine
    } else if i == 8 {
        Value::Ten
    } else if i == 9 {
        Value::Jack
    } else if i == 10 {
        Value::Queen
    } else if i == 11 {
        Value::King
    } else {
        Value::Ace
    }
}

/// A fresh deck: every suit in turn, each with its thirteen values in ascending order.
pub open spec fn standard_deck() -> Seq<Card> {
    Seq::new(52, |i: int| Card { suit: suit_at(i / 13), value: value_at(i % 13) })
}

/// A fresh deck holds 52 different cards.
pub proof fn lemma_standard_deck_distinct()
    ensures
        standard_deck().len() == 52,
        forall|i: int, j: int| 0 <= i < j < 52 ==> standard_deck()[i] != standard_deck()[j],
{
    assert forall|i: int, j: int| 0 <= i < j < 52 implies standard_deck()[i] != standard_deck()[j] by {
        vstd::arithmetic::div_mod::lemma_fundamental_div_mod(i, 13);
        vstd::arithmetic::div_mod::lemma_fundamental_div_mod(j, 13);
        vstd::arithmetic::div_mod::lemma_mod_bound(i, 13);
        vstd::arithmetic::div_mod::lemma_mod_bound(j, 13);
        assert(0 <= i / 13 < 4) by (nonlinear_arith)
            requires
                i == 13 * (i / 13) + i % 13,
                0 <= i % 13 < 13,
                0 <= i < 52,
        ;
        assert(0 <= j / 13 < 4) by (nonlinear_arith)
            requires
                j == 13 * (j / 13) + j % 13,
                0 <= j % 13 < 13,
                0 <= j < 52,
        ;
        if i / 13 == j / 13 && i % 13 == j % 13 {
            assert(i == j);
        }
    }
}

fn suit_from_index(i: usize) -> (s: Suit)
    ensures
        s == suit_at(i as int),
{
    if i == 0 {
        Suit::Heart
    } else if i == 1 {
        Suit::Diamond
    } else if i == 2 {
        Suit::Spade
    } else {
        Suit::Club
    }
}

fn value_from_index(i: usize) -> (v: Value)
    ensures
        v == value_at(i as int),
{
    if i == 0 {
        Value::Two
    } else if i == 1 {
        Value::Three
    } else if i == 2 {
        Value::Four
    } else if i == 3 {
        Value::Five
    } else if i == 4 {
        Value::Six
    } else if i == 5 {
        Value::Seven
    } else if i == 6 {
        Value::Eight
    } else if i == 7 {
        Value::Nine
    } else if i == 8 {
        Value::Ten
    } else if i == 9 {
        Value::Jack
    } else if i == 10 {
        Value::Queen
    } else if i == 11 {
        Value::King
    } else {
        Value::Ace
    }
}

impl Deck {
    /// A fresh deck of 52 cards.
    pub fn new() -> (d: Deck)
        ensures
            d@ == standard_deck(),
    {
        let mut cards: Vec<Card> = Vec::new();
        for s in 0..4usize
            invariant
                cards@.len() == 13 * s,
                forall|k: int| 0 <= k < cards@.len() ==> #[trigger] cards@[k] == standard_deck()[k],
        {
            for v in 0..13usize
                invariant
                    s < 4,
                    cards@.len() == 13 * s + v,
                    forall|k: int| 0 <= k < cards@.len() ==> #[trigger] cards@[k] == standard_deck()[k],
            {
                let c = Card::new(suit_from_index(s), value_from_index(v));
                proof {
                    let k = 13 * s + v;
                    assert(k / 13 == s && k % 13 == v) by (nonlinear_arith)
                        requires
                            k == 13 * s + v,
                            v < 13,
                    ;
                }
                cards.push(c);
            }
        }
        assert(cards@ =~= standard_deck());
        Deck { cards }
    }

    /// Number of cards left.
    pub fn len(&self) -> (n: usize)
        ensures
            n == self@.len(),
    {
        self.cards.len()
    }

    /// Deals the card at the end of the deck.
    pub fn deal_card(&mut self) -> (c: Card)
        requires
            old(self)@.len() > 0,
        ensures
            c == old(self)@.last(),
            final(self)@ == old(self)@.drop_last(),
    {
        self.cards.pop().unwrap()
    }

    /// Puts every card back: the deck is fresh again.
    pub fn reset_deck(&mut self)
        ensures
            final(self)@ == standard_deck(),
    {
        *self = Deck::new();
    }
}

impl Clone for Deck {
    /// A deck holding the same cards in the same order.
    fn clone(&self) -> (d: Deck)
        ensures
            d@ == self@,
    {
        let cards = self.cards.clone();
        assert(cards@ =~= self.cards@);
        Deck { cards }
    }
}

} // verus!
