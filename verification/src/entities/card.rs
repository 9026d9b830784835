use vstd::prelude::*;

use crate::entities::suit::Suit;
use crate::entities::value::Value;

verus! {

/// A playing card.
#[derive(Debug, Clone, Copy, PartialEq, Eq, Structural)]
pub struct Card {
    pub suit: Suit,
    pub value: Value,
}

impl Card {
    /// The card of the given suit and value.
    pub fn new(suit: Suit, value: Value) -> (c: Card)
        ensures
            c.suit == suit,
            c.value == value,
    {
        Card { suit, value }
    }
}

} // verus!
