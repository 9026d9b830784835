use vstd::prelude::*;

verus! {

/// One of the four suits of a standard deck.
#[derive(Debug, Clone, Copy, PartialEq, Eq, Structural)]
pub enum Suit {
    Heart,
    Diamond,
    Spade,
    Club,
}

/// The printed name of a suit.
pub open spec fn suit_name(s: Suit) -> Seq<char> {
    match s {
        Suit::Heart => "Heart"@,
        Suit::Diamond => "Diamond"@,
        Suit::Club => "Club"@,
        Suit::Spade => "Spade"@,
    }
}

impl Suit {
    /// The name under which the suit is shown to players.
    pub fn name(&self) -> (s: &'static str)
        ensures
            s@ == suit_name(*self),
    {
        match self {
            Suit::Heart => "Heart",
            Suit::Diamond => "Diamond",
            Suit::Club => "Club",
            Suit::Spade => "Spade",
        }
    }
}

} // verus!
