use vstd::prelude::*;

verus! {

/// The face value of a card, from two up to ace.
#[derive(Debug, Clone, Copy, PartialEq, Eq, Structural)]
pub enum Value {
    Two,
    Three,
    Four,
    Five,
    Six,
    Seven,
    Eight,
    Nine,
    Ten,
    Jack,
    Queen,
    King,
    Ace,
}

/// The numeric rank of a value: two counts 2, ace counts 14.
pub open spec fn value_rank(v: Value) -> nat {
    match v {
        Value::Two => 2,
        Value::Three => 3,
        Value::Four => 4,
        Value::Five => 5,
        Value::Six => 6,
        Value::Seven => 7,
        Value::Eight => 8,
        Value::Nine => 9,
        Value::Ten => 10,
        Value::Jack => 11,
        Value::Queen => 12,
        Value::King => 13,
        Value::Ace => 14,
    }
}

impl Value {
    /// The numeric rank of this value.
    pub fn rank(&self) -> (r: u8)
        ensures
            r == value_rank(*self),
            2 <= r <= 14,
    {
        match self {
            Value::Two => 2,
            Value::Three => 3,
            Value::Four => 4,
            Value::Five => 5,
            Value::Six => 6,
            Value::Seven => 7,
            Value::Eight => 8,
            Value::Nine => 9,
            Value::Ten => 10,
            Value::Jack => 11,
            Value::Queen => 12,
            Value::King => 13,
            Value::Ace => 14,
        }
    }
}

} // verus!
