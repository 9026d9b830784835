use poker::entities::card::Card;
use poker::entities::suit::Suit;
use poker::entities::value::Value;

#[test]
fn eq_test() {
    assert_eq!(Suit::Heart, Card::new(Suit::Heart, Value::Ace).suit);
    assert_eq!(Suit::Spade, Suit::Spade);
    assert_eq!(Suit::Diamond, Suit::Diamond);
    assert_eq!(Suit::Club, Suit::Club);
    assert_ne!(Suit::Heart, Suit::Diamond);
}

#[test]
fn suit_names() {
    assert_eq!(Suit::Heart.name(), "Heart");
    assert_eq!(Suit::Diamond.name(), "Diamond");
    assert_eq!(Suit::Spade.name(), "Spade");
    assert_eq!(Suit::Club.name(), "Club");
}

#[test]
fn value_ranks() {
    assert_eq!(Value::Two.rank(), 2);
    assert_eq!(Value::Ten.rank(), 10);
    assert_eq!(Value::Ace.rank(), 14);
    let c = Card::new(Suit::Club, Value::Queen);
    assert_eq!(c.value, Value::Queen);
    assert_eq!(c.suit, Suit::Club);
}
