use poker::entities::card::Card;
use poker::entities::deck::Deck;
use poker::entities::hand::Hand;
use poker::entities::player::Player;
use poker::entities::suit::Suit;
use poker::entities::value::Value;
use poker::entities::suit::Suit::{Club, Diamond, Heart, Spade};
use poker::entities::value::Value::{Ace, Five, Four, Jack, King, Nine, Queen, Seven, Six, Three, Two, Eight};

fn hand_of(cards: &[(Suit, Value)]) -> Hand {
    let mut h = Hand::default();
    for (s, v) in cards {
        h.draw_card(Card::new(*s, *v));
    }
    h
}

#[test]
fn fresh_deck_holds_52_distinct_cards() {
    let mut deck = Deck::new();
    assert_eq!(deck.len(), 52);
    let mut seen: Vec<Card> = Vec::new();
    while deck.len() > 0 {
        let c = deck.deal_card();
        assert!(!seen.contains(&c));
        seen.push(c);
    }
    assert_eq!(seen.len(), 52);
    assert_eq!(seen[0], Card::new(Suit::Club, Value::Ace));
    assert_eq!(seen[51], Card::new(Suit::Heart, Value::Two));
    deck.reset_deck();
    assert_eq!(deck.len(), 52);
}

#[test]
fn pair_beats_high_cards() {
    let aces = hand_of(&[(Suit::Heart, Value::Ace), (Suit::Diamond, Value::Ace)]);
    let king_two = hand_of(&[(Suit::Heart, Value::King), (Suit::Spade, Value::Two)]);
    let twos = hand_of(&[(Suit::Heart, Value::Two), (Suit::Club, Value::Two)]);
    assert_eq!(aces.determine_hand().score, 1515375);
    assert_eq!(king_two.determine_hand().score, 664875);
    assert!(twos.determine_hand().score > king_two.determine_hand().score);
    assert!(aces.determine_hand().score > twos.determine_hand().score);
    assert_eq!(Hand::default().determine_hand().score, 0);
}

#[test]
fn five_card_categories() {
    let quads = hand_of(&[(Heart, Nine), (Club, Nine), (Spade, Nine), (Diamond, Nine), (Heart, Two)]);
    let full = hand_of(&[(Heart, Three), (Club, Three), (Spade, Three), (Diamond, Ace), (Heart, Ace)]);
    let trips = hand_of(&[(Heart, Three), (Club, Three), (Spade, Three), (Diamond, Ace), (Heart, King)]);
    let two_pair = hand_of(&[(Heart, Ace), (Club, Ace), (Spade, King), (Diamond, King), (Heart, Queen)]);
    assert_eq!(quads.determine_hand().score / 759375, 7);
    assert_eq!(full.determine_hand().score / 759375, 6);
    assert_eq!(trips.determine_hand().score / 759375, 3);
    assert_eq!(two_pair.determine_hand().score / 759375, 2);
    assert!(quads.determine_hand().score > full.determine_hand().score);
    assert!(full.determine_hand().score > trips.determine_hand().score);
    assert!(trips.determine_hand().score > two_pair.determine_hand().score);
}

#[test]
fn hand_keeps_cards_in_order() {
    let h = hand_of(&[(Suit::Heart, Value::Five), (Suit::Club, Value::Jack)]);
    assert_eq!(h.len(), 2);
    assert_eq!(h.get_cards(), vec![Card::new(Suit::Heart, Value::Five), Card::new(Suit::Club, Value::Jack)]);
    assert_eq!(h.clone().get_cards(), h.get_cards());
}

#[test]
fn player_chip_moves() {
    let mut p = Player::default();
    assert_eq!(p.get_chips(), 2000);
    assert_eq!(p.get_bet(), 0);
    p.make_bet(150);
    assert_eq!((p.get_chips(), p.get_bet()), (1850, 150));
    p.increase_bet_to(400);
    assert_eq!((p.get_chips(), p.get_bet()), (1600, 400));
    assert_eq!(p.get_chips() + p.get_bet(), 2000);
    assert!(!p.has_folded());
    p.fold();
    assert!(p.has_folded());
    *p.mut_is_all_in() = true;
    assert!(p.is_all_in);
    p.draw_card(Card::new(Suit::Spade, Value::Ace));
    assert_eq!(p.get_hand().len(), 1);
    p.clear_hand();
    assert_eq!(p.get_hand().len(), 0);
    assert_eq!(p.get_chips(), 1600);
}

#[test]
fn player_from_hand() {
    let h = hand_of(&[(Suit::Spade, Value::Ace)]);
    let p = Player::from(h.clone());
    assert_eq!(p.get_chips(), 0);
    assert_eq!(p.get_hand().get_cards(), h.get_cards());
    let q = Player::from((h, 750));
    assert_eq!(q.get_chips(), 750);
    assert_eq!(q.get_bet(), 0);
    assert!(!q.has_folded && !q.is_all_in && !q.has_acted);
}

#[test]
fn straights_and_flushes() {
    let straight = hand_of(&[(Heart, Five), (Club, Six), (Spade, Seven), (Diamond, Eight), (Heart, Nine)]);
    let wheel = hand_of(&[(Heart, Ace), (Club, Two), (Spade, Three), (Diamond, Four), (Heart, Five)]);
    let flush = hand_of(&[(Heart, Two), (Heart, Five), (Heart, Seven), (Heart, Nine), (Heart, Jack)]);
    let straight_flush = hand_of(&[(Club, Five), (Club, Six), (Club, Seven), (Club, Eight), (Club, Nine)]);
    let full = hand_of(&[(Heart, Three), (Club, Three), (Spade, Three), (Diamond, Ace), (Heart, Ace)]);
    let trips = hand_of(&[(Heart, Three), (Club, Three), (Spade, Three), (Diamond, Ace), (Heart, King)]);
    assert_eq!(straight.determine_hand().score, 4 * 759375 + 9 * 50625);
    assert_eq!(wheel.determine_hand().score, 4 * 759375 + 5 * 50625);
    assert_eq!(flush.determine_hand().score, 5 * 759375 + 11 * 50625 + 9 * 3375 + 7 * 225 + 5 * 15 + 2);
    assert_eq!(straight_flush.determine_hand().score, 8 * 759375 + 9 * 50625);
    assert!(straight_flush.determine_hand().score > full.determine_hand().score);
    assert!(full.determine_hand().score > flush.determine_hand().score);
    assert!(flush.determine_hand().score > straight.determine_hand().score);
    assert!(straight.determine_hand().score > trips.determine_hand().score);
    assert!(straight.determine_hand().score > wheel.determine_hand().score);
}

#[test]
fn players_compare_by_their_cards() {
    let a = Player::from((hand_of(&[(Heart, Ace), (Club, Two)]), 10));
    let b = Player::from((hand_of(&[(Heart, Ace), (Club, Two)]), 500));
    let c = Player::from((hand_of(&[(Club, Two), (Heart, Ace)]), 10));
    assert!(a == b);
    assert!(a != c);
    assert!(a.get_hand() == b.get_hand());
}
