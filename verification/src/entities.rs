//! The things on the table: cards, hands, the deck, players and the pot.
pub mod card;
pub mod deck;
pub mod hand;
pub mod player;
pub mod pot;
pub mod ranking;
pub mod suit;
pub mod value;
