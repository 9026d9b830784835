//! A Texas hold'em table: players, pots, the betting rules and the flow of a hand.
pub mod entities;
pub mod game;
