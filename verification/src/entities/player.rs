use vstd::prelude::*;

use crate::entities::card::Card;
use crate::entities::hand::Hand;

verus! {

/// A seat at the table: the cards held, the chips behind and the chips bet this hand.
#[derive(Debug)]
pub struct Player {
    pub hand: Hand,
    pub has_folded: bool,
    pub is_all_in: bool,
    pub chip_stack: u32,
    pub current_bet: u32,
    pub has_acted: bool,
}

impl Player {
    /// Raising the bet to `v` takes the difference from the stack: it may not lower the bet,
    /// nor take more chips than the stack holds.
    pub open spec fn can_bet_to(self, v: u32) -> bool {
        self.current_bet <= v && v - self.current_bet <= self.chip_stack
    }

    /// The player after a forced bet that raises the bet to `v`: when that takes the whole
    /// stack or more, the whole stack goes in and the player is all in.
    pub open spec fn pay_forced(self, v: u32) -> Player {
        if v - self.current_bet >= self.chip_stack {
            Player {
                current_bet: (self.current_bet + self.chip_stack) as u32,
                chip_stack: 0,
                is_all_in: true,
                ..self
            }
        } else {
            self.bet_to(v)
        }
    }

    /// The player after raising the bet to `v`.
    pub open spec fn bet_to(self, v: u32) -> Player {
        Player { chip_stack: (self.chip_stack - (v - self.current_bet)) as u32, current_bet: v, ..self }
    }
}

/// A part of a player's state that is set back between betting rounds or hands: a flag
/// cleared, or the bet set back to zero.
#[derive(Clone, Copy, Debug)]
pub enum ResetField {
    HasActed,
    HasFolded,
    AllIn,
    Bet,
}

impl Player {
    /// The player with `f` set back.
    pub open spec fn with_reset(self, f: ResetField) -> Player {
        match f {
            ResetField::HasActed => Player { has_acted: false, ..self },
            ResetField::HasFolded => Player { has_folded: false, ..self },
            ResetField::AllIn => Player { is_all_in: false, ..self },
            ResetField::Bet => Player { current_bet: 0, ..self },
        }
    }

    /// Sets `f` back.
    pub fn reset(&mut self, f: ResetField)
        ensures
            *final(self) == old(self).with_reset(f),
    {
        match f {
            ResetField::HasActed => self.has_acted = false,
            ResetField::HasFolded => self.has_folded = false,
            ResetField::AllIn => self.is_all_in = false,
            ResetField::Bet => self.current_bet = 0,
        }
    }
}

impl Player {
    /// Access to the all-in flag, to set it in place.
    pub fn mut_is_all_in(&mut self) -> (r: &mut bool)
        ensures
            *r == old(self).is_all_in,
            *final(self) == (Player { is_all_in: *final(r), ..*old(self) }),
    {
        &mut self.is_all_in
    }

    /// The cards the player holds.
    pub fn get_hand(&self) -> (h: &Hand)
        ensures
            *h == self.hand,
    {
        &self.hand
    }

    /// Throws the cards away.
    pub fn clear_hand(&mut self)
        ensures
            final(self).hand@ == Seq::<Card>::empty(),
            *final(self) == (Player { hand: final(self).hand, ..*old(self) }),
    {
        self.hand = Hand::default();
    }

    /// Whether the player has folded this hand.
    pub fn has_folded(&self) -> (b: bool)
        ensures
            b == self.has_folded,
    {
        self.has_folded
    }

    /// The chips behind.
    pub fn get_chips(&self) -> (c: u32)
        ensures
            c == self.chip_stack,
    {
        self.chip_stack
    }

    /// Folds the hand.
    pub fn fold(&mut self)
        ensures
            *final(self) == (Player { has_folded: true, ..*old(self) }),
    {
        self.has_folded = true;
    }

    /// Moves `value` chips from the stack into the bet.
    pub fn make_bet(&mut self, value: u32)
        requires
            value <= old(self).chip_stack,
            old(self).current_bet + value <= u32::MAX,
        ensures
            *final(self) == (Player {
                chip_stack: (old(self).chip_stack - value) as u32,
                current_bet: (old(self).current_bet + value) as u32,
                ..*old(self)
            }),
    {
        self.chip_stack = self.chip_stack - value;
        self.current_bet = self.current_bet + value;
    }

    /// The chips bet this hand.
    pub fn get_bet(&self) -> (b: u32)
        ensures
            b == self.current_bet,
    {
        self.current_bet
    }

    /// Adds a card to the hand.
    pub fn draw_card(&mut self, value: Card)
        ensures
            final(self).hand@ == old(self).hand@.push(value),
            *final(self) == (Player { hand: final(self).hand, ..*old(self) }),
    {
        self.hand.draw_card(value);
    }

    /// Raises the bet to `value`, paying the difference from the stack.
    pub fn increase_bet_to(&mut self, value: u32)
        requires
            old(self).can_bet_to(value),
        ensures
            *final(self) == old(self).bet_to(value),
    {
        self.chip_stack = self.chip_stack - (value - self.current_bet);
        self.current_bet = value;
    }
}

impl Player {
    /// Pays a forced bet (blind or ante) that raises the bet to `value`; a player whose
    /// stack it takes entirely goes all in with what is left.
    pub fn pay_forced_bet(&mut self, value: u32)
        requires
            old(self).current_bet <= value,
        ensures
            *final(self) == old(self).pay_forced(value),
    {
        if value - self.current_bet >= self.chip_stack {
            self.current_bet = self.current_bet + self.chip_stack;
            self.chip_stack = 0;
            self.is_all_in = true;
        } else {
            self.chip_stack = self.chip_stack - (value - self.current_bet);
            self.current_bet = value;
        }
    }
}

impl Clone for Player {
    /// A player holding the same cards, with the same chips and status.
    fn clone(&self) -> (p: Player)
        ensures
            p.hand@ == self.hand@,
            p == (Player { hand: p.hand, ..*self }),
    {
        Player {
            hand: self.hand.clone(),
            has_folded: self.has_folded,
            is_all_in: self.is_all_in,
            chip_stack: self.chip_stack,
            current_bet: self.current_bet,
            has_acted: self.has_acted,
        }
    }
}

impl Default for Player {
    /// A player with no cards and 2000 chips.
    fn default() -> (p: Player)
        ensures
            p.hand@ == Seq::<Card>::empty(),
            !p.has_folded,
            !p.is_all_in,
            p.chip_stack == 2000,
            p.current_bet == 0,
            !p.has_acted,
    {
        Player {
            hand: Hand::default(),
            has_folded: false,
            is_all_in: false,
            chip_stack: 2000,
            current_bet: 0,
            has_acted: false,
        }
    }
}

impl From<Hand> for Player {
    /// A player holding `value`, with no chips.
    fn from(value: Hand) -> (p: Player) {
        Player {
            hand: value,
            has_folded: false,
            is_all_in: false,
            chip_stack: 0,
            current_bet: 0,
            has_acted: false,
        }
    }
}

impl vstd::std_specs::convert::FromSpecImpl<Hand> for Player {
    open spec fn obeys_from_spec() -> bool {
        true
    }

    open spec fn from_spec(v: Hand) -> Player {
        Player {
            hand: v,
            has_folded: false,
            is_all_in: false,
            chip_stack: 0,
            current_bet: 0,
            has_acted: false,
        }
    }
}

impl From<(Hand, u32)> for Player {
    /// A player holding `value.0`, with `value.1` chips.
    fn from(value: (Hand, u32)) -> (p: Player) {
        Player {
            hand: value.0,
            has_folded: false,
            is_all_in: false,
            chip_stack: value.1,
            current_bet: 0,
            has_acted: false,
        }
    }
}

impl vstd::std_specs::convert::FromSpecImpl<(Hand, u32)> for Player {
    open spec fn obeys_from_spec() -> bool {
        true
    }

    open spec fn from_spec(v: (Hand, u32)) -> Player {
        Player {
            hand: v.0,
            has_folded: false,
            is_all_in: false,
            chip_stack: v.1,
            current_bet: 0,
            has_acted: false,
        }
    }
}

impl PartialEq for Player {
    /// Two players are equal when they hold the same cards.
    fn eq(&self, other: &Player) -> (b: bool) {
        self.hand == other.hand
    }
}

impl Eq for Player {}

impl vstd::std_specs::cmp::PartialEqSpecImpl for Player {
    open spec fn obeys_eq_spec() -> bool {
        true
    }

    open spec fn eq_spec(&self, other: &Player) -> bool {
        self.hand@ == other.hand@
    }
}

} // verus!
