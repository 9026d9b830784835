use vstd::prelude::*;

use crate::entities::player::Player;
use crate::entities::pot::Pot;

verus! {

/// What a player may do on their turn.
#[derive(PartialEq, Eq, Structural, PartialOrd, Ord, Clone, Copy, Debug)]
pub enum Action {
    Call,
    Check,
    Bet { value: u32 },
    Raise { value: u32 },
    Fold,
    AllIn,
}

/// The betting state of a hand: the pot, the forced bets and the bet to match.
#[derive(Debug)]
pub struct Betting {
    pub pot: Pot,
    pub small_blind: u32,
    pub big_blind: u32,
    pub highest_bet: u32,
    pub ante: u32,
}

/// Why `validate_action` refuses an action.
pub open spec fn refusal_message(action: Action) -> Seq<char> {
    match action {
        Action::Bet { .. } => "Bet exceeds current chips."@,
        Action::Raise { .. } => "Invalid Raise"@,
        Action::Check => "You don't have enough chips bet to check."@,
        _ => "This shouldn't ever be reached tbh"@,
    }
}

impl Betting {
    /// The pot.
    pub open spec fn pots(self) -> Pot {
        self.pot
    }

    /// The small blind.
    pub open spec fn small(self) -> u32 {
        self.small_blind
    }

    /// The big blind.
    pub open spec fn big(self) -> u32 {
        self.big_blind
    }

    /// The ante.
    pub open spec fn ante_amount(self) -> u32 {
        self.ante
    }

    /// The bet every player must match to stay in.
    pub open spec fn highest(self) -> u32 {
        self.highest_bet
    }

    /// The betting state with the bet to match set to `v`.
    pub open spec fn with_highest(self, v: u32) -> Betting {
        Betting { highest_bet: v, ..self }
    }

    /// Setting the bet to match changes nothing else.
    pub broadcast proof fn lemma_with_highest(b: Betting, v: u32)
        ensures
            #[trigger] b.with_highest(v).highest() == v,
            b.with_highest(v).small() == b.small(),
            b.with_highest(v).big() == b.big(),
            b.with_highest(v).ante_amount() == b.ante_amount(),
            b.with_highest(v).pots() == b.pots(),
            b.with_highest(b.highest()) == b,
    {
    }

    /// The action that `action` amounts to for `player`, or `None` where it is not allowed:
    /// a bet or raise of the whole stack or more is an all-in, so is a call when the stack
    /// does not exceed what the call costs (the highest bet less the bet already in); a raise
    /// must exceed the highest bet, a bet may not exceed the stack, and
    /// a check needs a bet of at least the highest bet already in.
    pub open spec fn validated(self, action: Action, player: Player) -> Option<Action> {
        match action {
            Action::Bet { value: v } => if v < player.chip_stack {
                Some(Action::Bet { value: v })
            } else if v <= player.chip_stack {
                Some(Action::AllIn)
            } else {
                None
            },
            Action::Raise { value: v } => if player.chip_stack > v && self.highest() < v {
                Some(Action::Raise { value: v })
            } else if player.chip_stack <= v && self.highest() < v {
                Some(Action::AllIn)
            } else {
                None
            },
            Action::Call => if player.chip_stack > self.highest() - player.current_bet {
                Some(Action::Call)
            } else {
                Some(Action::AllIn)
            },
            Action::Check => if self.highest() <= player.current_bet {
                Some(Action::Check)
            } else {
                None
            },
            Action::Fold => Some(Action::Fold),
            Action::AllIn => Some(Action::AllIn),
        }
    }

    /// Forced bets of `small_blind`, `big_blind` and `ante`, an empty pot and no bet yet.
    pub fn new(small_blind: u32, big_blind: u32, ante: u32) -> (b: Betting)
        ensures
            b.small() == small_blind,
            b.big() == big_blind,
            b.ante_amount() == ante,
            b.highest() == 0,
            b.pots().chips() == 0,
            b.pots().side_pot_list() == Seq::<u32>::empty(),
    {
        Betting { pot: Pot::default(), small_blind, big_blind, highest_bet: 0, ante }
    }

    /// The bet every player must match to stay in.
    pub fn get_highest_bet(&self) -> (v: u32)
        ensures
            v == self.highest(),
    {
        self.highest_bet
    }

    /// Sets the bet every player must match.
    pub fn set_highest_bet(&mut self, value: u32)
        ensures
            *final(self) == old(self).with_highest(value),
            final(self).highest() == value,
            final(self).small() == old(self).small(),
            final(self).big() == old(self).big(),
            final(self).ante_amount() == old(self).ante_amount(),
            final(self).pots() == old(self).pots(),
    {
        self.highest_bet = value;
    }

    /// The small blind.
    pub fn get_small_blind(&self) -> (v: u32)
        ensures
            v == self.small(),
    {
        self.small_blind
    }

    /// The big blind.
    pub fn get_big_blind(&self) -> (v: u32)
        ensures
            v == self.big(),
    {
        self.big_blind
    }

    /// The ante.
    pub fn get_ante(&self) -> (v: u32)
        ensures
            v == self.ante_amount(),
    {
        self.ante
    }

    /// Sets the small blind.
    #[allow(dead_code)]
    fn set_small_blind(&mut self, value: u32)
        ensures
            final(self).small() == value,
            final(self).big() == old(self).big(),
            final(self).ante_amount() == old(self).ante_amount(),
            final(self).highest() == old(self).highest(),
            final(self).pots() == old(self).pots(),
    {
        self.small_blind = value;
    }

    /// Sets the big blind.
    #[allow(dead_code)]
    fn set_big_blind(&mut self, value: u32)
        ensures
            final(self).big() == value,
            final(self).small() == old(self).small(),
            final(self).ante_amount() == old(self).ante_amount(),
            final(self).highest() == old(self).highest(),
            final(self).pots() == old(self).pots(),
    {
        self.big_blind = value;
    }

    /// Chips in the main pot.
    #[allow(dead_code)]
    fn get_chips(&self) -> (c: u32)
        ensures
            c == self.pots().chips(),
    {
        self.pot.get_chips()
    }

    /// A copy of the side pots.
    #[allow(dead_code)]
    fn get_side_pots(&self) -> (v: Vec<u32>)
        ensures
            v@ == self.pots().side_pot_list(),
    {
        self.pot.get_side_pots()
    }

    /// Checks `action` for `player`: `Ok` with what the action amounts to (see `validated`),
    /// or `Err` with the reason it is refused.
    pub fn validate_action(&self, action: Action, player: &Player) -> (r: Result<Action, String>)
        ensures
            match r {
                Ok(a) => self.validated(action, *player) == Some(a),
                Err(e) => self.validated(action, *player) is None && e@ == refusal_message(action),
            },
    {
        match action {
            Action::Bet { value: v } => {
                if v < player.get_chips() {
                    Ok(Action::Bet { value: v })
                } else if v <= player.get_chips() {
                    Ok(Action::AllIn)
                } else {
                    Err("Bet exceeds current chips.".to_owned())
                }
            },
            Action::Raise { value: v } => {
                if player.get_chips() > v && self.highest_bet < v {
                    Ok(Action::Raise { value: v })
                } else if player.get_chips() <= v && self.highest_bet < v {
                    Ok(Action::AllIn)
                } else {
                    Err("Invalid Raise".to_owned())
                }
            },
            Action::Call => {
                if player.current_bet > self.highest_bet || player.get_chips() > self.highest_bet - player.current_bet {
                    Ok(Action::Call)
                } else {
                    Ok(Action::AllIn)
                }
            },
            Action::Check => {
                if self.get_highest_bet() <= player.current_bet {
                    Ok(Action::Check)
                } else {
                    Err("You don't have enough chips bet to check.".to_owned())
                }
            },
            Action::Fold => Ok(Action::Fold),
            Action::AllIn => Ok(Action::AllIn),
        }
    }
}

/// An accepted action is the action asked for, or an all-in: validation never turns one
/// action into another of a different kind, and folding or going all in is always accepted.
pub proof fn lemma_validated_is_action_or_all_in(b: Betting, action: Action, player: Player)
    ensures
        b.validated(action, player) matches Some(a) ==> (a == action || a == Action::AllIn),
        b.validated(Action::Fold, player) == Some(Action::Fold),
        b.validated(Action::AllIn, player) == Some(Action::AllIn),
{
}

/// A bet is judged against the chips behind alone: a bet below the stack stands, a bet of
/// the whole stack is going all in, and a bet of more than the stack is refused. Neither the
/// chips the player already has in nor the bet to match change the verdict.
pub proof fn lemma_bet_judged_by_stack_alone(b: Betting, c: Betting, p: Player, q: Player, v: u32)
    requires
        q.chip_stack == p.chip_stack,
    ensures
        (b.validated(Action::Bet { value: v }, p) == Some(Action::Bet { value: v })) <==> v < p.chip_stack,
        (b.validated(Action::Bet { value: v }, p) == Some(Action::AllIn)) <==> v == p.chip_stack,
        (b.validated(Action::Bet { value: v }, p) is None) <==> v > p.chip_stack,
        b.validated(Action::Bet { value: v }, p) == c.validated(Action::Bet { value: v }, q),
{
}

/// A call stands when the stack covers more than what the call costs (the bet to match less
/// the chips already in), and is otherwise going all in; it is never refused. A raise to `v`
/// must go above the bet to match: it stands when the stack is larger than `v`, goes all in
/// otherwise. A check stands exactly when the player's bet already reaches the bet to match.
pub proof fn lemma_call_raise_check_rules(b: Betting, p: Player, v: u32)
    ensures
        b.validated(Action::Call, p) == (if p.chip_stack + p.current_bet > b.highest() {
            Some(Action::Call)
        } else {
            Some(Action::AllIn)
        }),
        (b.validated(Action::Raise { value: v }, p) is None) <==> v <= b.highest(),
        v > b.highest() ==> (b.validated(Action::Raise { value: v }, p) == Some(Action::Raise { value: v })
            <==> p.chip_stack > v),
        (b.validated(Action::Check, p) is Some) <==> b.highest() <= p.current_bet,
        b.validated(Action::Check, p) is Some ==> b.validated(Action::Check, p) == Some(Action::Check),
{
}

/// The action chosen from the numbered menu: 0 fold, 1 check, 2 call, 3 bet `amount`,
/// 4 raise to `amount`, 5 all in; any other number chooses nothing.
pub open spec fn menu_action(choice: usize, amount: u32) -> Option<Action> {
    if choice == 0 {
        Some(Action::Fold)
    } else if choice == 1 {
        Some(Action::Check)
    } else if choice == 2 {
        Some(Action::Call)
    } else if choice == 3 {
        Some(Action::Bet { value: amount })
    } else if choice == 4 {
        Some(Action::Raise { value: amount })
    } else if choice == 5 {
        Some(Action::AllIn)
    } else {
        None
    }
}

/// Whether menu entry `choice` asks for an amount (bet and raise do).
pub fn choice_needs_amount(choice: usize) -> (b: bool)
    ensures
        b == (choice == 3 || choice == 4),
{
    choice == 3 || choice == 4
}

/// The action for menu entry `choice` (see `menu_action`).
pub fn action_for_choice(choice: usize, amount: u32) -> (a: Option<Action>)
    ensures
        a == menu_action(choice, amount),
{
    match choice {
        0 => Some(Action::Fold),
        1 => Some(Action::Check),
        2 => Some(Action::Call),
        3 => Some(Action::Bet { value: amount }),
        4 => Some(Action::Raise { value: amount }),
        5 => Some(Action::AllIn),
        _ => None,
    }
}

impl Clone for Betting {
    /// The same forced bets and bet to match, with a copy of the pot.
    fn clone(&self) -> (b: Betting)
        ensures
            b == (Betting { pot: b.pot, ..*self }),
            b.pots().chips() == self.pots().chips(),
            b.pots().side_pot_list() == self.pots().side_pot_list(),
    {
        Betting {
            pot: self.pot.clone(),
            small_blind: self.small_blind,
            big_blind: self.big_blind,
            highest_bet: self.highest_bet,
            ante: self.ante,
        }
    }
}

impl Default for Betting {
    /// Blinds of 10 and 20, an ante of 5.
    fn default() -> (b: Betting)
        ensures
            b.small() == 10,
            b.big() == 20,
            b.ante_amount() == 5,
            b.highest() == 0,
            b.pots().chips() == 0,
            b.pots().side_pot_list() == Seq::<u32>::empty(),
    {
        Betting::new(10, 20, 5)
    }
}

impl From<(u32, u32, u32)> for Betting {
    /// Blinds and ante from `(small blind, big blind, ante)`.
    fn from(value: (u32, u32, u32)) -> (b: Betting)
        ensures
            b.small() == value.0,
            b.big() == value.1,
            b.ante_amount() == value.2,
            b.highest() == 0,
            b.pots().chips() == 0,
            b.pots().side_pot_list() == Seq::<u32>::empty(),
    {
        Betting::new(value.0, value.1, value.2)
    }
}

impl vstd::std_specs::convert::FromSpecImpl<(u32, u32, u32)> for Betting {
    open spec fn obeys_from_spec() -> bool {
        false
    }

    open spec fn from_spec(v: (u32, u32, u32)) -> Betting {
        vstd::pervasive::arbitrary()
    }
}

} // verus!
