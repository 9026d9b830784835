//! The course of a hand: forced bets and hole cards, the betting rounds of each street, the
//! showdown, and clearing the table for the next hand.
use vstd::prelude::*;

use crate::entities::card::Card;
use crate::entities::deck::standard_deck;
use crate::entities::player::Player;
use crate::game::betting::Action;
use crate::game::showdown::{showdown_in_range, unfolded_count, winnings};
use crate::game::{
    active_order, after_action, after_turn, can_act, cards_dealt, forced_bets_valid,
    forced_bets_posted, in_play, lemma_active_order_in_range, lemma_active_order_is_seats_in_play,
    next_turn_seat, river_dealable, river_progressed, turn_seat, Game, GameView,
};

verus! {

/// The betting rounds of a hand, in the order they are played.
#[derive(Debug, Clone, Copy, PartialEq, Eq, Structural)]
pub enum Street {
    Preflop,
    Flop,
    Turn,
    River,
}

/// The street played after `s`, or `None` after the river (the showdown follows).
pub open spec fn street_after(s: Street) -> Option<Street> {
    match s {
        Street::Preflop => Some(Street::Flop),
        Street::Flop => Some(Street::Turn),
        Street::Turn => Some(Street::River),
        Street::River => None,
    }
}

/// The street played after `s`, or `None` after the river.
pub fn next_street(s: Street) -> (n: Option<Street>)
    ensures
        n == street_after(s),
{
    match s {
        Street::Preflop => Some(Street::Flop),
        Street::Flop => Some(Street::Turn),
        Street::Turn => Some(Street::River),
        Street::River => None,
    }
}

/// The table with its betting order rebuilt from the dealer.
pub open spec fn with_order(g: GameView) -> GameView {
    GameView { refs: active_order(g.players, g.dealer_pos as int), ..g }
}

/// The table after the showdown: the betting order rebuilt, each player paid its `winnings`
/// and its bet cleared.
pub open spec fn paid_out(g: GameView) -> GameView {
    GameView {
        players: Seq::new(
            g.players.len(),
            |q: int|
                Player {
                    chip_stack: (g.players[q].chip_stack + winnings(g.players, q)) as u32,
                    current_bet: 0,
                    ..g.players[q]
                },
        ),
        ..with_order(g)
    }
}

/// One step of a hand once the cards are dealt.
pub enum HandStep {
    /// A turn: `get_next_player` names the seat to act (see `turn_seat`), which plays
    /// `action`, and the turn passes on (see `Game::finish_turn`); when no seat is named the
    /// betting round is over and nothing is played.
    Turn { action: Action },
    /// The next street is opened (see `Game::open_street`).
    NextStreet,
}

/// The table after a turn in which the seat to act, if any, plays `action`.
pub open spec fn turn_played(g: GameView, action: Action) -> GameView {
    match turn_seat(g) {
        Some(s) => after_turn(after_action(with_order(g), s as int, action)),
        None => with_order(g),
    }
}

/// The table after one step.
pub open spec fn step_taken(g: GameView, step: HandStep) -> GameView {
    match step {
        HandStep::Turn { action } => turn_played(g, action),
        HandStep::NextStreet => river_progressed(with_order(g)),
    }
}

/// The table after the steps, in order.
pub open spec fn steps_taken(g: GameView, steps: Seq<HandStep>) -> GameView
    decreases steps.len(),
{
    if steps.len() == 0 {
        g
    } else {
        step_taken(steps_taken(g, steps.drop_last()), steps.last())
    }
}

/// How many of the steps open a street.
pub open spec fn streets_opened(steps: Seq<HandStep>) -> nat
    decreases steps.len(),
{
    if steps.len() == 0 {
        0
    } else {
        streets_opened(steps.drop_last()) + if steps.last() is NextStreet {
            1nat
        } else {
            0nat
        }
    }
}

/// A turn moves no chip, bet, card or flag when no seat is to act: only the betting order is
/// rebuilt. When a seat is to act (and the turn position points into the betting order, as
/// `get_next_player` requires), it is a seat at the table still in play (neither folded nor
/// all in), and the turn is that seat's action followed by the turn passing on.
pub proof fn lemma_turn_played(g: GameView, action: Action)
    requires
        g.players.len() <= usize::MAX,
        turn_seat(g) is Some ==> g.table_pos < active_order(g.players, g.dealer_pos as int).len(),
    ensures
        turn_seat(g) is None ==> turn_played(g, action) == (GameView {
            refs: active_order(g.players, g.dealer_pos as int),
            ..g
        }),
        turn_seat(g) matches Some(s) ==> {
            &&& (s as int) < g.players.len()
            &&& in_play(g.players[s as int])
            &&& turn_played(g, action) == after_turn(after_action(with_order(g), s as int, action))
        },
{
    let refs = active_order(g.players, g.dealer_pos as int);
    lemma_active_order_in_range(g.players, g.dealer_pos as int);
    lemma_active_order_is_seats_in_play(g.players, g.dealer_pos as int);
    if let Some(s) = turn_seat(g) {
        assert(refs[g.table_pos as int] == s);
        assert(refs.contains(s));
    }
}

/// The steps of a hand keep the dealer button where it is; from an empty board, each street
/// opened deals the flop (three cards) first and one card after that.
proof fn lemma_steps_taken(g: GameView, steps: Seq<HandStep>)
    ensures
        steps_taken(g, steps).dealer_pos == g.dealer_pos,
        g.river.len() == 0 ==> steps_taken(g, steps).river.len() == if streets_opened(steps) == 0 {
            0
        } else {
            streets_opened(steps) + 2
        },
    decreases steps.len(),
{
    if steps.len() > 0 {
        lemma_steps_taken(g, steps.drop_last());
    }
}

/// A hand started on an empty board (see `Game::start_hand`): once its three streets have
/// been opened the board holds five cards, whatever is played in between; the dealer button
/// does not move during the hand; and the showdown leaves no bet on the table.
pub proof fn lemma_hand_fills_board_and_clears_bets(start: GameView, dealt: GameView, steps: Seq<HandStep>)
    requires
        start.river.len() == 0,
        cards_dealt(
            GameView {
                players: forced_bets_posted(with_order(start)),
                betting: start.betting.with_highest(start.betting.big()),
                ..with_order(start)
            },
            dealt,
        ),
        streets_opened(steps) == 3,
    ensures
        steps_taken(dealt, steps).river.len() == 5,
        steps_taken(dealt, steps).dealer_pos == start.dealer_pos,
        paid_out(steps_taken(dealt, steps)).river.len() == 5,
        paid_out(steps_taken(dealt, steps)).dealer_pos == start.dealer_pos,
        forall|q: int| 0 <= q < paid_out(steps_taken(dealt, steps)).players.len()
            ==> #[trigger] paid_out(steps_taken(dealt, steps)).players[q].current_bet == 0,
{
    lemma_steps_taken(dealt, steps);
}

impl Game {
    /// Starts a hand: rebuilds the betting order, takes the forced bets, deals two cards to
    /// each player.
    pub fn start_hand(&mut self)
        requires
            forced_bets_valid(old(self)@),
            old(self)@.deck.len() >= 2 * old(self)@.players.len(),
        ensures
            cards_dealt(
                GameView {
                    players: forced_bets_posted(with_order(old(self)@)),
                    betting: old(self)@.betting.with_highest(old(self)@.betting.big()),
                    ..with_order(old(self)@)
                },
                final(self)@,
            ),
    {
        self.create_player_reference_vec();
        self.collect_ante_blind();
        self.deal_cards();
    }

    /// Opens the next street: rebuilds the betting order and deals the next community cards.
    pub fn open_street(&mut self)
        requires
            river_dealable(old(self)@),
        ensures
            final(self)@ == river_progressed(with_order(old(self)@)),
    {
        self.create_player_reference_vec();
        self.progress_river();
    }

    /// Ends a player's turn: the action is performed (see `after_action`), then the turn
    /// passes (see `after_turn`); `Ok` with the next seat to act, `Err` when the betting
    /// round is over.
    pub fn finish_turn(&mut self, index: usize, action: Action) -> (r: Result<u32, String>)
        requires
            can_act(old(self)@, index as int, action),
        ensures
            final(self)@ == after_turn(after_action(old(self)@, index as int, action)),
            match r {
                Ok(seat) => next_turn_seat(after_action(old(self)@, index as int, action)) == Some(seat),
                Err(e) => next_turn_seat(after_action(old(self)@, index as int, action)) is None && e@ == "Move on."@,
            },
    {
        let _ = self.execute_player_action(index, action);
        self.go_next_player()
    }

    /// Ends the hand: rebuilds the betting order and pays out the showdown (see `winnings`),
    /// clearing every bet.
    pub fn showdown(&mut self)
        requires
            unfolded_count(old(self)@.players) > 0,
            showdown_in_range(old(self)@.players),
            forall|q: int| 0 <= q < old(self)@.players.len() ==> (#[trigger] old(self)@.players[q]).chip_stack
                + winnings(old(self)@.players, q) <= u32::MAX,
        ensures
            final(self)@ == paid_out(old(self)@),
            final(self)@ == (GameView { players: final(self)@.players, ..with_order(old(self)@) }),
            final(self)@.players.len() == old(self)@.players.len(),
            forall|q: int| 0 <= q < old(self)@.players.len() ==> #[trigger] final(self)@.players[q] == (Player {
                chip_stack: (old(self)@.players[q].chip_stack + winnings(old(self)@.players, q)) as u32,
                current_bet: 0,
                ..old(self)@.players[q]
            }),
    {
        self.create_player_reference_vec();
        self.distribute_winnings();
        assert(self@.players =~= paid_out(old(self)@).players);
    }

    /// Clears the table for the next hand: a fresh deck, no bets, no cards, an empty board,
    /// nobody folded or all in; then rebuilds the betting order and tells whether at most one
    /// player is left to play (the game is over).
    pub fn reset_for_next_hand(&mut self) -> (over: bool)
        ensures
            final(self)@.deck == standard_deck(),
            final(self)@.river == Seq::<Card>::empty(),
            final(self)@.players.len() == old(self)@.players.len(),
            forall|i: int| 0 <= i < old(self)@.players.len() ==> {
                &&& (#[trigger] final(self)@.players[i]).hand@ == Seq::<Card>::empty()
                &&& final(self)@.players[i] == (Player {
                    hand: final(self)@.players[i].hand,
                    current_bet: 0,
                    has_folded: false,
                    is_all_in: false,
                    ..old(self)@.players[i]
                })
            },
            final(self)@.refs == active_order(final(self)@.players, old(self)@.dealer_pos as int),
            final(self)@.table_pos == old(self)@.table_pos,
            final(self)@.dealer_pos == old(self)@.dealer_pos,
            final(self)@.betting == old(self)@.betting,
            final(self)@.has_gone_around == old(self)@.has_gone_around,
            over == (final(self)@.refs.len() <= 1),
    {
        self.deck.reset_deck();
        self.clear_bets();
        self.clear_hands();
        self.reset_river();
        self.reset_folded();
        self.reset_all_in();
        self.get_current_players().len() <= 1
    }

    /// Whether `showdown` may be called: somebody has not folded, the arithmetic stays in
    /// range (see `showdown_in_range`) and no stack overflows (see `winnings`).
    pub fn showdown_fits(&mut self) -> (b: bool)
        ensures
            final(self)@ == old(self)@,
            b == ({
                let players = old(self)@.players;
                &&& unfolded_count(players) > 0
                &&& showdown_in_range(players)
                &&& forall|q: int| 0 <= q < players.len() ==> (#[trigger] players[q]).chip_stack
                    + winnings(players, q) <= u32::MAX
            }),
    {
        let ghost p0 = self@.players;
        if self.unfolded_players() == 0 {
            return false;
        }
        let (winners, bets) = self.winners_and_bets();
        if !self.showdown_arithmetic_in_range(&winners, &bets) {
            return false;
        }
        let gains = self.showdown_gains();
        let n = self.all_players.len();
        let mut ok = true;
        for q in 0..n
            invariant
                n == p0.len(),
                self@.players == p0,
                gains@.len() == n,
                forall|a: int| 0 <= a < n ==> #[trigger] gains@[a] == winnings(p0, a),
                ok == forall|a: int| 0 <= a < q ==> (#[trigger] p0[a]).chip_stack + winnings(p0, a) <= u32::MAX,
        {
            let chips = self.all_players[q].chip_stack as u64;
            if gains[q] > 0xFFFF_FFFFu64 - chips {
                ok = false;
            }
        }
        ok
    }
}

} // verus!
