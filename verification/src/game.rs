//! The table: seats, dealer button, betting rounds, the board and the showdown.
pub mod betting;
pub mod payout;
pub mod round;
pub mod showdown;

use vstd::prelude::*;

use crate::entities::card::Card;
use crate::entities::deck::{standard_deck, Deck};
use crate::entities::player::{Player, ResetField};
use crate::game::betting::{refusal_message, Action, Betting};
use crate::game::showdown::{
    best_score, bets_of, lemma_best_score_bound, lemma_seats_scoring_none,
    lemma_unfolded_count_bound, lemma_winnings_bounded_by_stake, seat_score,
    seats_scoring, showdown_in_range, unfolded_count, winning_seats, winnings,
};

verus! {

/// A table of players and the state of the hand being played.
#[derive(Debug)]
pub struct Game {
    pub all_players: Vec<Player>,
    pub player_reference_vector: Vec<usize>,
    pub table_pos: usize,
    pub dealer_pos: usize,
    pub betting_handler: Betting,
    pub river: Vec<Card>,
    pub deck: Deck,
    pub has_gone_around: bool,
}

/// The state of a table as the rules see it.
pub struct GameView {
    /// Every seat, folded or not.
    pub players: Seq<Player>,
    /// The seats still to act this betting round, from the dealer on.
    pub refs: Seq<usize>,
    /// Whose turn it is, as a position in `refs`.
    pub table_pos: usize,
    /// The dealer's seat.
    pub dealer_pos: usize,
    pub betting: Betting,
    /// The community cards.
    pub river: Seq<Card>,
    /// The cards still in the deck.
    pub deck: Seq<Card>,
    pub has_gone_around: bool,
}

impl View for Game {
    type V = GameView;

    open spec fn view(&self) -> GameView {
        GameView {
            players: self.all_players@,
            refs: self.player_reference_vector@,
            table_pos: self.table_pos,
            dealer_pos: self.dealer_pos,
            betting: self.betting_handler,
            river: self.river@,
            deck: self.deck@,
            has_gone_around: self.has_gone_around,
        }
    }
}

/// A player who may still act: neither folded nor all in.
pub open spec fn in_play(p: Player) -> bool {
    !p.has_folded && !p.is_all_in
}

/// The first `k` seats clockwise from the dealer (the dealer first) that are still in play.
pub open spec fn active_seats(players: Seq<Player>, dealer: int, k: nat) -> Seq<usize>
    decreases k,
{
    if k == 0 {
        Seq::empty()
    } else {
        let prev = active_seats(players, dealer, (k - 1) as nat);
        let seat = (dealer + k - 1) % (players.len() as int);
        if in_play(players[seat]) {
            prev.push(seat as usize)
        } else {
            prev
        }
    }
}

/// The seat `j` seats clockwise from `dealer` at a table of `n`.
pub open spec fn clockwise(dealer: int, j: int, n: int) -> int {
    (dealer + j) % n
}

/// Every seat still in play, clockwise from the dealer.
pub open spec fn active_order(players: Seq<Player>, dealer: int) -> Seq<usize> {
    if players.len() == 0 {
        Seq::empty()
    } else {
        active_seats(players, dealer, players.len())
    }
}

/// Every seat in `refs` has acted this betting round.
pub open spec fn all_acted(players: Seq<Player>, refs: Seq<usize>) -> bool {
    forall|j: int| 0 <= j < refs.len() ==> (#[trigger] players[refs[j] as int]).has_acted
}

/// Every seat in `refs` has matched `highest`, or is all in.
pub open spec fn all_matched(players: Seq<Player>, refs: Seq<usize>, highest: u32) -> bool {
    forall|j: int|
        0 <= j < refs.len() ==> (#[trigger] players[refs[j] as int]).current_bet == highest
            || players[refs[j] as int].is_all_in
}

/// The betting round is over: everyone still in play has acted and matched the highest bet.
pub open spec fn round_settled(players: Seq<Player>, refs: Seq<usize>, highest: u32) -> bool {
    all_acted(players, refs) && all_matched(players, refs, highest)
}

/// The players with `f` set back on every seat.
pub open spec fn all_reset(players: Seq<Player>, f: ResetField) -> Seq<Player> {
    Seq::new(players.len(), |i: int| players[i].with_reset(f))
}

/// The players with their has-acted flags cleared.
pub open spec fn acted_cleared(players: Seq<Player>) -> Seq<Player> {
    all_reset(players, ResetField::HasActed)
}

/// The players with their folded flags cleared.
pub open spec fn folds_cleared(players: Seq<Player>) -> Seq<Player> {
    all_reset(players, ResetField::HasFolded)
}

/// The players with their all-in flags cleared.
pub open spec fn all_ins_cleared(players: Seq<Player>) -> Seq<Player> {
    all_reset(players, ResetField::AllIn)
}

/// The players with their bets set back to zero.
pub open spec fn bets_cleared(players: Seq<Player>) -> Seq<Player> {
    all_reset(players, ResetField::Bet)
}

/// The seat of the big blind: two seats after the dealer.
pub open spec fn big_blind_seat(n: nat, dealer: int) -> int {
    (dealer + 2) % (n as int)
}

/// The seat of the small blind: one seat after the dealer.
pub open spec fn small_blind_seat(n: nat, dealer: int) -> int {
    (dealer + 1) % (n as int)
}

/// The seats below `k` that pay the ante: all but the two blinds.
pub open spec fn ante_seats(n: nat, dealer: int, k: nat) -> Seq<usize>
    decreases k,
{
    if k == 0 {
        Seq::empty()
    } else {
        let prev = ante_seats(n, dealer, (k - 1) as nat);
        let i = k - 1;
        if i == big_blind_seat(n, dealer) || i == small_blind_seat(n, dealer) {
            prev
        } else {
            prev.push(i as usize)
        }
    }
}

/// The position after `pos` in a betting order of length `len`, wrapping round.
pub open spec fn next_position(pos: int, len: int) -> int {
    (pos + 1) % len
}

proof fn lemma_next_position(pos: int, len: int)
    requires
        len > 0,
        pos >= 0,
    ensures
        next_position(pos, len) == (pos % len + 1) % len,
        0 <= next_position(pos, len) < len,
{
    vstd::arithmetic::div_mod::lemma_add_mod_noop(pos, 1, len);
    vstd::arithmetic::div_mod::lemma_mod_bound(pos + 1, len);
    vstd::arithmetic::div_mod::lemma_mod_bound(pos, len);
    if len > 1 {
        vstd::arithmetic::div_mod::lemma_small_mod(1, len as nat);
    } else {
        vstd::arithmetic::div_mod::lemma_mod_bound(pos % len + 1, len);
        vstd::arithmetic::div_mod::lemma_mod_bound(pos % len + 1int % len, len);
    }
}

/// The players once the blinds are in: the big blind first, then the small blind.
pub open spec fn blinds_posted(g: GameView) -> Seq<Player> {
    let n = g.players.len();
    let bb = big_blind_seat(n, g.dealer_pos as int);
    let sb = small_blind_seat(n, g.dealer_pos as int);
    let p1 = g.players.update(bb, g.players[bb].pay_forced(g.betting.big()));
    p1.update(sb, p1[sb].pay_forced(g.betting.small()))
}

/// Every forced bet can be taken: there is a table, and no blind or ante is below the bet
/// the player has already made (a player short of chips goes all in, see `pay_forced`).
pub open spec fn forced_bets_valid(g: GameView) -> bool {
    let n = g.players.len();
    let bb = big_blind_seat(n, g.dealer_pos as int);
    let sb = small_blind_seat(n, g.dealer_pos as int);
    let p1 = g.players.update(bb, g.players[bb].pay_forced(g.betting.big()));
    &&& n > 0
    &&& g.players[bb].current_bet <= g.betting.big()
    &&& p1[sb].current_bet <= g.betting.small()
    &&& forall|i: int| 0 <= i < n && i != bb && i != sb ==> (#[trigger] g.players[i]).current_bet <= g.betting.ante_amount()
}

/// The players once the blinds and the antes are in.
pub open spec fn forced_bets_posted(g: GameView) -> Seq<Player> {
    let n = g.players.len();
    let bb = big_blind_seat(n, g.dealer_pos as int);
    let sb = small_blind_seat(n, g.dealer_pos as int);
    Seq::new(n, |i: int| if i == bb || i == sb {
        blinds_posted(g)[i]
    } else {
        g.players[i].pay_forced(g.betting.ante_amount())
    })
}

proof fn lemma_ante_seats(n: nat, dealer: int, k: nat)
    requires
        k <= n,
        n <= usize::MAX,
    ensures
        ante_seats(n, dealer, k).len() <= k,
        forall|a: int, b: int| 0 <= a < b < ante_seats(n, dealer, k).len()
            ==> ante_seats(n, dealer, k)[a] < ante_seats(n, dealer, k)[b],
        forall|a: int| 0 <= a < ante_seats(n, dealer, k).len() ==> {
            &&& (#[trigger] ante_seats(n, dealer, k)[a]) < k
            &&& ante_seats(n, dealer, k)[a] != big_blind_seat(n, dealer)
            &&& ante_seats(n, dealer, k)[a] != small_blind_seat(n, dealer)
        },
        forall|i: usize| (i as int) < k && i != big_blind_seat(n, dealer) && i != small_blind_seat(n, dealer)
            ==> #[trigger] ante_seats(n, dealer, k).contains(i),
    decreases k,
{
    if k > 0 {
        lemma_ante_seats(n, dealer, (k - 1) as nat);
        let prev = ante_seats(n, dealer, (k - 1) as nat);
        let cur = ante_seats(n, dealer, k);
        let i = k - 1;
        if !(i == big_blind_seat(n, dealer) || i == small_blind_seat(n, dealer)) {
            assert(cur == prev.push(i as usize));
            assert(cur[prev.len() as int] == i as usize);
            assert forall|j: usize| (j as int) < k && j != big_blind_seat(n, dealer) && j != small_blind_seat(n, dealer)
                implies #[trigger] cur.contains(j) by {
                if j < i {
                    assert(prev.contains(j));
                    let a = choose|a: int| 0 <= a < prev.len() && prev[a] == j;
                    assert(cur[a] == j);
                } else {
                    assert(cur[prev.len() as int] == j);
                }
            }
        } else {
            assert(cur == prev);
        }
    }
}

/// The player after going all in: the whole stack is put in on top of the bet.
pub open spec fn all_in_player(p: Player) -> Player {
    Player {
        chip_stack: 0,
        current_bet: (p.current_bet + p.chip_stack) as u32,
        is_all_in: true,
        has_acted: true,
        ..p
    }
}

/// The chips for action `a` can be moved without underflow or overflow.
pub open spec fn performable(p: Player, highest: u32, a: Action) -> bool {
    match a {
        Action::AllIn => p.current_bet + p.chip_stack <= u32::MAX,
        Action::Bet { value: v } => p.current_bet + v <= u32::MAX,
        Action::Call => p.current_bet <= highest,
        Action::Raise { value: v } => p.current_bet <= v,
        _ => true,
    }
}

/// The player after performing the (validated) action `a` against the bet `highest`.
pub open spec fn performed(p: Player, highest: u32, a: Action) -> Player {
    match a {
        Action::AllIn => all_in_player(p),
        Action::Bet { value: v } => Player {
            chip_stack: (p.chip_stack - v) as u32,
            current_bet: (p.current_bet + v) as u32,
            has_acted: true,
            ..p
        },
        Action::Call => Player { has_acted: true, ..p.bet_to(highest) },
        Action::Check => Player { has_acted: true, ..p },
        Action::Fold => Player { has_folded: true, has_acted: true, ..p },
        Action::Raise { value: v } => Player { has_acted: true, ..p.bet_to(v) },
    }
}

/// The bet to match after `after` performed `a`: a bet or an all-in above it becomes the
/// bet to match, a raise always does.
pub open spec fn highest_after(after: Player, highest: u32, a: Action) -> u32 {
    match a {
        Action::AllIn => if highest < after.current_bet {
            after.current_bet
        } else {
            highest
        },
        Action::Bet { .. } => if highest < after.current_bet {
            after.current_bet
        } else {
            highest
        },
        Action::Raise { value: v } => v,
        _ => highest,
    }
}

/// Betting only moves a player's chips between stack and bet: whatever action is performed,
/// the stack plus the bet is what it was.
pub proof fn lemma_performed_keeps_chips(p: Player, highest: u32, a: Action)
    requires
        performable(p, highest, a),
        a is AllIn || a is Fold || a is Check || (a is Call && p.can_bet_to(highest)) || (a matches Action::Bet { value: v } && v <= p.chip_stack)
            || (a matches Action::Raise { value: v } && p.can_bet_to(v)),
    ensures
        performed(p, highest, a).chip_stack + performed(p, highest, a).current_bet == p.chip_stack + p.current_bet,
        performed(p, highest, a).has_acted,
        performed(p, highest, a).hand == p.hand,
{
}

/// The betting order lists each seat in play exactly once, and no other seat.
pub proof fn lemma_active_order_is_seats_in_play(players: Seq<Player>, dealer: int)
    requires
        dealer >= 0,
        players.len() <= usize::MAX,
    ensures
        forall|a: int, b: int| 0 <= a < b < active_order(players, dealer).len()
            ==> active_order(players, dealer)[a] != active_order(players, dealer)[b],
        forall|i: usize| #[trigger] active_order(players, dealer).contains(i)
            <==> ((i as int) < players.len() && in_play(players[i as int])),
{
    if players.len() > 0 {
        lemma_active_seats_distinct(players, dealer, players.len());
        assert forall|i: usize| #[trigger] active_order(players, dealer).contains(i)
            <==> ((i as int) < players.len() && in_play(players[i as int])) by {
            let n = players.len() as int;
            if (i as int) < n && in_play(players[i as int]) {
                // seat i is reached after ((i - dealer) mod n) steps
                let k = ((i as int - dealer) % n + n) % n;
                vstd::arithmetic::div_mod::lemma_mod_bound(i as int - dealer, n);
                vstd::arithmetic::div_mod::lemma_mod_bound((i as int - dealer) % n + n, n);
                lemma_seat_reached(dealer, i as int, n);
                assert((dealer + k) % n == i as int);
                lemma_active_seats_contains(players, dealer, players.len(), k);
            }
        }
    }
}

/// Taking the forced bets only moves chips from stacks to bets: every seat's stack plus bet
/// is what it was.
pub proof fn lemma_forced_bets_keep_chips(g: GameView)
    requires
        forced_bets_valid(g),
    ensures
        forced_bets_posted(g).len() == g.players.len(),
        forall|i: int| 0 <= i < g.players.len() ==> (#[trigger] forced_bets_posted(g)[i]).chip_stack
            + forced_bets_posted(g)[i].current_bet == g.players[i].chip_stack + g.players[i].current_bet,
{
}

proof fn lemma_seat_reached(dealer: int, i: int, n: int)
    requires
        n > 0,
        0 <= i < n,
    ensures
        (dealer + ((i - dealer) % n + n) % n) % n == i,
{
    let k = ((i - dealer) % n + n) % n;
    vstd::arithmetic::div_mod::lemma_add_mod_noop(dealer, (i - dealer) % n + n, n);
    vstd::arithmetic::div_mod::lemma_mod_twice(i - dealer, n);
    vstd::arithmetic::div_mod::lemma_add_mod_noop(dealer, i - dealer, n);
    vstd::arithmetic::div_mod::lemma_mod_add_multiples_vanish((i - dealer) % n, n);
    vstd::arithmetic::div_mod::lemma_add_mod_noop(dealer, (i - dealer) % n, n);
    vstd::arithmetic::div_mod::lemma_small_mod(i as nat, n as nat);
    vstd::arithmetic::div_mod::lemma_mod_twice(dealer, n);
}

proof fn lemma_active_seats_contains(players: Seq<Player>, dealer: int, k: nat, step: int)
    requires
        players.len() > 0,
        players.len() <= usize::MAX,
        0 <= step < k,
        in_play(players[(dealer + step) % (players.len() as int)]),
    ensures
        active_seats(players, dealer, k).contains(((dealer + step) % (players.len() as int)) as usize),
    decreases k,
{
    let n = players.len() as int;
    let prev = active_seats(players, dealer, (k - 1) as nat);
    vstd::arithmetic::div_mod::lemma_mod_bound(dealer + step, n);
    if step < k - 1 {
        lemma_active_seats_contains(players, dealer, (k - 1) as nat, step);
        let s = ((dealer + step) % n) as usize;
        let a = choose|a: int| 0 <= a < prev.len() && prev[a] == s;
        let seat = (dealer + k - 1) % n;
        if in_play(players[seat]) {
            assert(active_seats(players, dealer, k)[a] == s);
        }
    } else {
        assert(active_seats(players, dealer, k) == prev.push(((dealer + step) % n) as usize));
        assert(active_seats(players, dealer, k)[prev.len() as int] == ((dealer + step) % n) as usize);
    }
}

proof fn lemma_active_seats_distinct(players: Seq<Player>, dealer: int, k: nat)
    requires
        players.len() > 0,
        players.len() <= usize::MAX,
        k <= players.len(),
    ensures
        forall|a: int, b: int| 0 <= a < b < active_seats(players, dealer, k).len()
            ==> active_seats(players, dealer, k)[a] != active_seats(players, dealer, k)[b],
        forall|a: int| 0 <= a < active_seats(players, dealer, k).len() ==> {
            let s = #[trigger] active_seats(players, dealer, k)[a];
            &&& (s as int) < players.len()
            &&& in_play(players[s as int])
            &&& exists|j: int| 0 <= j < k && #[trigger] clockwise(dealer, j, players.len() as int) == s
        },
    decreases k,
{
    if k > 0 {
        let n = players.len() as int;
        lemma_active_seats_distinct(players, dealer, (k - 1) as nat);
        let prev = active_seats(players, dealer, (k - 1) as nat);
        let seat = (dealer + k - 1) % n;
        vstd::arithmetic::div_mod::lemma_mod_bound(dealer + k - 1, n);
        if in_play(players[seat]) {
            let cur = prev.push(seat as usize);
            assert(active_seats(players, dealer, k) == cur);
            assert forall|a: int| 0 <= a < prev.len() implies #[trigger] prev[a] != seat as usize by {
                let s = prev[a];
                let j = choose|j: int| 0 <= j < k - 1 && #[trigger] clockwise(dealer, j, n) == s;
                lemma_distinct_offsets(dealer, j, k - 1, n);
            }
            assert forall|a: int| 0 <= a < cur.len() implies {
                let s = #[trigger] cur[a];
                &&& (s as int) < players.len()
                &&& in_play(players[s as int])
                &&& exists|j: int| 0 <= j < k && #[trigger] clockwise(dealer, j, players.len() as int) == s
            } by {
                if a < prev.len() {
                    assert(cur[a] == prev[a]);
                    let s = prev[a];
                    let j = choose|j: int| 0 <= j < k - 1 && #[trigger] clockwise(dealer, j, n) == s;
                    assert(clockwise(dealer, j, n) == cur[a]);
                } else {
                    assert(clockwise(dealer, k - 1, n) == cur[a]);
                }
            }
        } else {
            assert(active_seats(players, dealer, k) == prev);
            assert forall|a: int| 0 <= a < prev.len() implies {
                let s = #[trigger] prev[a];
                exists|j: int| 0 <= j < k && #[trigger] clockwise(dealer, j, players.len() as int) == s
            } by {
                let s = prev[a];
                let j = choose|j: int| 0 <= j < k - 1 && #[trigger] clockwise(dealer, j, n) == s;
                assert(clockwise(dealer, j, n) == s);
            }
        }
    }
}

proof fn lemma_distinct_offsets(dealer: int, j1: int, j2: int, n: int)
    requires
        n > 0,
        0 <= j1 < j2 < n,
    ensures
        (dealer + j1) % n != (dealer + j2) % n,
{
    if (dealer + j1) % n == (dealer + j2) % n {
        vstd::arithmetic::div_mod::lemma_fundamental_div_mod(dealer + j1, n);
        vstd::arithmetic::div_mod::lemma_fundamental_div_mod(dealer + j2, n);
        let q1 = (dealer + j1) / n;
        let q2 = (dealer + j2) / n;
        assert((q2 - q1) * n == j2 - j1) by (nonlinear_arith)
            requires
                dealer + j1 == n * q1 + (dealer + j1) % n,
                dealer + j2 == n * q2 + (dealer + j2) % n,
                (dealer + j1) % n == (dealer + j2) % n,
        ;
        if q2 - q1 >= 1 {
            assert((q2 - q1) * n >= n) by (nonlinear_arith)
                requires
                    q2 - q1 >= 1,
                    n > 0,
            ;
        } else {
            assert((q2 - q1) * n <= 0) by (nonlinear_arith)
                requires
                    q2 - q1 <= 0,
                    n > 0,
            ;
        }
    }
}

/// The chips for `action` of the player on seat `index` can be moved: the seat exists, the
/// action is accepted (see `Betting::validated`) and its chips fit (see `performable`).
pub open spec fn can_act(g: GameView, index: int, action: Action) -> bool {
    &&& 0 <= index < g.players.len()
    &&& g.betting.validated(action, g.players[index]) is Some
    &&& performable(g.players[index], g.betting.highest(), g.betting.validated(action, g.players[index])->0)
}

/// The table after the player on seat `index` performs what `action` amounts to: the player
/// as `performed` says, the bet to match as `highest_after` says.
pub open spec fn after_action(g: GameView, index: int, action: Action) -> GameView {
    let p = g.players[index];
    let h = g.betting.highest();
    let a = g.betting.validated(action, p)->0;
    let after = performed(p, h, a);
    GameView {
        players: g.players.update(index, after),
        betting: g.betting.with_highest(highest_after(after, h, a)),
        ..g
    }
}

/// The table once a turn ends: the betting order is rebuilt; when the betting round is over
/// every has-acted flag is cleared, else the turn moves one position on.
pub open spec fn after_turn(g: GameView) -> GameView {
    let refs = active_order(g.players, g.dealer_pos as int);
    if round_settled(g.players, refs, g.betting.highest()) {
        GameView { refs: refs, players: acted_cleared(g.players), ..g }
    } else {
        GameView { refs: refs, table_pos: next_position(g.table_pos as int, refs.len() as int) as usize, ..g }
    }
}

/// The seat whose turn comes once a turn ends, or `None` when the betting round is over.
pub open spec fn next_turn_seat(g: GameView) -> Option<u32> {
    let refs = active_order(g.players, g.dealer_pos as int);
    if round_settled(g.players, refs, g.betting.highest()) {
        None
    } else {
        Some(refs[next_position(g.table_pos as int, refs.len() as int)] as u32)
    }
}

/// The dealer's seat after the button has moved `k` times from `d` at a table of `n`
/// (see `Game::next_dealer`).
pub open spec fn dealer_after(d: int, n: int, k: nat) -> int
    decreases k,
{
    if k == 0 {
        d
    } else {
        (dealer_after(d, n, (k - 1) as nat) + 1) % n
    }
}

/// Moving the button `k` times takes it `k` seats on, round the table; after `n` moves it is
/// back with the dealer it started from.
pub proof fn lemma_button_goes_around(d: int, n: int, k: nat)
    requires
        n > 0,
        0 <= d < n,
    ensures
        dealer_after(d, n, k) == (d + k) % n,
        dealer_after(d, n, n as nat) == d,
{
    lemma_dealer_after_steps(d, n, k);
    lemma_dealer_after_steps(d, n, n as nat);
    vstd::arithmetic::div_mod::lemma_add_mod_noop_right(d, n, n);
    vstd::arithmetic::div_mod::lemma_mod_self_0(n);
    vstd::arithmetic::div_mod::lemma_small_mod(d as nat, n as nat);
}

proof fn lemma_dealer_after_steps(d: int, n: int, k: nat)
    requires
        n > 0,
        0 <= d < n,
    ensures
        dealer_after(d, n, k) == (d + k) % n,
    decreases k,
{
    if k > 0 {
        lemma_dealer_after_steps(d, n, (k - 1) as nat);
        vstd::arithmetic::div_mod::lemma_add_mod_noop_right(1, d + k - 1, n);
        assert(((d + k - 1) % n + 1) % n == (d + k) % n);
    } else {
        vstd::arithmetic::div_mod::lemma_small_mod(d as nat, n as nat);
    }
}

/// The seat whose turn it is, as `get_next_player` names it: `None` when at most one seat is
/// in play or the betting round is over.
pub open spec fn turn_seat(g: GameView) -> Option<usize> {
    let refs = active_order(g.players, g.dealer_pos as int);
    if refs.len() <= 1 || round_settled(g.players, refs, g.betting.highest()) {
        None
    } else {
        Some(refs[g.table_pos as int])
    }
}

/// The table once the next community cards are dealt, one card burnt first: three cards
/// (the flop) on an empty board, one otherwise.
pub open spec fn river_progressed(g: GameView) -> GameView {
    let d = g.deck;
    let n = d.len() as int;
    if g.river.len() == 0 {
        GameView { river: g.river + seq![d[n - 2], d[n - 3], d[n - 4]], deck: d.take(n - 4), ..g }
    } else {
        GameView { river: g.river.push(d[n - 2]), deck: d.take(n - 2), ..g }
    }
}

/// Every street burns one card before it is dealt: the card at the end of the deck is burnt,
/// and the cards dealt are the ones before it, taken from the end in turn (three on an empty
/// board, one on a board already dealt). The deck loses exactly the cards burnt and dealt,
/// and the board keeps what it held.
pub proof fn lemma_street_burns_one_card(g: GameView)
    requires
        river_dealable(g),
    ensures
        ({
            let after = river_progressed(g);
            let d = g.deck;
            let n = d.len() as int;
            &&& after.river.take(g.river.len() as int) == g.river
            &&& after.deck.len() + after.river.len() + 1 == d.len() + g.river.len()
            &&& g.river.len() == 0 ==> {
                &&& after.river == seq![d[n - 2], d[n - 3], d[n - 4]]
                &&& after.deck + seq![d[n - 4], d[n - 3], d[n - 2], d[n - 1]] == d
            }
            &&& g.river.len() > 0 ==> {
                &&& after.river.len() == g.river.len() + 1
                &&& after.river.last() == d[n - 2]
                &&& after.deck + seq![d[n - 2], d[n - 1]] == d
            }
            &&& after == (GameView { river: after.river, deck: after.deck, ..g })
        }),
{
    let after = river_progressed(g);
    let d = g.deck;
    let n = d.len() as int;
    if g.river.len() == 0 {
        assert(after.river.take(0) =~= g.river);
        assert(after.deck + seq![d[n - 4], d[n - 3], d[n - 2], d[n - 1]] =~= d);
    } else {
        assert(after.river.take(g.river.len() as int) =~= g.river);
        assert(after.deck + seq![d[n - 2], d[n - 1]] =~= d);
    }
}

/// The betting round ends only when every seat in the betting order has acted and has put in
/// exactly the bet to match, or is all in. While some seat in the order is short of the bet
/// to match (and not all in), the turn passes to a next seat, and `get_next_player` names a
/// seat to act whenever more than one seat is in play.
pub proof fn lemma_round_ends_only_when_bets_match(g: GameView)
    ensures
        ({
            let refs = active_order(g.players, g.dealer_pos as int);
            let h = g.betting.highest();
            &&& next_turn_seat(g) is None ==> forall|j: int| 0 <= j < refs.len() ==> {
                &&& (#[trigger] g.players[refs[j] as int]).has_acted
                &&& (g.players[refs[j] as int].current_bet == h || g.players[refs[j] as int].is_all_in)
            }
            &&& (exists|j: int| 0 <= j < refs.len() && (#[trigger] g.players[refs[j] as int]).current_bet != h
                && !g.players[refs[j] as int].is_all_in) ==> next_turn_seat(g) is Some
            &&& (exists|j: int| 0 <= j < refs.len() && !(#[trigger] g.players[refs[j] as int]).has_acted)
                ==> next_turn_seat(g) is Some
            &&& (refs.len() > 1 && exists|j: int| 0 <= j < refs.len() && (#[trigger] g.players[refs[j] as int]).current_bet
                != h && !g.players[refs[j] as int].is_all_in) ==> turn_seat(g) is Some
        }),
{
}

/// Performing an action never lowers the bet to match. After a bet, a raise or an all-in the
/// bet to match is the larger of what it was and the acting player's whole bet; a call brings
/// the player's bet exactly to the bet to match; a check or a fold moves no chip. A bet of `v`
/// adds `v` to the player's bet, a raise to `v` makes it `v`, an all-in puts the whole stack
/// in; chips only move between the player's stack and bet, and the player has acted. No
/// other seat changes. So when no bet was above the bet to match before an action, none is
/// after.
pub proof fn lemma_bet_to_match_covers_every_bet(g: GameView, index: int, action: Action)
    requires
        can_act(g, index, action),
    ensures
        ({
            let after = after_action(g, index, action);
            let h = g.betting.highest();
            let h2 = after.betting.highest();
            let p = g.players[index];
            let b2 = after.players[index].current_bet;
            let a = g.betting.validated(action, p)->0;
            &&& h2 >= h
            &&& (a is Bet || a is Raise || a is AllIn) ==> h2 == (if h >= b2 {
                h
            } else {
                b2
            })
            &&& a is Call ==> b2 == h && h2 == h
            &&& (a is Check || a is Fold) ==> h2 == h && after.players[index].chip_stack == p.chip_stack
                && b2 == p.current_bet
            &&& (a matches Action::Bet { value: v } ==> b2 == p.current_bet + v)
            &&& (a matches Action::Raise { value: v } ==> b2 == v)
            &&& a is AllIn ==> after.players[index].chip_stack == 0 && b2 == p.current_bet + p.chip_stack
                && after.players[index].is_all_in
            &&& a is Fold ==> after.players[index].has_folded
            &&& after.players[index].chip_stack + b2 == p.chip_stack + p.current_bet
            &&& after.players[index].has_acted
            &&& after.players.len() == g.players.len()
            &&& forall|j: int| 0 <= j < g.players.len() && j != index ==> #[trigger] after.players[j] == g.players[j]
            &&& (forall|j: int| 0 <= j < g.players.len() ==> (#[trigger] g.players[j]).current_bet <= h)
                ==> forall|j: int| 0 <= j < g.players.len() ==> (#[trigger] after.players[j]).current_bet <= h2
        }),
{
    let after = after_action(g, index, action);
    let p = g.players[index];
    let a = g.betting.validated(action, p)->0;
    Betting::lemma_with_highest(g.betting, highest_after(performed(p, g.betting.highest(), a), g.betting.highest(), a));
}

/// The deck holds the cards that `progress_river` needs.
pub open spec fn river_dealable(g: GameView) -> bool {
    g.deck.len() >= if g.river.len() == 0 {
        4int
    } else {
        2int
    }
}

/// `after` is `before` once every player has drawn two cards from the end of the deck, seat 0
/// first.
pub open spec fn cards_dealt(before: GameView, after: GameView) -> bool {
    let d = before.deck;
    let n = before.players.len();
    &&& after == (GameView { players: after.players, deck: d.take(d.len() - 2 * n), ..before })
    &&& after.players.len() == n
    &&& forall|i: int| 0 <= i < n ==> {
        &&& (#[trigger] after.players[i]).hand@ == before.players[i].hand@ + seq![d[d.len() - 1 - 2 * i], d[d.len() - 2 - 2 * i]]
        &&& after.players[i] == (Player { hand: after.players[i].hand, ..before.players[i] })
    }
}

proof fn lemma_seat_offset(dealer: int, num: int, n: int)
    requires
        n > 0,
        dealer >= 0,
        0 <= num < n,
    ensures
        (dealer + num) % n == if num < n - dealer % n {
            dealer % n + num
        } else {
            num - (n - dealer % n)
        },
{
    let r = dealer % n;
    vstd::arithmetic::div_mod::lemma_add_mod_noop(dealer, num, n);
    vstd::arithmetic::div_mod::lemma_small_mod(num as nat, n as nat);
    vstd::arithmetic::div_mod::lemma_mod_bound(dealer, n);
    if num < n - r {
        vstd::arithmetic::div_mod::lemma_small_mod((r + num) as nat, n as nat);
    } else {
        vstd::arithmetic::div_mod::lemma_mod_add_multiples_vanish(r + num - n, n);
        vstd::arithmetic::div_mod::lemma_small_mod((r + num - n) as nat, n as nat);
    }
}

proof fn lemma_active_seats_in_range(players: Seq<Player>, dealer: int, k: nat)
    requires
        players.len() > 0,
    ensures
        forall|j: int| 0 <= j < active_seats(players, dealer, k).len()
            ==> (#[trigger] active_seats(players, dealer, k)[j]) < players.len(),
        active_seats(players, dealer, k).len() <= k,
    decreases k,
{
    if k > 0 {
        lemma_active_seats_in_range(players, dealer, (k - 1) as nat);
        let seat = (dealer + k - 1) % (players.len() as int);
        vstd::arithmetic::div_mod::lemma_mod_bound(dealer + k - 1, players.len() as int);
    }
}

/// Every seat in the betting order is a seat at the table.
pub proof fn lemma_active_order_in_range(players: Seq<Player>, dealer: int)
    ensures
        forall|j: int| 0 <= j < active_order(players, dealer).len()
            ==> (#[trigger] active_order(players, dealer)[j]) < players.len(),
        active_order(players, dealer).len() <= players.len(),
{
    if players.len() > 0 {
        lemma_active_seats_in_range(players, dealer, players.len());
    }
}

/// Whether every entry of `v` equals `x`.
fn all_equal_to(v: &Vec<u32>, x: u32) -> (b: bool)
    ensures
        b == (forall|a: int| 0 <= a < v@.len() ==> #[trigger] v@[a] == x),
{
    let m = v.len();
    let mut all_same = true;
    for i in 0..m
        invariant
            m == v@.len(),
            all_same == (forall|a: int| 0 <= a < i ==> #[trigger] v@[a] == x),
    {
        if v[i] != x {
            all_same = false;
        }
    }
    all_same
}

impl Game {
    /// A table of `players` with the given betting state, the dealer on seat 0 and a fresh deck.
    fn with_betting(players: Vec<Player>, betting: Betting) -> (g: Game)
        ensures
            g@ == (GameView {
                players: players@,
                refs: Seq::empty(),
                table_pos: 0,
                dealer_pos: 0,
                betting: betting,
                river: Seq::empty(),
                deck: standard_deck(),
                has_gone_around: false,
            }),
    {
        Game {
            all_players: players,
            player_reference_vector: Vec::new(),
            table_pos: 0,
            dealer_pos: 0,
            betting_handler: betting,
            river: Vec::new(),
            deck: Deck::new(),
            has_gone_around: false,
        }
    }

    /// Rebuilds the betting order and returns it.
    pub fn get_current_players(&mut self) -> (r: &Vec<usize>)
        ensures
            final(self)@ == (GameView {
                refs: active_order(old(self)@.players, old(self)@.dealer_pos as int),
                ..old(self)@
            }),
            r@ == final(self)@.refs,
    {
        self.create_player_reference_vec();
        &self.player_reference_vector
    }

    /// The player on seat `index`.
    pub fn get_player(&self, index: usize) -> (p: &Player)
        requires
            index < self@.players.len(),
        ensures
            *p == self@.players[index as int],
    {
        &self.all_players[index]
    }

    /// Whether every seat in the betting order has acted and matched the highest bet.
    fn betting_round_settled(&self) -> (b: bool)
        requires
            forall|j: int| 0 <= j < self@.refs.len() ==> (#[trigger] self@.refs[j]) < self@.players.len(),
        ensures
            b == round_settled(self@.players, self@.refs, self@.betting.highest()),
    {
        let n = self.player_reference_vector.len();
        let highest = self.betting_handler.get_highest_bet();
        let mut acted = true;
        let mut matched = true;
        for j in 0..n
            invariant
                n == self@.refs.len(),
                highest == self@.betting.highest(),
                forall|k: int| 0 <= k < self@.refs.len() ==> (#[trigger] self@.refs[k]) < self@.players.len(),
                acted == all_acted(self@.players, self@.refs.take(j as int)),
                matched == all_matched(self@.players, self@.refs.take(j as int), highest),
        {
            let p = &self.all_players[self.player_reference_vector[j]];
            let ghost refs = self@.refs;
            assert(refs.take(j + 1) == refs.take(j as int).push(refs[j as int]));
            proof {
                let t = refs.take(j as int);
                let t1 = refs.take(j + 1);
                if acted && p.has_acted {
                    assert forall|k: int| 0 <= k < t1.len() implies (#[trigger] self@.players[t1[k] as int]).has_acted by {
                        if k < j {
                            assert(t1[k] == t[k]);
                        }
                    }
                }
                if !p.has_acted {
                    assert(t1[j as int] == refs[j as int]);
                }
                if !acted {
                    let k = choose|k: int| 0 <= k < t.len() && !(#[trigger] self@.players[t[k] as int]).has_acted;
                    assert(t1[k] == t[k]);
                }
                if matched && (p.current_bet == highest || p.is_all_in) {
                    assert forall|k: int| 0 <= k < t1.len() implies (#[trigger] self@.players[t1[k] as int]).current_bet == highest
                        || self@.players[t1[k] as int].is_all_in by {
                        if k < j {
                            assert(t1[k] == t[k]);
                        }
                    }
                }
                if !(p.current_bet == highest || p.is_all_in) {
                    assert(t1[j as int] == refs[j as int]);
                }
                if !matched {
                    let k = choose|k: int| 0 <= k < t.len() && !((#[trigger] self@.players[t[k] as int]).current_bet == highest
                        || self@.players[t[k] as int].is_all_in);
                    assert(t1[k] == t[k]);
                }
            }
            acted = acted && p.has_acted;
            matched = matched && (p.current_bet == highest || p.is_all_in);
        }
        assert(self@.refs.take(n as int) == self@.refs);
        acted && matched
    }

    /// Ends the turn: `Err` when the betting round is over (then every has-acted flag is
    /// cleared), else `Ok` with the seat of the next player in the betting order.
    pub fn go_next_player(&mut self) -> (r: Result<u32, String>)
        ensures
            final(self)@ == after_turn(old(self)@),
            match r {
                Ok(seat) => next_turn_seat(old(self)@) == Some(seat),
                Err(e) => next_turn_seat(old(self)@) is None && e@ == "Move on."@,
            },
    {
        self.create_player_reference_vec();
        proof {
            lemma_active_order_in_range(self@.players, self@.dealer_pos as int);
        }
        if self.betting_round_settled() {
            self.reset_has_acted();
            Err("Move on.".to_owned())
        } else {
            let len = self.player_reference_vector.len();
            proof {
                lemma_next_position(self.table_pos as int, len as int);
            }
            self.table_pos = (self.table_pos % len + 1) % len;
            Ok(self.player_reference_vector[self.table_pos] as u32)
        }
    }

    /// Whose turn it is: `Err` when at most one seat is still in play, or when the betting
    /// round is over; else `Ok` with the seat at the current position of the betting order.
    pub fn get_next_player(&mut self) -> (r: Result<u32, String>)
        requires
            ({
                let refs = active_order(old(self)@.players, old(self)@.dealer_pos as int);
                refs.len() > 1 && !round_settled(old(self)@.players, refs, old(self)@.betting.highest())
                    ==> old(self)@.table_pos < refs.len()
            }),
        ensures
            ({
                let refs = active_order(old(self)@.players, old(self)@.dealer_pos as int);
                &&& final(self)@ == (GameView { refs: refs, ..old(self)@ })
                &&& if refs.len() <= 1 {
                    r matches Err(e) && e@ == "All other players probs folded."@
                } else if round_settled(old(self)@.players, refs, old(self)@.betting.highest()) {
                    r matches Err(e) && e@ == "Move on."@
                } else {
                    r == Ok::<u32, String>(refs[old(self)@.table_pos as int] as u32)
                }
            }),
            match turn_seat(old(self)@) {
                Some(s) => r == Ok::<u32, String>(s as u32),
                None => r is Err,
            },
    {
        self.create_player_reference_vec();
        proof {
            lemma_active_order_in_range(self@.players, self@.dealer_pos as int);
        }
        if self.player_reference_vector.len() <= 1 {
            return Err("All other players probs folded.".to_owned());
        }
        if self.betting_round_settled() {
            Err("Move on.".to_owned())
        } else {
            Ok(self.player_reference_vector[self.table_pos] as u32)
        }
    }

    /// Sets `f` back on every seat.
    fn reset_all(&mut self, f: ResetField)
        ensures
            final(self)@ == (GameView { players: all_reset(old(self)@.players, f), ..old(self)@ }),
    {
        let n = self.all_players.len();
        let ghost before = self@;
        for i in 0..n
            invariant
                n == before.players.len(),
                self@ == (GameView { players: self@.players, ..before }),
                self@.players.len() == n,
                forall|j: int| 0 <= j < i ==> #[trigger] self@.players[j] == before.players[j].with_reset(f),
                forall|j: int| i <= j < n ==> #[trigger] self@.players[j] == before.players[j],
        {
            self.all_players[i].reset(f);
        }
        assert(self@.players =~= all_reset(before.players, f));
    }

    /// Clears every player's has-acted flag.
    pub fn reset_has_acted(&mut self)
        ensures
            final(self)@ == (GameView { players: acted_cleared(old(self)@.players), ..old(self)@ }),
    {
        self.reset_all(ResetField::HasActed);
    }

    /// Sets every player's bet back to zero.
    pub fn clear_bets(&mut self)
        ensures
            final(self)@ == (GameView { players: bets_cleared(old(self)@.players), ..old(self)@ }),
    {
        self.reset_all(ResetField::Bet);
    }

    /// Takes every player's cards away.
    pub fn clear_hands(&mut self)
        ensures
            final(self)@ == (GameView { players: final(self)@.players, ..old(self)@ }),
            final(self)@.players.len() == old(self)@.players.len(),
            forall|i: int| 0 <= i < old(self)@.players.len() ==> {
                &&& (#[trigger] final(self)@.players[i]).hand@ == Seq::<Card>::empty()
                &&& final(self)@.players[i] == (Player { hand: final(self)@.players[i].hand, ..old(self)@.players[i] })
            },
    {
        let n = self.all_players.len();
        let ghost before = self@;
        for i in 0..n
            invariant
                n == before.players.len(),
                self@ == (GameView { players: self@.players, ..before }),
                self@.players.len() == n,
                forall|j: int| 0 <= j < i ==> {
                    &&& (#[trigger] self@.players[j]).hand@ == Seq::<Card>::empty()
                    &&& self@.players[j] == (Player { hand: self@.players[j].hand, ..before.players[j] })
                },
                forall|j: int| i <= j < n ==> #[trigger] self@.players[j] == before.players[j],
        {
            self.all_players[i].clear_hand();
        }
    }

    /// The community cards.
    pub fn get_river(&self) -> (v: Vec<Card>)
        ensures
            v@ == self@.river,
    {
        let mut v: Vec<Card> = Vec::new();
        let n = self.river.len();
        for i in 0..n
            invariant
                n == self@.river.len(),
                v@ == self@.river.take(i as int),
        {
            v.push(self.river[i]);
            assert(self@.river.take(i + 1) == self@.river.take(i as int).push(self@.river[i as int]));
        }
        assert(self@.river.take(n as int) == self@.river);
        v
    }

    /// The community card placed last, if any.
    pub fn get_placed_card(&self) -> (c: Option<Card>)
        ensures
            c == if self@.river.len() == 0 {
                None
            } else {
                Some(self@.river.last())
            },
    {
        if self.river.len() == 0 {
            None
        } else {
            Some(self.river[self.river.len() - 1])
        }
    }

    /// Takes the community cards away.
    pub fn reset_river(&mut self)
        ensures
            final(self)@ == (GameView { river: Seq::empty(), ..old(self)@ }),
    {
        self.river = Vec::new();
    }

    /// Deals the next community cards, burning one card first: three (the flop) on an empty
    /// board, one (the turn, the river) otherwise.
    pub fn progress_river(&mut self)
        requires
            river_dealable(old(self)@),
        ensures
            final(self)@ == river_progressed(old(self)@),
    {
        let ghost d = self.deck@;
        let ghost r = self.river@;
        let river_len = self.river.len();
        if river_len == 0 {
            self.deck.deal_card();
            let c1 = self.deck.deal_card();
            self.river.push(c1);
            let c2 = self.deck.deal_card();
            self.river.push(c2);
            let c3 = self.deck.deal_card();
            self.river.push(c3);
            assert(self.deck@ =~= d.take(d.len() - 4));
            assert(self.river@ =~= r + seq![d[d.len() - 2], d[d.len() - 3], d[d.len() - 4]]);
        } else if river_len == 3 {
            self.deck.deal_card();
            let c = self.deck.deal_card();
            self.river.push(c);
            assert(self.deck@ =~= d.take(d.len() - 2));
            assert(self.river@ =~= r.push(d[d.len() - 2]));
        } else {
            self.deck.deal_card();
            let c = self.deck.deal_card();
            self.river.push(c);
            assert(self.deck@ =~= d.take(d.len() - 2));
            assert(self.river@ =~= r.push(d[d.len() - 2]));
        }
    }

    /// The dealer's seat.
    pub fn get_current_dealer(&self) -> (d: usize)
        ensures
            d == self@.dealer_pos,
    {
        self.dealer_pos
    }

    /// The current position in the betting order.
    pub fn get_table_pos(&self) -> (t: usize)
        ensures
            t == self@.table_pos,
    {
        self.table_pos
    }

    /// The seat `steps` seats clockwise from `start` at a table of `n`.
    fn seat_after(start: usize, steps: usize, n: usize) -> (s: usize)
        requires
            n > 0,
        ensures
            s == (start + steps) % (n as int),
    {
        let mut s = start % n;
        let mut j: usize = 0;
        while j < steps
            invariant
                n > 0,
                j <= steps,
                s == (start + j) % (n as int),
            decreases steps - j,
        {
            proof {
                lemma_next_position(start + j, n as int);
                vstd::arithmetic::div_mod::lemma_mod_bound(start + j, n as int);
                if s + 1 == n {
                    vstd::arithmetic::div_mod::lemma_mod_self_0(n as int);
                } else {
                    vstd::arithmetic::div_mod::lemma_small_mod((s + 1) as nat, n as nat);
                }
            }
            s = if s + 1 == n {
                0
            } else {
                s + 1
            };
            j = j + 1;
        }
        s
    }

    /// Moves the dealer button one seat on (see `dealer_after` and
    /// `lemma_button_goes_around`).
    pub fn next_dealer(&mut self)
        requires
            old(self)@.players.len() > 0,
        ensures
            final(self)@ == (GameView {
                dealer_pos: ((old(self)@.dealer_pos + 1) % (old(self)@.players.len() as int)) as usize,
                ..old(self)@
            }),
            final(self)@.dealer_pos == dealer_after(
                old(self)@.dealer_pos as int,
                old(self)@.players.len() as int,
                1,
            ),
    {
        self.dealer_pos = Self::seat_after(self.dealer_pos, 1, self.all_players.len());
        proof {
            reveal_with_fuel(dealer_after, 2);
        }
    }

    /// Deals two cards to each player in seat order, from the end of the deck.
    pub fn deal_cards(&mut self)
        requires
            old(self)@.deck.len() >= 2 * old(self)@.players.len(),
        ensures
            cards_dealt(old(self)@, final(self)@),
    {
        let n = self.all_players.len();
        let ghost before = self@;
        let ghost d = self.deck@;
        for i in 0..n
            invariant
                n == before.players.len(),
                d == before.deck,
                d.len() >= 2 * n,
                self@ == (GameView { players: self@.players, deck: self@.deck, ..before }),
                self@.players.len() == n,
                self@.deck == d.take(d.len() - 2 * i),
                forall|j: int| 0 <= j < i ==> {
                    &&& (#[trigger] self@.players[j]).hand@ == before.players[j].hand@
                        + seq![d[d.len() - 1 - 2 * j], d[d.len() - 2 - 2 * j]]
                    &&& self@.players[j] == (Player { hand: self@.players[j].hand, ..before.players[j] })
                },
                forall|j: int| i <= j < n ==> #[trigger] self@.players[j] == before.players[j],
        {
            let c1 = self.deck.deal_card();
            self.all_players[i].draw_card(c1);
            let c2 = self.deck.deal_card();
            self.all_players[i].draw_card(c2);
            assert(self@.deck =~= d.take(d.len() - 2 * (i + 1)));
            assert(self@.players[i as int].hand@ =~= before.players[i as int].hand@
                + seq![d[d.len() - 1 - 2 * i], d[d.len() - 2 - 2 * i]]);
        }
    }

    /// The big blind's seat: two seats after the dealer.
    pub fn get_big_blind_player(&self) -> (s: usize)
        requires
            self@.players.len() > 0,
        ensures
            s == big_blind_seat(self@.players.len(), self@.dealer_pos as int),
    {
        Self::seat_after(self.dealer_pos, 2, self.all_players.len())
    }

    /// The small blind's seat: one seat after the dealer.
    pub fn get_small_blind_player(&self) -> (s: usize)
        requires
            self@.players.len() > 0,
        ensures
            s == small_blind_seat(self@.players.len(), self@.dealer_pos as int),
    {
        Self::seat_after(self.dealer_pos, 1, self.all_players.len())
    }

    /// The seats that pay the ante: every seat but the two blinds, in seat order.
    pub fn get_ante_players(&self) -> (v: Vec<usize>)
        requires
            self@.players.len() > 0,
        ensures
            v@ == ante_seats(self@.players.len(), self@.dealer_pos as int, self@.players.len()),
    {
        let len = self.all_players.len();
        let mut return_vec: Vec<usize> = Vec::new();
        let small_blind_pos = Self::seat_after(self.dealer_pos, 2, len);
        let big_blind_pos = Self::seat_after(self.dealer_pos, 1, len);
        for i in 0..len
            invariant
                len == self@.players.len(),
                small_blind_pos == big_blind_seat(len as nat, self@.dealer_pos as int),
                big_blind_pos == small_blind_seat(len as nat, self@.dealer_pos as int),
                return_vec@ == ante_seats(len as nat, self@.dealer_pos as int, i as nat),
        {
            if !(i == small_blind_pos || i == big_blind_pos) {
                return_vec.push(i);
            }
        }
        return_vec
    }

    /// Takes the forced bets: the big blind, then the small blind, then the ante from every
    /// other seat; the big blind becomes the bet to match. A player whom a forced bet brings
    /// to zero chips or below puts in what it has and is marked all in (see
    /// `Player::pay_forced`).
    pub fn collect_ante_blind(&mut self)
        requires
            forced_bets_valid(old(self)@),
        ensures
            final(self)@ == (GameView {
                players: forced_bets_posted(old(self)@),
                betting: old(self)@.betting.with_highest(old(self)@.betting.big()),
                ..old(self)@
            }),
    {
        let ghost g = self@;
        let n = self.all_players.len();
        let big_blind_pos: usize = self.get_big_blind_player();
        let small_blind_pos: usize = self.get_small_blind_player();
        let big = self.betting_handler.get_big_blind();
        self.all_players[big_blind_pos].pay_forced_bet(big);
        let small = self.betting_handler.get_small_blind();
        self.all_players[small_blind_pos].pay_forced_bet(small);
        assert(self@.players == blinds_posted(g));
        let ante_players = self.get_ante_players();
        let ante = self.betting_handler.get_ante();
        let m = ante_players.len();
        proof {
            lemma_ante_seats(g.players.len(), g.dealer_pos as int, g.players.len());
        }
        for k in 0..m
            invariant
                n == g.players.len(),
                m == ante_players@.len(),
                ante == g.betting.ante_amount(),
                forced_bets_valid(g),
                ante_players@ == ante_seats(g.players.len(), g.dealer_pos as int, g.players.len()),
                forall|a: int, b: int| 0 <= a < b < m ==> ante_players@[a] < ante_players@[b],
                forall|a: int| 0 <= a < m ==> {
                    &&& (#[trigger] ante_players@[a]) < g.players.len()
                    &&& ante_players@[a] != big_blind_seat(g.players.len(), g.dealer_pos as int)
                    &&& ante_players@[a] != small_blind_seat(g.players.len(), g.dealer_pos as int)
                },
                forall|i: usize| (i as int) < g.players.len() && i != big_blind_seat(g.players.len(), g.dealer_pos as int)
                    && i != small_blind_seat(g.players.len(), g.dealer_pos as int)
                    ==> #[trigger] ante_players@.contains(i),
                self@ == (GameView { players: self@.players, ..g }),
                self@.players.len() == g.players.len(),
                forall|i: int| 0 <= i < g.players.len() ==> #[trigger] self@.players[i] == if (exists|a: int| 0 <= a < k && ante_players@[a] == i) {
                    g.players[i].pay_forced(ante)
                } else {
                    blinds_posted(g)[i]
                },
        {
            let seat = ante_players[k];
            proof {
                assert(self@.players[seat as int] == blinds_posted(g)[seat as int]) by {
                    if exists|a: int| 0 <= a < k && ante_players@[a] == seat {
                        let a = choose|a: int| 0 <= a < k && ante_players@[a] == seat;
                        assert(ante_players@[a] < ante_players@[k as int]);
                    }
                }
                assert(g.players[seat as int].current_bet <= ante);
            }
            self.all_players[seat].pay_forced_bet(ante);
            assert forall|i: int| 0 <= i < g.players.len() implies #[trigger] self@.players[i] == if (exists|a: int| 0 <= a < k + 1 && ante_players@[a] == i) {
                g.players[i].pay_forced(ante)
            } else {
                blinds_posted(g)[i]
            } by {
                if i == seat {
                    assert(ante_players@[k as int] == i);
                } else {
                    if exists|a: int| 0 <= a < k + 1 && ante_players@[a] == i {
                        let a = choose|a: int| 0 <= a < k + 1 && ante_players@[a] == i;
                        assert(a != k);
                    }
                }
            }
        }
        let big = self.betting_handler.get_big_blind();
        self.betting_handler.set_highest_bet(big);
        assert forall|i: int| 0 <= i < g.players.len() implies #[trigger] self@.players[i] == forced_bets_posted(g)[i] by {
            if i != big_blind_seat(g.players.len(), g.dealer_pos as int) && i != small_blind_seat(g.players.len(), g.dealer_pos as int) {
                assert(ante_players@.contains(i as usize));
                let a = choose|a: int| 0 <= a < m && ante_players@[a] == i as usize;
                assert(ante_players@[a] == i);
            } else {
                if exists|a: int| 0 <= a < m && ante_players@[a] == i {
                    let a = choose|a: int| 0 <= a < m && ante_players@[a] == i;
                }
            }
        }
        assert(self@.players =~= forced_bets_posted(g));
    }

    /// What `action` amounts to for `player`: see `Betting::validate_action`.
    pub fn validate_player_action(&self, action: Action, player: Player) -> (r: Result<Action, String>)
        ensures
            match r {
                Ok(a) => self@.betting.validated(action, player) == Some(a),
                Err(e) => self@.betting.validated(action, player) is None && e@ == refusal_message(action),
            },
    {
        self.betting_handler.validate_action(action, &player)
    }

    /// Whether `action` stands as chosen for `player`: it is neither refused nor turned into
    /// another action (such as all in).
    pub fn accepts_action(&self, action: Action, player: &Player) -> (b: bool)
        ensures
            b == (self@.betting.validated(action, *player) == Some(action)),
    {
        match self.betting_handler.validate_action(action, player) {
            Ok(a) => a == action,
            Err(_) => false,
        }
    }

    /// The seat at position `dealer - 1 % len` of the betting order (`%` binds first, so this
    /// is the dealer's own position when one seat is in play, else the position before it).
    pub fn get_first_player(&self) -> (s: usize)
        requires
            self@.refs.len() > 0,
            self@.dealer_pos >= 1int % (self@.refs.len() as int),
            self@.dealer_pos - 1int % (self@.refs.len() as int) < self@.refs.len(),
        ensures
            s == self@.refs[self@.dealer_pos - 1int % (self@.refs.len() as int)],
    {
        self.player_reference_vector[self.get_current_dealer() - 1 % self.player_reference_vector.len()]
    }

    /// Performs the action of the player on seat `index`: what `action` amounts to (see
    /// `Betting::validated`) is done, the player has then acted, and the bet to match is
    /// updated (see `highest_after`); returns what was done. A refused action changes nothing
    /// and is answered with the reason it is refused.
    pub fn execute_player_action(&mut self, index: usize, action: Action) -> (r: Result<Action, String>)
        requires
            index < old(self)@.players.len(),
            old(self)@.betting.validated(action, old(self)@.players[index as int]) is Some ==> can_act(
                old(self)@,
                index as int,
                action,
            ),
        ensures
            match old(self)@.betting.validated(action, old(self)@.players[index as int]) {
                Some(a) => final(self)@ == after_action(old(self)@, index as int, action) && r == Ok::<Action, String>(a),
                None => final(self)@ == old(self)@ && (r matches Err(e) && e@ == refusal_message(action)),
            },
    {
        proof {
            broadcast use Betting::lemma_with_highest;

            Betting::lemma_with_highest(self@.betting, self@.betting.highest());
        }
        let ghost g = self@;
        let validation_result = match self.betting_handler.validate_action(action, &self.all_players[index]) {
            Ok(a) => a,
            Err(e) => {
                return Err(e);
            },
        };
        let r = if validation_result == action {
            match action {
                Action::AllIn => {
                    *self.all_players[index].mut_is_all_in() = true;
                    let everything = self.all_players[index].get_bet() + self.all_players[index].get_chips();
                    self.all_players[index].increase_bet_to(everything);
                    if self.betting_handler.get_highest_bet() < self.all_players[index].get_bet() {
                        let b = self.all_players[index].get_bet();
                        self.betting_handler.set_highest_bet(b);
                    }
                    self.all_players[index].has_acted = true;
                    self.all_players[index].is_all_in = true;
                    Ok(Action::AllIn)
                },
                Action::Bet { value: v } => {
                    self.all_players[index].make_bet(v);
                    if self.betting_handler.get_highest_bet() < self.all_players[index].get_bet() {
                        let b = self.all_players[index].get_bet();
                        self.betting_handler.set_highest_bet(b);
                    }
                    self.all_players[index].has_acted = true;
                    Ok(Action::Bet { value: v })
                },
                Action::Call => {
                    let h = self.betting_handler.get_highest_bet();
                    self.all_players[index].increase_bet_to(h);
                    self.all_players[index].has_acted = true;
                    Ok(Action::Call)
                },
                Action::Check => {
                    self.all_players[index].has_acted = true;
                    Ok(Action::Check)
                },
                Action::Fold => {
                    self.all_players[index].fold();
                    self.all_players[index].has_acted = true;
                    Ok(Action::Fold)
                },
                Action::Raise { value: v } => {
                    self.all_players[index].increase_bet_to(v);
                    self.all_players[index].has_acted = true;
                    let b = self.all_players[index].get_bet();
                    self.betting_handler.set_highest_bet(b);
                    Ok(Action::Raise { value: v })
                },
            }
        } else if validation_result == Action::AllIn {
            let everything = self.all_players[index].current_bet + self.all_players[index].chip_stack;
            self.all_players[index].increase_bet_to(everything);
            if self.betting_handler.get_highest_bet() < self.all_players[index].get_bet() {
                let b = self.all_players[index].get_bet();
                self.betting_handler.set_highest_bet(b);
            }
            self.all_players[index].has_acted = true;
            self.all_players[index].is_all_in = true;
            Ok(Action::AllIn)
        } else {
            Err("Invalid option".to_owned())
        };
        proof {
            let p = g.players[index as int];
            let a = g.betting.validated(action, p)->0;
            let after = performed(p, g.betting.highest(), a);
            assert(self@.players =~= g.players.update(index as int, after));
        }
        r
    }

    /// The winners of the showdown (see `winning_seats`).
    pub fn get_winning_players(&mut self) -> (w: Vec<usize>)
        ensures
            final(self)@ == old(self)@,
            w@ == winning_seats(old(self)@.players),
    {
        let ghost players = self@.players;
        let n = self.all_players.len();
        let k = self.unfolded_players();
        proof {
            lemma_unfolded_count_bound(players);
        }
        if k == 0 {
            return Vec::new();
        }
        let mut best = self.all_players[0].get_hand().determine_hand();
        let mut winning_players: Vec<usize> = Vec::new();
        for index in 0..k
            invariant
                0 < k <= n,
                n == players.len(),
                k == unfolded_count(players),
                self@.players == players,
                best.score == best_score(players, index as nat),
                winning_players@ == seats_scoring(players, best.score as nat, index as nat),
        {
            let new_hand_type = self.all_players[index].get_hand().determine_hand();
            assert(new_hand_type.score == seat_score(players, index as int));
            if new_hand_type.score < best.score {
            } else if new_hand_type.score == best.score {
                winning_players.push(index);
            } else {
                proof {
                    lemma_best_score_bound(players, index as nat);
                    lemma_seats_scoring_none(players, new_hand_type.score as nat, index as nat);
                }
                winning_players = Vec::new();
                winning_players.push(index);
                best = new_hand_type;
            }
        }
        winning_players
    }

    /// The bets of the given seats, in the same order.
    fn bets_of_seats(&self, seats: &Vec<usize>) -> (v: Vec<u32>)
        requires
            forall|a: int| 0 <= a < seats@.len() ==> (#[trigger] seats@[a]) < self@.players.len(),
        ensures
            v@ == bets_of(self@.players, seats@),
    {
        let m = seats.len();
        let mut v: Vec<u32> = Vec::new();
        for i in 0..m
            invariant
                m == seats@.len(),
                forall|a: int| 0 <= a < seats@.len() ==> (#[trigger] seats@[a]) < self@.players.len(),
                v@ == bets_of(self@.players, seats@).take(i as int),
        {
            v.push(self.all_players[seats[i]].current_bet);
            assert(v@ =~= bets_of(self@.players, seats@).take(i + 1));
        }
        assert(bets_of(self@.players, seats@).take(m as int) == bets_of(self@.players, seats@));
        v
    }

    /// Pays out the showdown (see `winnings`) and clears every bet. No player collects more
    /// than its own bet from each player at the table (see `lemma_winnings_bounded_by_stake`).
    pub fn distribute_winnings(&mut self)
        requires
            unfolded_count(old(self)@.players) > 0,
            showdown_in_range(old(self)@.players),
            forall|q: int| 0 <= q < old(self)@.players.len() ==> (#[trigger] old(self)@.players[q]).chip_stack
                + winnings(old(self)@.players, q) <= u32::MAX,
        ensures
            final(self)@ == (GameView { players: final(self)@.players, ..old(self)@ }),
            final(self)@.players.len() == old(self)@.players.len(),
            forall|q: int| 0 <= q < old(self)@.players.len() ==> #[trigger] final(self)@.players[q] == (Player {
                chip_stack: (old(self)@.players[q].chip_stack + winnings(old(self)@.players, q)) as u32,
                current_bet: 0,
                ..old(self)@.players[q]
            }),
            forall|q: int| 0 <= q < old(self)@.players.len() ==> (#[trigger] final(self)@.players[q]).chip_stack
                <= old(self)@.players[q].chip_stack + old(self)@.players.len() * old(self)@.players[q].current_bet,
    {
        let ghost before = self@.players;
        assert(before.len() == self.all_players.len());
        let gains = self.showdown_gains();
        self.add_to_stacks(&gains);
        self.clear_bets();
        proof {
            assert forall|q: int| 0 <= q < before.len() implies winnings(before, q) <= before.len()
                * before[q].current_bet by {
                lemma_winnings_bounded_by_stake(before, q);
            }
        }
    }

    /// Clears every player's folded flag.
    pub fn reset_folded(&mut self)
        ensures
            final(self)@ == (GameView { players: folds_cleared(old(self)@.players), ..old(self)@ }),
    {
        self.reset_all(ResetField::HasFolded);
    }

    /// Clears every player's all-in flag.
    pub fn reset_all_in(&mut self)
        ensures
            final(self)@ == (GameView { players: all_ins_cleared(old(self)@.players), ..old(self)@ }),
    {
        self.reset_all(ResetField::AllIn);
    }

    /// Rebuilds the betting order and tells whether the betting round is over.
    pub fn is_round_settled(&mut self) -> (b: bool)
        ensures
            final(self)@ == (GameView {
                refs: active_order(old(self)@.players, old(self)@.dealer_pos as int),
                ..old(self)@
            }),
            b == round_settled(final(self)@.players, final(self)@.refs, final(self)@.betting.highest()),
    {
        self.create_player_reference_vec();
        proof {
            lemma_active_order_in_range(self@.players, self@.dealer_pos as int);
        }
        self.betting_round_settled()
    }

    /// Number of players who have not folded.
    pub fn unfolded_players(&self) -> (k: usize)
        ensures
            k == unfolded_count(self@.players),
    {
        let ghost players = self@.players;
        let n = self.all_players.len();
        let mut k: usize = 0;
        for i in 0..n
            invariant
                n == players.len(),
                self@.players == players,
                k == unfolded_count(players.take(i as int)),
                k <= i,
        {
            assert(players.take(i + 1).drop_last() == players.take(i as int));
            if !self.all_players[i].has_folded {
                k = k + 1;
            }
        }
        assert(players.take(n as int) == players);
        k
    }

    /// Whether `collect_ante_blind` can take every forced bet (see `forced_bets_valid`).
    pub fn can_collect_forced_bets(&self) -> (b: bool)
        ensures
            b == forced_bets_valid(self@),
    {
        let n = self.all_players.len();
        if n == 0 {
            return false;
        }
        let bb = self.get_big_blind_player();
        let sb = self.get_small_blind_player();
        let big = self.betting_handler.get_big_blind();
        let small = self.betting_handler.get_small_blind();
        let ante = self.betting_handler.get_ante();
        let p = &self.all_players[bb];
        if p.current_bet > big {
            return false;
        }
        let ghost g = self@;
        let ghost p1 = g.players.update(bb as int, g.players[bb as int].pay_forced(big));
        let sb_bet = if sb == bb {
            if big - p.current_bet >= p.chip_stack {
                p.current_bet + p.chip_stack
            } else {
                big
            }
        } else {
            self.all_players[sb].current_bet
        };
        assert(sb_bet == p1[sb as int].current_bet);
        if sb_bet > small {
            return false;
        }
        let mut ok = true;
        for i in 0..n
            invariant
                n == g.players.len(),
                self@ == g,
                bb == big_blind_seat(n as nat, g.dealer_pos as int),
                sb == small_blind_seat(n as nat, g.dealer_pos as int),
                ante == g.betting.ante_amount(),
                ok == forall|j: int| 0 <= j < i && j != bb && j != sb ==> (#[trigger] g.players[j]).current_bet <= ante,
        {
            if i != bb && i != sb {
                if self.all_players[i].current_bet > ante {
                    ok = false;
                }
            }
        }
        ok
    }

    /// Whether `execute_player_action(index, action)` may be called: the seat exists, the
    /// action is accepted and its chips can be moved.
    pub fn can_execute(&self, index: usize, action: Action) -> (b: bool)
        ensures
            b == can_act(self@, index as int, action),
    {
        if index >= self.all_players.len() {
            return false;
        }
        let p = &self.all_players[index];
        let highest = self.betting_handler.get_highest_bet();
        match self.betting_handler.validate_action(action, p) {
            Err(_) => false,
            Ok(a) => match a {
                Action::AllIn => p.current_bet <= u32::MAX - p.chip_stack,
                Action::Bet { value: v } => p.current_bet <= u32::MAX - v,
                Action::Call => p.current_bet <= highest,
                Action::Raise { value: v } => p.current_bet <= v,
                _ => true,
            },
        }
    }

    /// Rebuilds the betting order: every seat in play, clockwise from the dealer.
    pub fn create_player_reference_vec(&mut self)
        ensures
            final(self)@ == (GameView {
                refs: active_order(old(self)@.players, old(self)@.dealer_pos as int),
                ..old(self)@
            }),
    {
        self.player_reference_vector.clear();
        let n = self.all_players.len();
        if n == 0 {
            return ;
        }
        let d = self.dealer_pos % n;
        let ghost players = self.all_players@;
        let ghost dealer = self.dealer_pos as int;
        let ghost before = self@;
        for num in 0..n
            invariant
                self@ == (GameView { refs: self@.refs, ..before }),
                before.players == players,
                n == players.len(),
                n > 0,
                d == dealer % (n as int),
                self.all_players@ == players,
                self.dealer_pos == dealer,
                self.player_reference_vector@ == active_seats(players, dealer, num as nat),
        {
            let player_index = if num < n - d {
                d + num
            } else {
                num - (n - d)
            };
            proof {
                lemma_seat_offset(dealer, num as int, n as int);
            }
            if !self.all_players[player_index].has_folded && !self.all_players[player_index].is_all_in {
                self.player_reference_vector.push(player_index);
            }
        }
    }
}

impl Clone for Game {
    /// A copy of the table: the same seats (each player copied, cards included), the same
    /// betting order, positions, board and deck, and a copy of the betting state.
    fn clone(&self) -> (g: Game)
        ensures
            g@.players.len() == self@.players.len(),
            forall|i: int| 0 <= i < self@.players.len() ==> {
                &&& (#[trigger] g@.players[i]).hand@ == self@.players[i].hand@
                &&& g@.players[i] == (Player { hand: g@.players[i].hand, ..self@.players[i] })
            },
            g@.betting == (Betting { pot: g@.betting.pot, ..self@.betting }),
            g@.betting.pots().chips() == self@.betting.pots().chips(),
            g@.betting.pots().side_pot_list() == self@.betting.pots().side_pot_list(),
            g@ == (GameView { players: g@.players, betting: g@.betting, ..self@ }),
    {
        let n = self.all_players.len();
        let mut players: Vec<Player> = Vec::new();
        for i in 0..n
            invariant
                n == self@.players.len(),
                players@.len() == i,
                forall|j: int| 0 <= j < i ==> {
                    &&& (#[trigger] players@[j]).hand@ == self@.players[j].hand@
                    &&& players@[j] == (Player { hand: players@[j].hand, ..self@.players[j] })
                },
        {
            players.push(self.all_players[i].clone());
        }
        let refs = self.player_reference_vector.clone();
        let river = self.river.clone();
        assert(refs@ =~= self@.refs);
        assert(river@ =~= self@.river);
        Game {
            all_players: players,
            player_reference_vector: refs,
            table_pos: self.table_pos,
            dealer_pos: self.dealer_pos,
            betting_handler: self.betting_handler.clone(),
            river: river,
            deck: self.deck.clone(),
            has_gone_around: self.has_gone_around,
        }
    }
}

impl Default for Game {
    /// Five players of 2000 chips each, blinds of 10 and 20, an ante of 5.
    fn default() -> (g: Game)
        ensures
            g@.players.len() == 5,
            forall|i: int| 0 <= i < 5 ==> {
                &&& (#[trigger] g@.players[i]).hand@ == Seq::<Card>::empty()
                &&& !g@.players[i].has_folded
                &&& !g@.players[i].is_all_in
                &&& g@.players[i].chip_stack == 2000
                &&& g@.players[i].current_bet == 0
                &&& !g@.players[i].has_acted
            },
            g@.refs == Seq::<usize>::empty(),
            g@.table_pos == 0,
            g@.dealer_pos == 0,
            g@.betting.small() == 10,
            g@.betting.big() == 20,
            g@.betting.ante_amount() == 5,
            g@.betting.highest() == 0,
            g@.betting.pots().chips() == 0,
            g@.river == Seq::<Card>::empty(),
            g@.deck == standard_deck(),
            !g@.has_gone_around,
    {
        let mut players: Vec<Player> = Vec::new();
        for i in 0..5usize
            invariant
                players@.len() == i,
                forall|j: int| 0 <= j < i ==> {
                    &&& (#[trigger] players@[j]).hand@ == Seq::<Card>::empty()
                    &&& !players@[j].has_folded
                    &&& !players@[j].is_all_in
                    &&& players@[j].chip_stack == 2000
                    &&& players@[j].current_bet == 0
                    &&& !players@[j].has_acted
                },
        {
            players.push(Player::default());
        }
        Game::with_betting(players, Betting::default())
    }
}

impl From<Vec<Player>> for Game {
    /// A table of `value`, with the default forced bets.
    fn from(value: Vec<Player>) -> (g: Game)
        ensures
            g@.players == value@,
            g@.refs == Seq::<usize>::empty(),
            g@.table_pos == 0,
            g@.dealer_pos == 0,
            g@.betting.small() == 10,
            g@.betting.big() == 20,
            g@.betting.ante_amount() == 5,
            g@.betting.highest() == 0,
            g@.betting.pots().chips() == 0,
            g@.river == Seq::<Card>::empty(),
            g@.deck == standard_deck(),
            !g@.has_gone_around,
    {
        Game::with_betting(value, Betting::default())
    }
}

impl vstd::std_specs::convert::FromSpecImpl<Vec<Player>> for Game {
    open spec fn obeys_from_spec() -> bool {
        false
    }

    open spec fn from_spec(v: Vec<Player>) -> Game {
        vstd::pervasive::arbitrary()
    }
}

impl From<(Vec<Player>, u32, u32, u32)> for Game {
    /// A table of `value.0` with small blind `value.1`, big blind `value.2` and ante `value.3`.
    fn from(value: (Vec<Player>, u32, u32, u32)) -> (g: Game)
        ensures
            g@.players == value.0@,
            g@.refs == Seq::<usize>::empty(),
            g@.table_pos == 0,
            g@.dealer_pos == 0,
            g@.betting.small() == value.1,
            g@.betting.big() == value.2,
            g@.betting.ante_amount() == value.3,
            g@.betting.highest() == 0,
            g@.betting.pots().chips() == 0,
            g@.river == Seq::<Card>::empty(),
            g@.deck == standard_deck(),
            !g@.has_gone_around,
    {
        let (players, small_blind, big_blind, ante) = value;
        Game::with_betting(players, Betting::new(small_blind, big_blind, ante))
    }
}

impl vstd::std_specs::convert::FromSpecImpl<(Vec<Player>, u32, u32, u32)> for Game {
    open spec fn obeys_from_spec() -> bool {
        false
    }

    open spec fn from_spec(v: (Vec<Player>, u32, u32, u32)) -> Game {
        vstd::pervasive::arbitrary()
    }
}

} // verus!
