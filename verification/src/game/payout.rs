//! Settling the showdown: what each seat collects, computed once, then added to the stacks.
use vstd::prelude::*;

use crate::entities::player::Player;
use crate::game::showdown::{
    bets_of, best_score, count_invested, count_sharing, lemma_count_sharing,
    lemma_increasing_seats_len, lemma_seats_scoring, lemma_shortfall_bound, lemma_side_gain_step,
    lemma_unfolded_count_bound, lemma_winners_hold_best_hand, level_pot, level_share, level_start,
    main_pot, nondecreasing, prev_level, refund, seats_scoring, shortfall, showdown_in_range,
    side_gain, split_pots, unfolded_count, winning_bet, winning_seats, winnings,
};
use crate::game::{all_equal_to, Game, GameView};

verus! {

/// `gains` with `share` more for each winner whose bet reaches `amt`.
pub open spec fn gains_after_level(
    players: Seq<Player>,
    winners: Seq<usize>,
    gains: Seq<u64>,
    amt: u32,
    share: nat,
    q: int,
) -> int {
    gains[q] + if winners.contains(q as usize) && amt <= players[q].current_bet {
        share as int
    } else {
        0
    }
}

/// Taking one more seat of a strictly increasing list adds that seat and no other.
proof fn lemma_take_next(w: Seq<usize>, i: int)
    requires
        0 <= i < w.len(),
        forall|a: int, b: int| 0 <= a < b < w.len() ==> w[a] < w[b],
    ensures
        w.take(i + 1) == w.take(i).push(w[i]),
        !w.take(i).contains(w[i]),
        w.take(i + 1).contains(w[i]),
        w.contains(w[i]),
        forall|q: usize| q != w[i] ==> (#[trigger] w.take(i + 1).contains(q) <==> w.take(i).contains(q)),
{
    let t0 = w.take(i);
    let t1 = w.take(i + 1);
    assert(t1 == t0.push(w[i]));
    if t0.contains(w[i]) {
        let a = choose|a: int| 0 <= a < t0.len() && t0[a] == w[i];
        assert(w[a] < w[i]);
    }
    assert(t1[i] == w[i]);
    assert forall|q: usize| q != w[i] implies (#[trigger] t1.contains(q) <==> t0.contains(q)) by {
        if t1.contains(q) {
            let a = choose|a: int| 0 <= a < t1.len() && t1[a] == q;
            assert(t0[a] == q);
        }
        if t0.contains(q) {
            let a = choose|a: int| 0 <= a < t0.len() && t0[a] == q;
            assert(t1[a] == q);
        }
    }
}

/// Adds `share` to the gain of each winner whose bet reaches `amt`.
fn add_level_gains(gains: &mut Vec<u64>, players: &Vec<Player>, winners: &Vec<usize>, bets: &Vec<u32>, amt: u32, share: u64)
    requires
        old(gains)@.len() == players@.len(),
        forall|a: int, b: int| 0 <= a < b < winners@.len() ==> winners@[a] < winners@[b],
        forall|a: int| 0 <= a < winners@.len() ==> (#[trigger] winners@[a]) < players@.len(),
        bets@ == bets_of(players@, winners@),
        forall|q: int| 0 <= q < players@.len() ==> (#[trigger] old(gains)@[q]) + share <= u64::MAX,
    ensures
        final(gains)@.len() == old(gains)@.len(),
        forall|q: int| 0 <= q < players@.len() ==> #[trigger] final(gains)@[q] == gains_after_level(
            players@,
            winners@,
            old(gains)@,
            amt,
            share as nat,
            q,
        ),
{
    let ghost g0 = gains@;
    let ghost w = winners@;
    let n = players.len();
    let m = winners.len();
    for i in 0..m
        invariant
            n == players@.len(),
            m == w.len(),
            w == winners@,
            bets@ == bets_of(players@, w),
            g0.len() == n,
            gains@.len() == n,
            forall|a: int, b: int| 0 <= a < b < w.len() ==> w[a] < w[b],
            forall|a: int| 0 <= a < w.len() ==> (#[trigger] w[a]) < n,
            forall|q: int| 0 <= q < n ==> (#[trigger] g0[q]) + share <= u64::MAX,
            forall|q: int| 0 <= q < n ==> #[trigger] gains@[q] == g0[q] + if w.take(i as int).contains(q as usize)
                && amt <= players@[q].current_bet {
                share as int
            } else {
                0
            },
    {
        proof {
            lemma_take_next(w, i as int);
            assert(bets@[i as int] == players@[w[i as int] as int].current_bet);
        }
        if bets[i] >= amt {
            let seat = winners[i];
            let cur = gains[seat];
            gains.set(seat, cur + share);
        }
    }
    assert(w.take(m as int) == w);
}

impl Game {
    /// Number of players still in who bet at least `amt`.
    fn count_invested_players(&self, amt: u32) -> (c: usize)
        ensures
            c == count_invested(self@.players, amt, self@.players.len()),
            c <= self@.players.len(),
    {
        let n = self.all_players.len();
        let mut invested: usize = 0;
        for q in 0..n
            invariant
                n == self@.players.len(),
                invested == count_invested(self@.players, amt, q as nat),
                invested <= q,
        {
            if self.all_players[q].current_bet >= amt && !self.all_players[q].has_folded {
                invested = invested + 1;
            }
        }
        invested
    }

    /// Number of bets in `bets` that reach `amt`.
    fn count_sharing_bets(bets: &Vec<u32>, amt: u32) -> (c: usize)
        ensures
            c == count_sharing(bets@, amt, bets@.len()),
            c <= bets@.len(),
    {
        let m = bets.len();
        let mut sharing: usize = 0;
        for i in 0..m
            invariant
                m == bets@.len(),
                sharing == count_sharing(bets@, amt, i as nat),
                sharing <= i,
        {
            if bets[i] >= amt {
                sharing = sharing + 1;
            }
        }
        sharing
    }

    /// The winners of the showdown and their bets.
    pub(crate) fn winners_and_bets(&mut self) -> (r: (Vec<usize>, Vec<u32>))
        requires
            unfolded_count(old(self)@.players) > 0,
        ensures
            final(self)@ == old(self)@,
            r.0@ == winning_seats(old(self)@.players),
            r.1@ == bets_of(old(self)@.players, r.0@),
            r.0@.len() > 0,
            forall|a: int, b: int| 0 <= a < b < r.0@.len() ==> r.0@[a] < r.0@[b],
            forall|a: int| 0 <= a < r.0@.len() ==> (#[trigger] r.0@[a]) < old(self)@.players.len(),
    {
        let ghost p0 = self@.players;
        let n = self.all_players.len();
        let winners = self.get_winning_players();
        let ghost w = winners@;
        proof {
            let k = unfolded_count(p0);
            lemma_winners_hold_best_hand(p0);
            lemma_unfolded_count_bound(p0);
            assert(w == seats_scoring(p0, best_score(p0, k), k));
            lemma_seats_scoring(p0, best_score(p0, k), k);
        }
        let bets = self.bets_of_seats(&winners);
        (winners, bets)
    }

    /// Whether the arithmetic of the showdown stays in range: see `showdown_in_range`.
    pub(crate) fn showdown_arithmetic_in_range(&self, winners: &Vec<usize>, bets: &Vec<u32>) -> (b: bool)
        requires
            winners@ == winning_seats(self@.players),
            bets@ == bets_of(self@.players, winners@),
            winners@.len() > 0,
            forall|a: int, b: int| 0 <= a < b < winners@.len() ==> winners@[a] < winners@[b],
            forall|a: int| 0 <= a < winners@.len() ==> (#[trigger] winners@[a]) < self@.players.len(),
        ensures
            b == showdown_in_range(self@.players),
    {
        let ghost p0 = self@.players;
        let ghost bs = bets@;
        let n = self.all_players.len();
        let m = bets.len();
        let first = bets[0];
        if m > 1 && !all_equal_to(bets, first) {
            assert(split_pots(bs));
            if n as u64 > 0xFFFF_FFFFu64 {
                return false;
            }
            let mut i: usize = 1;
            while i < m
                invariant
                    1 <= i,
                    m == bs.len(),
                    bs == bets@,
                    n == p0.len(),
                    n <= u32::MAX,
                    self@.players == p0,
                    winners@ == winning_seats(p0),
                    bs == bets_of(p0, winners@),
                    split_pots(bs),
                    forall|a: int, b: int| 0 <= a <= b < i && b < m ==> #[trigger] bs[a] <= #[trigger] bs[b],
                decreases m - i,
            {
                if bets[i - 1] > bets[i] {
                    assert(!nondecreasing(bs)) by {
                        assert(bs[i - 1] > bs[i as int]);
                    }
                    return false;
                }
                i = i + 1;
            }
            assert(nondecreasing(bs));
            let mut previous_bet: u32 = 0;
            for j in 0..m
                invariant
                    n == p0.len(),
                    n <= u32::MAX,
                    m == bs.len(),
                    bs == bets@,
                    self@.players == p0,
                    winners@ == winning_seats(p0),
                    bs == bets_of(p0, winners@),
                    split_pots(bs),
                    nondecreasing(bs),
                    previous_bet == prev_level(bs, j as int),
                    forall|jj: int| 0 <= jj < j && level_start(bs, jj) ==> #[trigger] level_pot(p0, bs, jj) <= u32::MAX,
            {
                let amt = bets[j];
                if amt != previous_bet {
                    proof {
                        if j > 0 {
                            assert(bs[j - 1] <= bs[j as int]);
                        }
                    }
                    let invested = self.count_invested_players(amt);
                    assert(((amt - previous_bet) as u64) * (invested as u64) <= 0xFFFF_FFFFu64 * 0xFFFF_FFFFu64) by (nonlinear_arith)
                        requires
                            (amt - previous_bet) as u64 <= 0xFFFF_FFFFu64,
                            invested as u64 <= 0xFFFF_FFFFu64,
                    ;
                    let pot: u64 = ((amt - previous_bet) as u64) * (invested as u64);
                    if pot > 0xFFFF_FFFFu64 {
                        assert(level_start(bs, j as int) && level_pot(p0, bs, j as int) > u32::MAX);
                        return false;
                    }
                }
                previous_bet = amt;
            }
            true
        } else {
            assert(!split_pots(bs));
            let b = first;
            assert(b == winning_bet(p0));
            assert((n as u128) * (b as u128) <= 0xFFFF_FFFF_FFFF_FFFFu128 * 0xFFFF_FFFFu128) by (nonlinear_arith)
                requires
                    n <= 0xFFFF_FFFF_FFFF_FFFFu128,
                    b <= 0xFFFF_FFFFu128,
            ;
            if (n as u128) * (b as u128) > isize::MAX as u128 {
                return false;
            }
            let mut ok = true;
            for q in 0..n
                invariant
                    n == p0.len(),
                    self@.players == p0,
                    winners@ == winning_seats(p0),
                    bs == bets_of(p0, winners@),
                    !split_pots(bs),
                    n * winning_bet(p0) <= isize::MAX,
                    ok == forall|a: int| 0 <= a < q ==> (#[trigger] p0[a]).current_bet <= isize::MAX,
            {
                if self.all_players[q].current_bet as u128 > isize::MAX as u128 {
                    ok = false;
                }
            }
            ok
        }
    }

    /// What each seat collects from split pots: see `side_gain`.
    fn side_pot_gains(&self, winners: &Vec<usize>, bets: &Vec<u32>) -> (gains: Vec<u64>)
        requires
            self@.players.len() <= u32::MAX,
            forall|a: int, b: int| 0 <= a < b < winners@.len() ==> winners@[a] < winners@[b],
            forall|a: int| 0 <= a < winners@.len() ==> (#[trigger] winners@[a]) < self@.players.len(),
            bets@ == bets_of(self@.players, winners@),
            nondecreasing(bets@),
            forall|j: int| 0 <= j < bets@.len() && level_start(bets@, j) ==> #[trigger] level_pot(self@.players, bets@, j) <= u32::MAX,
        ensures
            gains@.len() == self@.players.len(),
            forall|q: int| 0 <= q < self@.players.len() ==> #[trigger] gains@[q] == side_gain(
                self@.players,
                winners@,
                bets@,
                q,
                bets@.len(),
            ),
    {
        let ghost p0 = self@.players;
        let ghost w = winners@;
        let ghost bs = bets@;
        let n = self.all_players.len();
        let m = bets.len();
        proof {
            lemma_increasing_seats_len(w, n as nat);
        }
        let mut gains: Vec<u64> = Vec::new();
        for q in 0..n
            invariant
                gains@.len() == q,
                forall|a: int| 0 <= a < q ==> #[trigger] gains@[a] == 0,
        {
            gains.push(0);
        }
        let mut previous_bet: u32 = 0;
        for j in 0..m
            invariant
                n == p0.len(),
                n <= u32::MAX,
                m <= n,
                m == bs.len(),
                m == w.len(),
                bs == bets@,
                w == winners@,
                self@.players == p0,
                forall|a: int, b: int| 0 <= a < b < w.len() ==> w[a] < w[b],
                forall|a: int| 0 <= a < w.len() ==> (#[trigger] w[a]) < n,
                bs == bets_of(p0, w),
                nondecreasing(bs),
                forall|jj: int| 0 <= jj < bs.len() && level_start(bs, jj) ==> #[trigger] level_pot(p0, bs, jj) <= u32::MAX,
                previous_bet == prev_level(bs, j as int),
                gains@.len() == n,
                forall|q: int| 0 <= q < n ==> #[trigger] gains@[q] == side_gain(p0, w, bs, q, j as nat),
                forall|q: int| 0 <= q < n ==> #[trigger] gains@[q] <= j * 0xFFFF_FFFFu64,
        {
            let amt = bets[j];
            if amt != previous_bet {
                proof {
                    if j > 0 {
                        assert(bs[j - 1] <= bs[j as int]);
                    }
                    lemma_count_sharing(bs, amt, m as nat, j as int);
                }
                let invested = self.count_invested_players(amt);
                let sharing = Self::count_sharing_bets(bets, amt);
                assert(level_pot(p0, bs, j as int) <= u32::MAX);
                assert(level_pot(p0, bs, j as int) == (amt - previous_bet) * invested);
                let pot = (amt - previous_bet) * (invested as u32);
                let share = pot / (sharing as u32);
                assert(share == level_share(p0, bs, j as int));
                proof {
                    assert forall|q: int| 0 <= q < n implies (#[trigger] gains@[q]) + share <= u64::MAX by {
                        assert(gains@[q] + share <= (j + 1) * 0xFFFF_FFFFu64) by (nonlinear_arith)
                            requires
                                gains@[q] <= j * 0xFFFF_FFFFu64,
                                share <= 0xFFFF_FFFFu64,
                        ;
                        assert((j + 1) * 0xFFFF_FFFFu64 <= 0xFFFF_FFFFu64 * 0xFFFF_FFFFu64) by (nonlinear_arith)
                            requires
                                j + 1 <= 0xFFFF_FFFFu64,
                        ;
                    }
                }
                let ghost before = gains@;
                add_level_gains(&mut gains, &self.all_players, winners, bets, amt, share as u64);
                proof {
                    assert forall|q: int| 0 <= q < n implies #[trigger] gains@[q] == side_gain(p0, w, bs, q, (j + 1) as nat) by {
                        lemma_side_gain_step(p0, w, bs, q, j as nat);
                        assert(gains@[q] == gains_after_level(p0, w, before, amt, share as nat, q));
                    }
                    assert forall|q: int| 0 <= q < n implies #[trigger] gains@[q] <= (j + 1) * 0xFFFF_FFFFu64 by {
                        assert(gains@[q] == gains_after_level(p0, w, before, amt, share as nat, q));
                        assert(before[q] + share <= (j + 1) * 0xFFFF_FFFFu64) by (nonlinear_arith)
                            requires
                                before[q] <= j * 0xFFFF_FFFFu64,
                                share <= 0xFFFF_FFFFu64,
                        ;
                    }
                }
            } else {
                proof {
                    assert forall|q: int| 0 <= q < n implies #[trigger] gains@[q] == side_gain(p0, w, bs, q, (j + 1) as nat) by {
                        lemma_side_gain_step(p0, w, bs, q, j as nat);
                    }
                    assert forall|q: int| 0 <= q < n implies #[trigger] gains@[q] <= (j + 1) * 0xFFFF_FFFFu64 by {
                        assert(j * 0xFFFF_FFFFu64 <= (j + 1) * 0xFFFF_FFFFu64) by (nonlinear_arith);
                    }
                }
            }
            previous_bet = amt;
        }
        gains
    }

    /// What each seat collects from a single pot won by seat `w0` with bet `b`: its bet beyond
    /// `b` back, and for `w0` every bet up to `b` (cut to 32 bits).
    fn main_pot_gains(&self, w0: usize, b: u32) -> (gains: Vec<u64>)
        requires
            w0 < self@.players.len(),
            self@.players.len() * b <= isize::MAX,
        ensures
            gains@.len() == self@.players.len(),
            forall|q: int| 0 <= q < self@.players.len() ==> #[trigger] gains@[q] == refund(self@.players[q], b) + if q == w0 {
                (main_pot(self@.players, b) as u32) as int
            } else {
                0
            },
    {
        let ghost p0 = self@.players;
        let n = self.all_players.len();
        let full: u64 = (n as u64) * (b as u64);
        let mut short: u64 = 0;
        for q in 0..n
            invariant
                n == p0.len(),
                self@.players == p0,
                full == n * b,
                full <= isize::MAX,
                short == shortfall(p0, b, q as nat),
        {
            proof {
                lemma_shortfall_bound(p0, b, (q + 1) as nat);
                assert((q + 1) * b <= n * b) by (nonlinear_arith)
                    requires
                        q + 1 <= n,
                ;
            }
            let bet = self.all_players[q].current_bet;
            if bet < b {
                short = short + (b - bet) as u64;
            }
        }
        proof {
            lemma_shortfall_bound(p0, b, n as nat);
        }
        let pot: u64 = full - short;
        assert(pot == main_pot(p0, b));
        let earnings = pot as u32;
        let mut gains: Vec<u64> = Vec::new();
        for q in 0..n
            invariant
                n == p0.len(),
                self@.players == p0,
                w0 < n,
                earnings == (main_pot(p0, b) as u32),
                gains@.len() == q,
                forall|a: int| 0 <= a < q ==> #[trigger] gains@[a] == refund(p0[a], b) + if a == w0 {
                    (main_pot(p0, b) as u32) as int
                } else {
                    0
                },
        {
            let bet = self.all_players[q].current_bet;
            let back: u64 = if bet > b { (bet - b) as u64 } else { 0 };
            let extra: u64 = if q == w0 { earnings as u64 } else { 0 };
            gains.push(back + extra);
        }
        gains
    }

    /// What each seat collects at the showdown: see `winnings`.
    pub(crate) fn showdown_gains(&mut self) -> (gains: Vec<u64>)
        requires
            unfolded_count(old(self)@.players) > 0,
            showdown_in_range(old(self)@.players),
        ensures
            final(self)@ == old(self)@,
            gains@.len() == old(self)@.players.len(),
            forall|q: int| 0 <= q < old(self)@.players.len() ==> #[trigger] gains@[q] == winnings(old(self)@.players, q),
    {
        let ghost p0 = self@.players;
        let (winners, bets) = self.winners_and_bets();
        let ghost w = winners@;
        let ghost bs = bets@;
        let n = self.all_players.len();
        let m = bets.len();
        let first = bets[0];
        if m > 1 && !all_equal_to(&bets, first) {
            assert(split_pots(bs));
            let gains = self.side_pot_gains(&winners, &bets);
            assert forall|q: int| 0 <= q < n implies #[trigger] gains@[q] == winnings(p0, q) by {
                assert(gains@[q] == side_gain(p0, w, bs, q, m as nat));
            }
            gains
        } else {
            assert(!split_pots(bs));
            assert(first == winning_bet(p0));
            let gains = self.main_pot_gains(winners[0], first);
            assert forall|q: int| 0 <= q < n implies #[trigger] gains@[q] == winnings(p0, q) by {
            }
            gains
        }
    }

    /// Adds `gains` to the stacks.
    pub(crate) fn add_to_stacks(&mut self, gains: &Vec<u64>)
        requires
            gains@.len() == old(self)@.players.len(),
            forall|q: int| 0 <= q < old(self)@.players.len() ==> (#[trigger] old(self)@.players[q]).chip_stack + gains@[q] <= u32::MAX,
        ensures
            final(self)@ == (GameView { players: final(self)@.players, ..old(self)@ }),
            final(self)@.players.len() == old(self)@.players.len(),
            forall|q: int| 0 <= q < old(self)@.players.len() ==> #[trigger] final(self)@.players[q] == (Player {
                chip_stack: (old(self)@.players[q].chip_stack + gains@[q]) as u32,
                ..old(self)@.players[q]
            }),
    {
        let ghost g = self@;
        let n = self.all_players.len();
        for q in 0..n
            invariant
                n == g.players.len(),
                gains@.len() == n,
                forall|a: int| 0 <= a < n ==> (#[trigger] g.players[a]).chip_stack + gains@[a] <= u32::MAX,
                self@ == (GameView { players: self@.players, ..g }),
                self@.players.len() == n,
                forall|a: int| 0 <= a < q ==> #[trigger] self@.players[a] == (Player {
                    chip_stack: (g.players[a].chip_stack + gains@[a]) as u32,
                    ..g.players[a]
                }),
                forall|a: int| q <= a < n ==> #[trigger] self@.players[a] == g.players[a],
        {
            let chips = self.all_players[q].chip_stack;
            self.all_players[q].chip_stack = chips + gains[q] as u32;
        }
    }
}

} // verus!
