//! Who wins a hand and what each player collects.
use vstd::prelude::*;

use crate::entities::hand::hand_score;
use crate::entities::player::Player;

verus! {

/// Number of players who have not folded.
pub open spec fn unfolded_count(players: Seq<Player>) -> nat
    decreases players.len(),
{
    if players.len() == 0 {
        0
    } else {
        unfolded_count(players.drop_last()) + if !players.last().has_folded {
            1nat
        } else {
            0nat
        }
    }
}

/// The score of the cards on seat `i`.
pub open spec fn seat_score(players: Seq<Player>, i: int) -> nat {
    hand_score(players[i].hand@)
}

/// The best score among the first `k` seats (seat 0's score when `k` is at most 1).
pub open spec fn best_score(players: Seq<Player>, k: nat) -> nat
    decreases k,
{
    if k <= 1 {
        seat_score(players, 0)
    } else {
        let m = best_score(players, (k - 1) as nat);
        let s = seat_score(players, k - 1);
        if s > m {
            s
        } else {
            m
        }
    }
}

/// The seats below `j` whose score is `best`, in seat order.
pub open spec fn seats_scoring(players: Seq<Player>, best: nat, j: nat) -> Seq<usize>
    decreases j,
{
    if j == 0 {
        Seq::empty()
    } else {
        let prev = seats_scoring(players, best, (j - 1) as nat);
        if seat_score(players, j - 1) == best {
            prev.push((j - 1) as usize)
        } else {
            prev
        }
    }
}

/// The winners of the showdown. With `k` players not folded, the contenders are seats
/// `0..k` (the first `k` seats, whether folded or not), and the winners are those of them
/// holding the best score, in seat order.
pub open spec fn winning_seats(players: Seq<Player>) -> Seq<usize> {
    let k = unfolded_count(players);
    if k == 0 {
        Seq::empty()
    } else {
        seats_scoring(players, best_score(players, k), k)
    }
}

/// The bets of the seats in `seats`, in the same order.
pub open spec fn bets_of(players: Seq<Player>, seats: Seq<usize>) -> Seq<u32> {
    Seq::new(seats.len(), |i: int| players[seats[i] as int].current_bet)
}

/// Several winners with different bets: the pot is split level by level.
pub open spec fn split_pots(bets: Seq<u32>) -> bool {
    bets.len() > 1 && exists|i: int| 0 <= i < bets.len() && #[trigger] bets[i] != bets[0]
}

/// The bets never decrease from one winner to the next.
pub open spec fn nondecreasing(bets: Seq<u32>) -> bool {
    forall|a: int, b: int| 0 <= a <= b < bets.len() ==> #[trigger] bets[a] <= #[trigger] bets[b]
}

/// Number of players among the first `q` who have not folded and bet at least `v`.
pub open spec fn count_invested(players: Seq<Player>, v: u32, q: nat) -> nat
    decreases q,
{
    if q == 0 {
        0
    } else {
        count_invested(players, v, (q - 1) as nat) + if players[q - 1].current_bet >= v
            && !players[q - 1].has_folded {
            1nat
        } else {
            0nat
        }
    }
}

/// Number of bets among the first `i` that are at least `v`.
pub open spec fn count_sharing(bets: Seq<u32>, v: u32, i: nat) -> nat
    decreases i,
{
    if i == 0 {
        0
    } else {
        count_sharing(bets, v, (i - 1) as nat) + if bets[i - 1] >= v {
            1nat
        } else {
            0nat
        }
    }
}

/// The level below the `j`-th winner's bet: the bet before it, or zero for the first.
pub open spec fn prev_level(bets: Seq<u32>, j: int) -> u32 {
    if j == 0 {
        0
    } else {
        bets[j - 1]
    }
}

/// The `j`-th winner's bet opens a new level of the pot.
pub open spec fn level_start(bets: Seq<u32>, j: int) -> bool {
    bets[j] != prev_level(bets, j)
}

/// The chips of the level opened by the `j`-th winner: the height of the level times the
/// players still in who bet at least its top.
pub open spec fn level_pot(players: Seq<Player>, bets: Seq<u32>, j: int) -> int {
    (bets[j] - prev_level(bets, j)) * count_invested(players, bets[j], players.len())
}

/// What each winner sharing the level opened by the `j`-th winner gets: the level's chips
/// divided (rounding down) among the winners whose bet reaches its top.
pub open spec fn level_share(players: Seq<Player>, bets: Seq<u32>, j: int) -> nat {
    (level_pot(players, bets, j) as nat) / count_sharing(bets, bets[j], bets.len())
}

/// What a winner whose bet is `bet` collects from the levels opened among the first `j`
/// winners: its share of every level whose top its bet reaches.
pub open spec fn side_pot_payout(players: Seq<Player>, bets: Seq<u32>, bet: u32, j: nat) -> nat
    decreases j,
{
    if j == 0 {
        0
    } else {
        side_pot_payout(players, bets, bet, (j - 1) as nat) + if level_start(bets, j - 1) && bets[j - 1] <= bet {
            level_share(players, bets, j - 1)
        } else {
            0nat
        }
    }
}

/// What a player bet beyond `level`.
pub open spec fn refund(p: Player, level: u32) -> nat {
    if p.current_bet > level {
        (p.current_bet - level) as nat
    } else {
        0
    }
}

/// How far the bets of the first `q` players fall short of `level`, in total.
pub open spec fn shortfall(players: Seq<Player>, level: u32, q: nat) -> nat
    decreases q,
{
    if q == 0 {
        0
    } else {
        shortfall(players, level, (q - 1) as nat) + if players[q - 1].current_bet < level {
            (level - players[q - 1].current_bet) as nat
        } else {
            0nat
        }
    }
}

/// The single pot: `level` from every seat, less what the short bets fell short by; that is,
/// every seat's bet up to `level`.
pub open spec fn main_pot(players: Seq<Player>, level: u32) -> int {
    players.len() * level - shortfall(players, level, players.len())
}

/// The bet of the first winner.
pub open spec fn winning_bet(players: Seq<Player>) -> u32 {
    players[winning_seats(players)[0] as int].current_bet
}

/// What seat `q` collects at the showdown. With split pots, each winner collects its share of
/// every level it matched (see `side_pot_payout`). Otherwise every seat gets back what it bet
/// beyond the winners' bet, and the first winner takes every bet up to its own (cut to 32
/// bits): no winner collects more than its bet from each player.
pub open spec fn winnings(players: Seq<Player>, q: int) -> nat {
    let w = winning_seats(players);
    let bets = bets_of(players, w);
    if split_pots(bets) {
        if w.contains(q as usize) {
            side_pot_payout(players, bets, players[q].current_bet, bets.len())
        } else {
            0
        }
    } else {
        refund(players[q], winning_bet(players)) + if q == w[0] {
            (main_pot(players, winning_bet(players)) as u32) as nat
        } else {
            0nat
        }
    }
}

/// The arithmetic of the showdown stays within the machine's integers: with split pots the
/// counts and every level fit in 32 bits and the bets rise from winner to winner (the levels
/// are taken in that order); otherwise the bets and the pot fit in an `isize`.
pub open spec fn showdown_in_range(players: Seq<Player>) -> bool {
    let w = winning_seats(players);
    let bets = bets_of(players, w);
    if split_pots(bets) {
        &&& players.len() <= u32::MAX
        &&& nondecreasing(bets)
        &&& forall|j: int| 0 <= j < bets.len() && level_start(bets, j) ==> #[trigger] level_pot(players, bets, j) <= u32::MAX
    } else {
        &&& players.len() * winning_bet(players) <= isize::MAX
        &&& forall|q: int| 0 <= q < players.len() ==> (#[trigger] players[q]).current_bet <= isize::MAX
    }
}

/// No more players are unfolded than there are players.
pub proof fn lemma_unfolded_count_bound(players: Seq<Player>)
    ensures
        unfolded_count(players) <= players.len(),
    decreases players.len(),
{
    if players.len() > 0 {
        lemma_unfolded_count_bound(players.drop_last());
    }
}

/// Every seat below `k` scores at most `best_score(players, k)`.
pub proof fn lemma_best_score_bound(players: Seq<Player>, k: nat)
    ensures
        forall|j: int| 0 <= j < k ==> #[trigger] seat_score(players, j) <= best_score(players, k),
    decreases k,
{
    if k > 1 {
        lemma_best_score_bound(players, (k - 1) as nat);
    }
}

/// `best_score(players, k)` is the score of some seat below `k` (seat 0 when `k` is 0).
pub proof fn lemma_best_score_attained(players: Seq<Player>, k: nat)
    ensures
        exists|j: int| 0 <= j < (if k == 0 { 1 } else { k }) && #[trigger] seat_score(players, j) == best_score(players, k),
    decreases k,
{
    if k <= 1 {
        assert(seat_score(players, 0) == best_score(players, k));
    } else {
        lemma_best_score_attained(players, (k - 1) as nat);
        let s = seat_score(players, k - 1);
        if s > best_score(players, (k - 1) as nat) {
            assert(seat_score(players, k - 1) == best_score(players, k));
        } else {
            let j = choose|j: int| 0 <= j < (k - 1) && #[trigger] seat_score(players, j) == best_score(players, (k - 1) as nat);
            assert(seat_score(players, j) == best_score(players, k));
        }
    }
}

/// The seats scoring `best` below `j` are exactly those seats, listed in increasing order.
pub proof fn lemma_seats_scoring(players: Seq<Player>, best: nat, j: nat)
    requires
        j <= usize::MAX + 1,
    ensures
        forall|a: int, b: int| 0 <= a < b < seats_scoring(players, best, j).len()
            ==> seats_scoring(players, best, j)[a] < seats_scoring(players, best, j)[b],
        forall|a: int| 0 <= a < seats_scoring(players, best, j).len()
            ==> (#[trigger] seats_scoring(players, best, j)[a]) < j,
        forall|i: usize| #[trigger] seats_scoring(players, best, j).contains(i)
            <==> ((i as int) < j && seat_score(players, i as int) == best),
    decreases j,
{
    if j > 0 {
        lemma_seats_scoring(players, best, (j - 1) as nat);
        let prev = seats_scoring(players, best, (j - 1) as nat);
        let cur = seats_scoring(players, best, j);
        if seat_score(players, j - 1) == best {
            assert(cur == prev.push((j - 1) as usize));
            assert forall|i: usize| #[trigger] cur.contains(i) <==> ((i as int) < j && seat_score(players, i as int) == best) by {
                if (i as int) < j && seat_score(players, i as int) == best {
                    if (i as int) < j - 1 {
                        assert(prev.contains(i));
                        let a = choose|a: int| 0 <= a < prev.len() && prev[a] == i;
                        assert(cur[a] == i);
                    } else {
                        assert(cur[prev.len() as int] == i);
                    }
                }
                if cur.contains(i) {
                    let a = choose|a: int| 0 <= a < cur.len() && cur[a] == i;
                    if a < prev.len() {
                        assert(prev.contains(i));
                    }
                }
            }
        } else {
            assert(cur == prev);
        }
    }
}

/// When no seat below `j` scores `best`, no seat is listed.
pub proof fn lemma_seats_scoring_none(players: Seq<Player>, best: nat, j: nat)
    requires
        forall|i: int| 0 <= i < j ==> #[trigger] seat_score(players, i) != best,
    ensures
        seats_scoring(players, best, j) == Seq::<usize>::empty(),
    decreases j,
{
    if j > 0 {
        lemma_seats_scoring_none(players, best, (j - 1) as nat);
    }
}

/// What seat `q` has collected from the levels opened among the first `j` winners.
pub open spec fn side_gain(players: Seq<Player>, winners: Seq<usize>, bets: Seq<u32>, q: int, j: nat) -> nat {
    if winners.contains(q as usize) {
        side_pot_payout(players, bets, players[q].current_bet, j)
    } else {
        0
    }
}

/// At most `i` of the first `i` bets share a level; a bet that reaches the level shares it.
pub proof fn lemma_count_sharing(bets: Seq<u32>, v: u32, i: nat, j: int)
    ensures
        count_sharing(bets, v, i) <= i,
        0 <= j < i && bets[j] >= v ==> count_sharing(bets, v, i) >= 1,
    decreases i,
{
    if i > 0 {
        lemma_count_sharing(bets, v, (i - 1) as nat, j);
    }
}

/// At most `q` of the first `q` players have put in `v` or more.
pub proof fn lemma_count_invested_bound(players: Seq<Player>, v: u32, q: nat)
    ensures
        count_invested(players, v, q) <= q,
    decreases q,
{
    if q > 0 {
        lemma_count_invested_bound(players, v, (q - 1) as nat);
    }
}

/// A winner whose bet is `bet` collects from the first `j` levels at most one stake of
/// `min(bet, top of level j)` from each of the `n` players.
proof fn lemma_side_pot_payout_bound(players: Seq<Player>, bets: Seq<u32>, bet: u32, j: nat)
    requires
        j <= bets.len(),
        nondecreasing(bets),
    ensures
        side_pot_payout(players, bets, bet, j) <= players.len() * (if j == 0 {
            0
        } else if bets[j - 1] <= bet {
            bets[j - 1] as int
        } else {
            bet as int
        }),
    decreases j,
{
    let n = players.len();
    if j > 0 {
        let i = j - 1;
        lemma_side_pot_payout_bound(players, bets, bet, i as nat);
        let c_prev: int = if i == 0 {
            0
        } else if bets[i - 1] <= bet {
            bets[i - 1] as int
        } else {
            bet as int
        };
        let c: int = if bets[i] <= bet {
            bets[i] as int
        } else {
            bet as int
        };
        assert(c_prev <= c);
        assert(n * c_prev <= n * c) by (nonlinear_arith)
            requires
                c_prev <= c,
                n >= 0,
        ;
        if level_start(bets, i) && bets[i] <= bet {
            let diff: int = bets[i] - prev_level(bets, i);
            let ci = count_invested(players, bets[i], n);
            let cs = count_sharing(bets, bets[i], bets.len());
            lemma_count_invested_bound(players, bets[i], n);
            lemma_count_sharing(bets, bets[i], bets.len(), i);
            assert(diff >= 0);
            assert(level_pot(players, bets, i) == diff * ci);
            assert(diff * ci <= diff * n) by (nonlinear_arith)
                requires
                    diff >= 0,
                    0 <= ci <= n,
            ;
            assert(diff * ci >= 0) by (nonlinear_arith)
                requires
                    diff >= 0,
                    ci >= 0,
            ;
            let x = (diff * ci) as nat;
            assert(x / cs <= x) by (nonlinear_arith)
                requires
                    cs >= 1,
            ;
            assert(c_prev == prev_level(bets, i));
            assert(n * c_prev + diff * n == n * c) by (nonlinear_arith)
                requires
                    c == c_prev + diff,
            ;
        }
    }
}

/// No player collects more at the showdown than its own bet from each player at the table.
/// (With split pots this holds when the winners' bets rise from seat to seat, the order in
/// which the levels are paid.)
pub proof fn lemma_winnings_bounded_by_stake(players: Seq<Player>, q: int)
    requires
        unfolded_count(players) > 0,
        players.len() <= usize::MAX,
        0 <= q < players.len(),
        split_pots(bets_of(players, winning_seats(players))) ==> nondecreasing(
            bets_of(players, winning_seats(players)),
        ),
    ensures
        winnings(players, q) <= players.len() * players[q].current_bet,
{
    let n = players.len();
    let w = winning_seats(players);
    let bets = bets_of(players, w);
    let bet = players[q].current_bet;
    lemma_winners_hold_best_hand(players);
    lemma_unfolded_count_bound(players);
    assert(n * bet >= bet) by (nonlinear_arith)
        requires
            n >= 1,
    ;
    if split_pots(bets) {
        if w.contains(q as usize) {
            let m = bets.len();
            lemma_side_pot_payout_bound(players, bets, bet, m);
            let c: int = if bets[m - 1] <= bet {
                bets[m - 1] as int
            } else {
                bet as int
            };
            assert(n * c <= n * bet) by (nonlinear_arith)
                requires
                    c <= bet,
                    n >= 0,
            ;
        }
    } else {
        let b = winning_bet(players);
        let w0 = w[0] as int;
        assert(w0 < n);
        if q == w0 {
            lemma_shortfall_bound(players, b, n);
            assert(refund(players[q], b) == 0);
            let pot = main_pot(players, b);
            assert(0 <= pot <= n * b);
            assert((pot as u32) as int <= n * b);
        }
    }
}

/// The short bets fall short by at most `highest` each.
pub proof fn lemma_shortfall_bound(players: Seq<Player>, highest: u32, q: nat)
    ensures
        shortfall(players, highest, q) <= q * highest,
    decreases q,
{
    if q > 0 {
        lemma_shortfall_bound(players, highest, (q - 1) as nat);
        assert((q - 1) * highest + highest == q * highest) by (nonlinear_arith);
    }
}

/// A strictly increasing list of seats below `n` has at most `n` entries.
pub proof fn lemma_increasing_seats_len(w: Seq<usize>, n: nat)
    requires
        forall|a: int, b: int| 0 <= a < b < w.len() ==> w[a] < w[b],
        forall|a: int| 0 <= a < w.len() ==> (#[trigger] w[a]) < n,
    ensures
        w.len() <= n,
{
    assert forall|a: int| 0 <= a < w.len() implies (#[trigger] w[a]) >= a by {
        lemma_increasing_from(w, a);
    }
    if w.len() > n {
        assert(w[n as int] >= n);
    }
}

proof fn lemma_increasing_from(w: Seq<usize>, a: int)
    requires
        forall|x: int, y: int| 0 <= x < y < w.len() ==> w[x] < w[y],
        0 <= a < w.len(),
    ensures
        w[a] >= a,
    decreases a,
{
    if a > 0 {
        lemma_increasing_from(w, a - 1);
    }
}

/// One more level paid: a winner sharing it gains the level's share.
pub proof fn lemma_side_gain_step(players: Seq<Player>, winners: Seq<usize>, bets: Seq<u32>, q: int, j: nat)
    requires
        j < bets.len(),
    ensures
        side_gain(players, winners, bets, q, j + 1) == side_gain(players, winners, bets, q, j) + if winners.contains(q as usize)
            && level_start(bets, j as int) && bets[j as int] <= players[q].current_bet {
            level_share(players, bets, j as int)
        } else {
            0nat
        },
{
}

/// The chips bet by the first `q` players.
pub open spec fn total_bets(players: Seq<Player>, q: nat) -> nat
    decreases q,
{
    if q == 0 {
        0
    } else {
        total_bets(players, (q - 1) as nat) + players[q - 1].current_bet as nat
    }
}

/// The chips collected by the first `q` players at the showdown.
pub open spec fn total_winnings(players: Seq<Player>, q: nat) -> nat
    decreases q,
{
    if q == 0 {
        0
    } else {
        total_winnings(players, (q - 1) as nat) + winnings(players, q - 1)
    }
}

/// The winners all hold the best score among the contenders (the first `k` seats, `k` the
/// number of players not folded), every contender scores at most that, and at least one
/// contender wins.
pub proof fn lemma_winners_hold_best_hand(players: Seq<Player>)
    requires
        unfolded_count(players) > 0,
        players.len() <= usize::MAX,
    ensures
        winning_seats(players).len() > 0,
        forall|a: int| 0 <= a < winning_seats(players).len() ==> {
            &&& (#[trigger] winning_seats(players)[a]) < unfolded_count(players)
            &&& seat_score(players, winning_seats(players)[a] as int) == best_score(players, unfolded_count(players))
        },
        forall|j: int| 0 <= j < unfolded_count(players) ==> #[trigger] seat_score(players, j) <= best_score(players, unfolded_count(players)),
        forall|j: usize| (j as int) < unfolded_count(players) && seat_score(players, j as int) == best_score(players, unfolded_count(players))
            ==> #[trigger] winning_seats(players).contains(j),
{
    let k = unfolded_count(players);
    lemma_unfolded_count_bound(players);
    lemma_best_score_bound(players, k);
    lemma_best_score_attained(players, k);
    lemma_seats_scoring(players, best_score(players, k), k);
    let j0 = choose|j: int| 0 <= j < k && #[trigger] seat_score(players, j) == best_score(players, k);
    assert(winning_seats(players).contains(j0 as usize));
    assert forall|a: int| 0 <= a < winning_seats(players).len() implies {
        &&& (#[trigger] winning_seats(players)[a]) < unfolded_count(players)
        &&& seat_score(players, winning_seats(players)[a] as int) == best_score(players, unfolded_count(players))
    } by {
        assert(winning_seats(players).contains(winning_seats(players)[a]));
    }
}

proof fn lemma_refunds_and_pot(players: Seq<Player>, highest: u32, q: nat)
    requires
        q <= players.len(),
    ensures
        ({
            let refunds = total_refunds(players, highest, q);
            refunds + q * highest - shortfall(players, highest, q) == total_bets(players, q)
        }),
    decreases q,
{
    if q > 0 {
        let q1 = (q - 1) as nat;
        lemma_refunds_and_pot(players, highest, q1);
        assert(q1 * highest + highest == q * highest) by (nonlinear_arith)
            requires
                q1 + 1 == q,
        ;
        let p = players[q - 1];
        assert(total_refunds(players, highest, q) == total_refunds(players, highest, q1) + refund(p, highest));
        assert(total_bets(players, q) == total_bets(players, q1) + p.current_bet);
        if p.current_bet < highest {
            assert(shortfall(players, highest, q) == shortfall(players, highest, q1) + (highest - p.current_bet));
        } else {
            assert(shortfall(players, highest, q) == shortfall(players, highest, q1));
        }
    } else {
        assert(q * highest == 0) by (nonlinear_arith)
            requires
                q == 0,
        ;
    }
}

/// What the first `q` players bet beyond `highest`, in total.
pub open spec fn total_refunds(players: Seq<Player>, highest: u32, q: nat) -> nat
    decreases q,
{
    if q == 0 {
        0
    } else {
        total_refunds(players, highest, (q - 1) as nat) + refund(players[q - 1], highest)
    }
}

proof fn lemma_single_pot_winnings(players: Seq<Player>, q: nat)
    requires
        q <= players.len(),
        !split_pots(bets_of(players, winning_seats(players))),
    ensures
        total_winnings(players, q) == total_refunds(players, winning_bet(players), q) + if (winning_seats(players)[0] as int) < q {
            (main_pot(players, winning_bet(players)) as u32) as nat
        } else {
            0nat
        },
    decreases q,
{
    if q > 0 {
        lemma_single_pot_winnings(players, (q - 1) as nat);
    }
}

/// With a single pot, the showdown hands back every chip that was bet: what the players
/// collect adds up to what they bet (when the pot fits in 32 bits).
pub proof fn lemma_single_pot_conserves_chips(players: Seq<Player>)
    requires
        unfolded_count(players) > 0,
        players.len() <= usize::MAX,
        !split_pots(bets_of(players, winning_seats(players))),
        main_pot(players, winning_bet(players)) <= u32::MAX,
    ensures
        total_winnings(players, players.len()) == total_bets(players, players.len()),
{
    let b = winning_bet(players);
    lemma_winners_hold_best_hand(players);
    lemma_unfolded_count_bound(players);
    assert(winning_seats(players)[0] < players.len());
    lemma_single_pot_winnings(players, players.len());
    lemma_refunds_and_pot(players, b, players.len());
    lemma_shortfall_bound(players, b, players.len());
}

} // verus!
