//! What a set of cards makes, in the usual terms of poker (pairs, straights, flushes...),
//! and the laws tying a hand's score to it.
use vstd::prelude::*;

use crate::entities::card::Card;
use crate::entities::hand::{
    flush_suit, grouped_ranks, hand_key, hand_score, key_category, key_digit, key_digits,
    multiplicity, rank_count, straight_at, straight_flush_top, straight_top, straight_top_below,
    suited,
};
use crate::entities::suit::Suit;
use crate::entities::value::value_rank;

verus! {

/// The `i`-th rank down a run of five ending at `t`: the ace also counts below the two.
pub open spec fn run_rank(t: nat, i: nat) -> nat {
    if t == i + 1 {
        14
    } else {
        (t - i) as nat
    }
}

/// The five consecutive ranks ending at `t` are all held.
pub open spec fn five_in_a_row(cards: Seq<Card>, t: nat) -> bool {
    forall|i: nat| i < 5 ==> rank_count(cards, #[trigger] run_rank(t, i)) > 0
}

/// Five in a row is what `straight_at` checks rank by rank.
proof fn lemma_five_in_a_row(cards: Seq<Card>, t: nat)
    requires
        5 <= t <= 14,
    ensures
        five_in_a_row(cards, t) == straight_at(cards, t),
{
    assert(run_rank(t, 0) == t);
    assert(run_rank(t, 1) == t - 1);
    assert(run_rank(t, 2) == t - 2);
    assert(run_rank(t, 3) == t - 3);
    if five_in_a_row(cards, t) {
        assert(rank_count(cards, run_rank(t, 4)) > 0);
    }
    if straight_at(cards, t) {
        assert forall|i: nat| i < 5 implies rank_count(cards, #[trigger] run_rank(t, i)) > 0 by {
            if i == 4 {
            } else if i == 3 {
            } else if i == 2 {
            } else if i == 1 {
            } else {
            }
        }
    }
}


/// At least `n` cards of one rank are held.
pub open spec fn has_kind(cards: Seq<Card>, n: nat) -> bool {
    exists|r: nat| 2 <= r <= 14 && #[trigger] rank_count(cards, r) >= n
}

/// Three cards of one rank and two of another are held.
pub open spec fn has_full_house(cards: Seq<Card>) -> bool {
    exists|r: nat, q: nat|
        2 <= r <= 14 && 2 <= q <= 14 && r != q && #[trigger] rank_count(cards, r) >= 3 && #[trigger] rank_count(cards, q) >= 2
}

/// Two cards of one rank and two of another are held.
pub open spec fn has_two_pair(cards: Seq<Card>) -> bool {
    exists|r: nat, q: nat|
        2 <= r <= 14 && 2 <= q <= 14 && r != q && #[trigger] rank_count(cards, r) >= 2 && #[trigger] rank_count(cards, q) >= 2
}

/// Five cards or more of one suit are held.
pub open spec fn has_flush(cards: Seq<Card>) -> bool {
    exists|s: Suit| (#[trigger] suited(cards, s)).len() >= 5
}

/// Five consecutive ranks are held (the ace also counting below the two).
pub open spec fn has_straight(cards: Seq<Card>) -> bool {
    exists|t: nat| 5 <= t <= 14 && #[trigger] five_in_a_row(cards, t)
}

/// Five consecutive ranks of a single suit are held.
pub open spec fn has_straight_flush(cards: Seq<Card>) -> bool {
    exists|s: Suit, t: nat| 5 <= t <= 14 && #[trigger] five_in_a_row(suited(cards, s), t)
}

/// `t` is the top of the highest straight held.
pub open spec fn highest_straight(cards: Seq<Card>, t: nat) -> bool {
    &&& 5 <= t <= 14
    &&& five_in_a_row(cards, t)
    &&& forall|u: nat| t < u <= 14 ==> !#[trigger] five_in_a_row(cards, u)
}

/// `t` is the top of the highest straight held within a single suit.
pub open spec fn highest_straight_flush(cards: Seq<Card>, t: nat) -> bool {
    &&& 5 <= t <= 14
    &&& exists|s: Suit| #[trigger] five_in_a_row(suited(cards, s), t)
    &&& forall|s: Suit, u: nat| t < u <= 14 ==> !#[trigger] five_in_a_row(suited(cards, s), u)
}

/// The best kind of hand the cards make, in the usual order: 8 straight flush, 7 four of a
/// kind, 6 full house, 5 flush, 4 straight, 3 three of a kind, 2 two pair, 1 pair, 0 high card.
pub open spec fn made_category(cards: Seq<Card>) -> nat {
    if has_straight_flush(cards) {
        8
    } else if has_kind(cards, 4) {
        7
    } else if has_full_house(cards) {
        6
    } else if has_flush(cards) {
        5
    } else if has_straight(cards) {
        4
    } else if has_kind(cards, 3) {
        3
    } else if has_two_pair(cards) {
        2
    } else if has_kind(cards, 2) {
        1
    } else {
        0
    }
}

/// The best kind of hand made from groups of equal ranks alone.
spec fn group_category(cards: Seq<Card>) -> nat {
    if has_kind(cards, 4) {
        7
    } else if has_full_house(cards) {
        6
    } else if has_kind(cards, 3) {
        3
    } else if has_two_pair(cards) {
        2
    } else if has_kind(cards, 2) {
        1
    } else {
        0
    }
}

/// The highest rank at most `r` held exactly `c` times (four or more counting as four), or 0.
spec fn top_rank(cards: Seq<Card>, c: nat, r: nat) -> nat
    decreases r,
{
    if r < 2 {
        0
    } else if multiplicity(cards, r) == c {
        r
    } else {
        top_rank(cards, c, (r - 1) as nat)
    }
}

proof fn lemma_top_rank(cards: Seq<Card>, c: nat, r: nat)
    ensures
        top_rank(cards, c, r) == 0 ==> forall|q: nat| 2 <= q <= r ==> #[trigger] multiplicity(cards, q) != c,
        top_rank(cards, c, r) > 0 ==> {
            &&& 2 <= top_rank(cards, c, r) <= r
            &&& multiplicity(cards, top_rank(cards, c, r)) == c
            &&& forall|q: nat| top_rank(cards, c, r) < q <= r ==> #[trigger] multiplicity(cards, q) != c
        },
    decreases r,
{
    if r >= 2 {
        lemma_top_rank(cards, c, (r - 1) as nat);
    }
}

/// The groups of size `c` start with the highest rank held `c` times; with none, the groups
/// of the next smaller size follow at once.
proof fn lemma_grouped_top(cards: Seq<Card>, c: nat, r: nat)
    requires
        c >= 1,
    ensures
        grouped_ranks(cards, c, r) == if top_rank(cards, c, r) == 0 {
            grouped_ranks(cards, (c - 1) as nat, 14)
        } else {
            Seq::new(c, |i: int| top_rank(cards, c, r)) + grouped_ranks(cards, c, (top_rank(cards, c, r) - 1) as nat)
        },
    decreases r,
{
    if r >= 2 && multiplicity(cards, r) != c {
        lemma_grouped_top(cards, c, (r - 1) as nat);
    }
}

/// Every rank listed is a rank held: in the groups of size `c` it is held `c` times and is at
/// most `r`; past them it is held fewer than `c` times.
proof fn lemma_grouped_elems(cards: Seq<Card>, c: nat, r: nat)
    requires
        r <= 14,
    ensures
        forall|i: int| 0 <= i < grouped_ranks(cards, c, r).len() ==> {
            let x = #[trigger] grouped_ranks(cards, c, r)[i];
            &&& 2 <= x <= 14
            &&& multiplicity(cards, x) >= 1
            &&& ((multiplicity(cards, x) == c && x <= r) || multiplicity(cards, x) < c)
        },
    decreases c, r,
{
    let g = grouped_ranks(cards, c, r);
    if c == 0 {
    } else if r < 2 {
        lemma_grouped_elems(cards, (c - 1) as nat, 14);
        assert(g == grouped_ranks(cards, (c - 1) as nat, 14));
    } else {
        lemma_grouped_elems(cards, c, (r - 1) as nat);
        let rest = grouped_ranks(cards, c, (r - 1) as nat);
        if multiplicity(cards, r) == c {
            assert forall|i: int| 0 <= i < g.len() implies {
                let x = #[trigger] g[i];
                &&& 2 <= x <= 14
                &&& multiplicity(cards, x) >= 1
                &&& ((multiplicity(cards, x) == c && x <= r) || multiplicity(cards, x) < c)
            } by {
                if i >= c {
                    assert(g[i] == rest[i - c]);
                } else {
                    assert(g[i] == r);
                }
            }
        } else {
            assert(g == rest);
        }
    }
}

/// The single cards, highest first: each rank listed is below the first.
proof fn lemma_singles_fall(cards: Seq<Card>)
    ensures
        ({
            let s = grouped_ranks(cards, 1, 14);
            forall|i: int| 1 <= i < s.len() ==> #[trigger] s[i] < s[0]
        }),
{
    let t = top_rank(cards, 1, 14);
    lemma_grouped_top(cards, 1, 14);
    lemma_top_rank(cards, 1, 14);
    if t > 0 {
        let rest = grouped_ranks(cards, 1, (t - 1) as nat);
        lemma_grouped_elems(cards, 1, (t - 1) as nat);
        let s = grouped_ranks(cards, 1, 14);
        assert forall|i: int| 1 <= i < s.len() implies #[trigger] s[i] < s[0] by {
            assert(s[i] == rest[i - 1]);
        }
    } else {
        assert(grouped_ranks(cards, 0, 14).len() == 0);
    }
}

proof fn lemma_multiplicity(cards: Seq<Card>, r: nat)
    ensures
        multiplicity(cards, r) == 4 <==> rank_count(cards, r) >= 4,
        rank_count(cards, r) < 4 ==> multiplicity(cards, r) == rank_count(cards, r),
{
}

/// The kind of hand the key shows is the best kind made from groups of equal ranks.
proof fn lemma_key_category(cards: Seq<Card>)
    ensures
        key_category(hand_key(cards)) == group_category(cards),
{
    let k = hand_key(cards);
    let t4 = top_rank(cards, 4, 14);
    lemma_grouped_top(cards, 4, 14);
    lemma_top_rank(cards, 4, 14);
    assert forall|r: nat| 2 <= r <= 14 implies (#[trigger] rank_count(cards, r) >= 4) == (multiplicity(cards, r) == 4) by {
        lemma_multiplicity(cards, r);
    }
    if t4 > 0 {
        assert(k[0] == t4 && k[3] == t4);
        assert(rank_count(cards, t4) >= 4);
        return;
    }
    assert(!has_kind(cards, 4));
    assert forall|r: nat| 2 <= r <= 14 implies #[trigger] multiplicity(cards, r) == if rank_count(cards, r) >= 4 {
        4
    } else {
        rank_count(cards, r)
    } by {
        lemma_multiplicity(cards, r);
    }
    assert(k == grouped_ranks(cards, 3, 14));
    let t3 = top_rank(cards, 3, 14);
    lemma_grouped_top(cards, 3, 14);
    lemma_top_rank(cards, 3, 14);
    if t3 > 0 {
        let rest = grouped_ranks(cards, 3, (t3 - 1) as nat);
        lemma_grouped_elems(cards, 3, (t3 - 1) as nat);
        assert(k == Seq::new(3, |i: int| t3) + rest);
        assert(k[0] == t3 && k[2] == t3);
        assert(k.len() >= 4 ==> k[3] == rest[0] && k[3] != t3);
        assert(rank_count(cards, t3) == 3);
        let t3b = top_rank(cards, 3, (t3 - 1) as nat);
        lemma_top_rank(cards, 3, (t3 - 1) as nat);
        lemma_grouped_top(cards, 3, (t3 - 1) as nat);
        if t3b > 0 {
            assert(rest[0] == t3b && rest[1] == t3b);
            assert(k[3] == t3b && k[4] == t3b);
            assert(rank_count(cards, t3b) == 3);
            assert(has_full_house(cards)) by {
                assert(rank_count(cards, t3) >= 3 && rank_count(cards, t3b) >= 2);
            }
        } else {
            assert(rest == grouped_ranks(cards, 2, 14));
            let t2 = top_rank(cards, 2, 14);
            lemma_top_rank(cards, 2, 14);
            lemma_grouped_top(cards, 2, 14);
            if t2 > 0 {
                assert(rest[0] == t2 && rest[1] == t2);
                assert(k[3] == t2 && k[4] == t2);
                assert(rank_count(cards, t2) == 2);
                assert(has_full_house(cards)) by {
                    assert(rank_count(cards, t3) >= 3 && rank_count(cards, t2) >= 2);
                }
            } else {
                assert(rest == grouped_ranks(cards, 1, 14));
                lemma_singles_fall(cards);
                assert(k.len() >= 5 ==> k[3] == rest[0] && k[4] == rest[1] && k[4] < k[3]);
                assert(!has_full_house(cards)) by {
                    if has_full_house(cards) {
                        let (r, q) = choose|r: nat, q: nat|
                            2 <= r <= 14 && 2 <= q <= 14 && r != q && #[trigger] rank_count(cards, r) >= 3
                                && #[trigger] rank_count(cards, q) >= 2;
                        assert(multiplicity(cards, r) == 3);
                        assert(multiplicity(cards, q) == rank_count(cards, q));
                        if r < t3 {
                            assert(multiplicity(cards, r) != 3);
                        }
                        if q < t3 && multiplicity(cards, q) == 3 {
                            assert(false);
                        }
                    }
                }
                assert(has_kind(cards, 3)) by {
                    assert(rank_count(cards, t3) >= 3);
                }
            }
        }
    } else {
        assert(!has_kind(cards, 3)) by {
            if has_kind(cards, 3) {
                let r = choose|r: nat| 2 <= r <= 14 && #[trigger] rank_count(cards, r) >= 3;
                assert(multiplicity(cards, r) == 3);
            }
        }
        assert(!has_full_house(cards));
        assert(k == grouped_ranks(cards, 2, 14));
        let t2 = top_rank(cards, 2, 14);
        lemma_top_rank(cards, 2, 14);
        lemma_grouped_top(cards, 2, 14);
        if t2 > 0 {
            let rest = grouped_ranks(cards, 2, (t2 - 1) as nat);
            lemma_grouped_elems(cards, 2, (t2 - 1) as nat);
            assert(k == Seq::new(2, |i: int| t2) + rest);
            assert(k[0] == t2 && k[1] == t2);
            assert(k.len() >= 3 ==> k[2] == rest[0] && k[2] != t2);
            assert(k.len() >= 4 ==> k[3] == rest[1] && k[3] != t2);
            assert(rank_count(cards, t2) == 2);
            let t2b = top_rank(cards, 2, (t2 - 1) as nat);
            lemma_top_rank(cards, 2, (t2 - 1) as nat);
            lemma_grouped_top(cards, 2, (t2 - 1) as nat);
            if t2b > 0 {
                assert(rest[0] == t2b && rest[1] == t2b);
                assert(rank_count(cards, t2b) == 2);
                assert(has_two_pair(cards)) by {
                    assert(rank_count(cards, t2) >= 2 && rank_count(cards, t2b) >= 2);
                }
            } else {
                assert(rest == grouped_ranks(cards, 1, 14));
                lemma_singles_fall(cards);
                assert(k.len() >= 4 ==> rest[1] < rest[0]);
                assert(!has_two_pair(cards)) by {
                    if has_two_pair(cards) {
                        let (r, q) = choose|r: nat, q: nat|
                            2 <= r <= 14 && 2 <= q <= 14 && r != q && #[trigger] rank_count(cards, r) >= 2
                                && #[trigger] rank_count(cards, q) >= 2;
                        assert(multiplicity(cards, r) == 2);
                        assert(multiplicity(cards, q) == 2);
                    }
                }
                assert(has_kind(cards, 2)) by {
                    assert(rank_count(cards, t2) >= 2);
                }
            }
        } else {
            assert(!has_kind(cards, 2)) by {
                if has_kind(cards, 2) {
                    let r = choose|r: nat| 2 <= r <= 14 && #[trigger] rank_count(cards, r) >= 2;
                    assert(multiplicity(cards, r) == 2);
                }
            }
            assert(!has_two_pair(cards));
            assert(k == grouped_ranks(cards, 1, 14));
            lemma_singles_fall(cards);
            assert(k.len() >= 2 ==> k[1] < k[0]);
            assert(k.len() >= 3 ==> k[2] < k[0]);
            assert(k.len() >= 4 ==> k[3] < k[0]);
        }
    }
}


proof fn lemma_straight_top_below(cards: Seq<Card>, r: nat)
    ensures
        straight_top_below(cards, r) == 0 ==> forall|u: nat| 5 <= u <= r ==> !#[trigger] straight_at(cards, u),
        straight_top_below(cards, r) > 0 ==> {
            &&& 5 <= straight_top_below(cards, r) <= r
            &&& straight_at(cards, straight_top_below(cards, r))
            &&& forall|u: nat| straight_top_below(cards, r) < u <= r ==> !#[trigger] straight_at(cards, u)
        },
    decreases r,
{
    if r >= 5 && !straight_at(cards, r) {
        lemma_straight_top_below(cards, (r - 1) as nat);
    }
}

/// The top of the highest straight held, when there is one; none is held when it is 0.
proof fn lemma_straight_top(cards: Seq<Card>)
    ensures
        straight_top(cards) <= 14,
        (straight_top(cards) > 0) == has_straight(cards),
        straight_top(cards) > 0 ==> highest_straight(cards, straight_top(cards)),
{
    let st = straight_top(cards);
    lemma_straight_top_below(cards, 14);
    if has_straight(cards) {
        let t = choose|t: nat| 5 <= t <= 14 && #[trigger] five_in_a_row(cards, t);
        lemma_five_in_a_row(cards, t);
    }
    if st > 0 {
        lemma_five_in_a_row(cards, st);
        assert forall|u: nat| st < u <= 14 implies !#[trigger] five_in_a_row(cards, u) by {
            lemma_five_in_a_row(cards, u);
        }
    }
}

proof fn lemma_flush_suit(cards: Seq<Card>)
    ensures
        (flush_suit(cards) is Some) == has_flush(cards),
{
    if has_flush(cards) {
        let s = choose|s: Suit| (#[trigger] suited(cards, s)).len() >= 5;
        match s {
            Suit::Heart => {},
            Suit::Diamond => {},
            Suit::Spade => {},
            Suit::Club => {},
        }
    }
    if flush_suit(cards) is Some {
        assert(suited(cards, flush_suit(cards)->0).len() >= 5);
    }
}

/// The highest straight within a single suit, when there is one.
proof fn lemma_straight_flush_top(cards: Seq<Card>)
    ensures
        straight_flush_top(cards) <= 14,
        (straight_flush_top(cards) > 0) == has_straight_flush(cards),
        straight_flush_top(cards) > 0 ==> highest_straight_flush(cards, straight_flush_top(cards)),
{
    let h = suited(cards, Suit::Heart);
    let d = suited(cards, Suit::Diamond);
    let sp = suited(cards, Suit::Spade);
    let c = suited(cards, Suit::Club);
    lemma_straight_top(h);
    lemma_straight_top(d);
    lemma_straight_top(sp);
    lemma_straight_top(c);
    let t = straight_flush_top(cards);
    if has_straight_flush(cards) {
        let (s, u) = choose|s: Suit, u: nat| 5 <= u <= 14 && #[trigger] five_in_a_row(suited(cards, s), u);
        match s {
            Suit::Heart => assert(has_straight(h)),
            Suit::Diamond => assert(has_straight(d)),
            Suit::Spade => assert(has_straight(sp)),
            Suit::Club => assert(has_straight(c)),
        }
    }
    if t > 0 {
        assert forall|s: Suit, u: nat| t < u <= 14 implies !#[trigger] five_in_a_row(suited(cards, s), u) by {
            match s {
                Suit::Heart => {
                    if five_in_a_row(h, u) {
                        assert(has_straight(h));
                    }
                },
                Suit::Diamond => {
                    if five_in_a_row(d, u) {
                        assert(has_straight(d));
                    }
                },
                Suit::Spade => {
                    if five_in_a_row(sp, u) {
                        assert(has_straight(sp));
                    }
                },
                Suit::Club => {
                    if five_in_a_row(c, u) {
                        assert(has_straight(c));
                    }
                },
            }
        }
        if t == straight_top(h) {
            assert(five_in_a_row(suited(cards, Suit::Heart), t));
        } else if t == straight_top(d) {
            assert(five_in_a_row(suited(cards, Suit::Diamond), t));
        } else if t == straight_top(sp) {
            assert(five_in_a_row(suited(cards, Suit::Spade), t));
        } else {
            assert(five_in_a_row(suited(cards, Suit::Club), t));
        }
        assert(has_straight_flush(cards));
    }
}

/// The five leading ranks of any key, as one number, stay below the step between kinds.
proof fn lemma_key_digits_bound(cards: Seq<Card>)
    ensures
        key_digits(hand_key(cards)) < 759375,
{
    let k = hand_key(cards);
    lemma_grouped_elems(cards, 4, 14);
    assert forall|i: int| 0 <= i < 5 implies #[trigger] key_digit(k, i) <= 14 by {
        if i < k.len() {
            assert(k[i] == grouped_ranks(cards, 4, 14)[i]);
        }
    }
    assert(key_digit(k, 0) <= 14 && key_digit(k, 1) <= 14 && key_digit(k, 2) <= 14 && key_digit(k, 3) <= 14
        && key_digit(k, 4) <= 14);
}

proof fn lemma_rank_count_low(cards: Seq<Card>, r: nat)
    requires
        r < 2,
    ensures
        rank_count(cards, r) == 0,
    decreases cards.len(),
{
    if cards.len() > 0 {
        lemma_rank_count_low(cards.drop_last(), r);
    }
}

/// The first rank of the key leads: it belongs to the largest group held (four counting as
/// the largest), and no higher rank is held as often.
proof fn lemma_key_lead(cards: Seq<Card>)
    ensures
        ({
            let l = key_digit(hand_key(cards), 0);
            &&& forall|q: nat| 2 <= q <= 14 ==> #[trigger] multiplicity(cards, q) <= multiplicity(cards, l)
            &&& cards.len() > 0 ==> forall|q: nat| l < q <= 14 ==> #[trigger] multiplicity(cards, q) < multiplicity(cards, l)
        }),
{
    let k = hand_key(cards);
    lemma_grouped_top(cards, 4, 14);
    lemma_top_rank(cards, 4, 14);
    let t4 = top_rank(cards, 4, 14);
    if t4 > 0 {
        assert(k[0] == t4);
        return;
    }
    lemma_grouped_top(cards, 3, 14);
    lemma_top_rank(cards, 3, 14);
    let t3 = top_rank(cards, 3, 14);
    if t3 > 0 {
        assert(k[0] == t3);
        return;
    }
    lemma_grouped_top(cards, 2, 14);
    lemma_top_rank(cards, 2, 14);
    let t2 = top_rank(cards, 2, 14);
    if t2 > 0 {
        assert(k[0] == t2);
        return;
    }
    lemma_grouped_top(cards, 1, 14);
    lemma_top_rank(cards, 1, 14);
    let t1 = top_rank(cards, 1, 14);
    if t1 > 0 {
        assert(k[0] == t1);
        return;
    }
    assert(k.len() == 0);
    lemma_rank_count_low(cards, 0);
    if cards.len() > 0 {
        let r = value_rank(cards.last().value);
        assert(2 <= r <= 14);
        assert(rank_count(cards, r) >= 1);
        assert(multiplicity(cards, r) >= 1);
    }
}

/// Below the kind, the score ranks by the leading rank of the key.
proof fn lemma_key_digits_lead(cards: Seq<Card>)
    ensures
        key_digits(hand_key(cards)) / 50625 == key_digit(hand_key(cards), 0),
{
    let k = hand_key(cards);
    lemma_grouped_elems(cards, 4, 14);
    assert forall|i: int| 0 <= i < 5 implies #[trigger] key_digit(k, i) <= 14 by {
        if i < k.len() {
            assert(k[i] == grouped_ranks(cards, 4, 14)[i]);
        }
    }
    assert(key_digit(k, 1) <= 14 && key_digit(k, 2) <= 14 && key_digit(k, 3) <= 14 && key_digit(k, 4) <= 14);
    let rest = key_digit(k, 1) * 3375 + key_digit(k, 2) * 225 + key_digit(k, 3) * 15 + key_digit(k, 4);
    vstd::arithmetic::div_mod::lemma_fundamental_div_mod_converse(
        key_digits(k) as int,
        50625,
        key_digit(k, 0) as int,
        rest as int,
    );
}

/// A hand's score tells the best kind of hand its cards make: the score divided by 759375 is
/// that kind (8 straight flush down to 0 high card), so a better kind always scores higher,
/// whatever else the cards hold. A straight, and a straight flush, score by the top of the
/// highest such straight held. Within the kinds made of groups of equal ranks (four of a
/// kind, full house, three of a kind, two pair, pair, high card), the score next ranks by
/// the leading group: the highest rank among those held most often; a flush ranks next by the
/// leading rank of its suit.
pub proof fn lemma_score_shows_best_hand(cards: Seq<Card>)
    ensures
        hand_score(cards) / 759375 == made_category(cards),
        made_category(cards) == 4 ==> exists|t: nat| #[trigger] highest_straight(cards, t)
            && hand_score(cards) == 4 * 759375 + t * 50625,
        made_category(cards) == 8 ==> exists|t: nat| #[trigger] highest_straight_flush(cards, t)
            && hand_score(cards) == 8 * 759375 + t * 50625,
        made_category(cards) == 5 ==> exists|s: Suit| {
            let lead = (hand_score(cards) % 759375) / 50625;
            let f = #[trigger] suited(cards, s);
            &&& f.len() >= 5
            &&& forall|q: nat| 2 <= q <= 14 ==> #[trigger] multiplicity(f, q) <= multiplicity(f, lead)
            &&& forall|q: nat| lead < q <= 14 ==> #[trigger] multiplicity(f, q) < multiplicity(f, lead)
        },
        made_category(cards) <= 3 || made_category(cards) == 6 || made_category(cards) == 7 ==> {
            let lead = (hand_score(cards) % 759375) / 50625;
            &&& forall|q: nat| 2 <= q <= 14 ==> #[trigger] multiplicity(cards, q) <= multiplicity(cards, lead)
            &&& cards.len() > 0 ==> forall|q: nat| lead < q <= 14 ==> #[trigger] multiplicity(cards, q)
                < multiplicity(cards, lead)
        },
{
    let key = hand_key(cards);
    let sf = straight_flush_top(cards);
    lemma_key_category(cards);
    lemma_straight_flush_top(cards);
    lemma_flush_suit(cards);
    lemma_straight_top(cards);
    lemma_key_digits_bound(cards);
    let score = hand_score(cards);
    lemma_key_lead(cards);
    lemma_key_digits_lead(cards);
    if sf > 0 {
        vstd::arithmetic::div_mod::lemma_fundamental_div_mod_converse(score as int, 759375, 8, (sf * 50625) as int);
        assert(highest_straight_flush(cards, sf));
    } else if key_category(key) >= 6 {
        vstd::arithmetic::div_mod::lemma_fundamental_div_mod_converse(
            score as int,
            759375,
            key_category(key) as int,
            key_digits(key) as int,
        );
    } else if flush_suit(cards) is Some {
        lemma_key_digits_bound(suited(cards, flush_suit(cards)->0));
        lemma_key_lead(suited(cards, flush_suit(cards)->0));
        lemma_key_digits_lead(suited(cards, flush_suit(cards)->0));
        vstd::arithmetic::div_mod::lemma_fundamental_div_mod_converse(
            score as int,
            759375,
            5,
            key_digits(hand_key(suited(cards, flush_suit(cards)->0))) as int,
        );
    } else if straight_top(cards) > 0 {
        let t = straight_top(cards);
        vstd::arithmetic::div_mod::lemma_fundamental_div_mod_converse(score as int, 759375, 4, (t * 50625) as int);
        assert(highest_straight(cards, t));
    } else {
        vstd::arithmetic::div_mod::lemma_fundamental_div_mod_converse(
            score as int,
            759375,
            key_category(key) as int,
            key_digits(key) as int,
        );
    }
}

} // verus!
