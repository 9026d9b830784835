use vstd::prelude::*;

use crate::entities::card::Card;
use crate::entities::suit::Suit;
use crate::entities::value::value_rank;

verus! {

/// The cards a player holds.
#[derive(Debug)]
pub struct Hand {
    cards: Vec<Card>,
}

impl View for Hand {
    type V = Seq<Card>;

    closed spec fn view(&self) -> Seq<Card> {
        self.cards@
    }
}

/// The strength of a hand (see `hand_score`): a higher score beats a lower one, equal
/// scores split.
#[derive(Debug, Clone, Copy, PartialEq, Eq, Structural)]
pub struct HandType {
    pub score: u32,
}

/// Number of cards of numeric rank `r` among `cards`.
pub open spec fn rank_count(cards: Seq<Card>, r: nat) -> nat
    decreases cards.len(),
{
    if cards.len() == 0 {
        0
    } else {
        rank_count(cards.drop_last(), r) + if value_rank(cards.last().value) == r {
            1nat
        } else {
            0nat
        }
    }
}

/// How many cards of rank `r` count towards a group: four of a kind is the largest group.
pub open spec fn multiplicity(cards: Seq<Card>, r: nat) -> nat {
    let c = rank_count(cards, r);
    if c >= 4 {
        4
    } else {
        c
    }
}

/// The ranks of the groups of size `c` whose rank is at most `r`, highest first, each rank
/// written once per card of the group; followed by the groups of every smaller size.
pub open spec fn grouped_ranks(cards: Seq<Card>, c: nat, r: nat) -> Seq<nat>
    decreases c, r,
{
    if c == 0 {
        Seq::empty()
    } else if r < 2 {
        grouped_ranks(cards, (c - 1) as nat, 14)
    } else {
        let rest = grouped_ranks(cards, c, (r - 1) as nat);
        if multiplicity(cards, r) == c {
            Seq::new(c, |i: int| r) + rest
        } else {
            rest
        }
    }
}

/// The ranks of a hand ordered by group size, then by rank, both descending.
pub open spec fn hand_key(cards: Seq<Card>) -> Seq<nat> {
    grouped_ranks(cards, 4, 14)
}

/// The `i`-th rank of a key, zero past its end.
pub open spec fn key_digit(key: Seq<nat>, i: int) -> nat {
    if 0 <= i < key.len() {
        key[i]
    } else {
        0
    }
}

/// The kind of hand a key shows: 7 four of a kind, 6 full house, 3 three of a kind,
/// 2 two pair, 1 pair, 0 high card.
pub open spec fn key_category(key: Seq<nat>) -> nat {
    if key.len() >= 4 && key[0] == key[3] {
        7
    } else if key.len() >= 5 && key[0] == key[2] && key[3] == key[4] {
        6
    } else if key.len() >= 3 && key[0] == key[2] {
        3
    } else if key.len() >= 4 && key[0] == key[1] && key[2] == key[3] {
        2
    } else if key.len() >= 2 && key[0] == key[1] {
        1
    } else {
        0
    }
}

/// The five leading ranks of a key, as one number.
pub open spec fn key_digits(key: Seq<nat>) -> nat {
    key_digit(key, 0) * 50625 + key_digit(key, 1) * 3375 + key_digit(key, 2) * 225 + key_digit(key, 3) * 15
        + key_digit(key, 4)
}

/// At least one card of rank `r` is held.
pub open spec fn has_rank(cards: Seq<Card>, r: nat) -> bool {
    rank_count(cards, r) > 0
}

/// The five consecutive ranks ending at `top` are all held; the ace also counts below the two.
pub open spec fn straight_at(cards: Seq<Card>, top: nat) -> bool {
    &&& has_rank(cards, top)
    &&& has_rank(cards, (top - 1) as nat)
    &&& has_rank(cards, (top - 2) as nat)
    &&& has_rank(cards, (top - 3) as nat)
    &&& has_rank(cards, if top == 5 {
        14
    } else {
        (top - 4) as nat
    })
}

/// The top of the highest straight whose top is at most `r`, or 0 when there is none.
pub open spec fn straight_top_below(cards: Seq<Card>, r: nat) -> nat
    decreases r,
{
    if r < 5 {
        0
    } else if straight_at(cards, r) {
        r
    } else {
        straight_top_below(cards, (r - 1) as nat)
    }
}

/// The top of the highest straight held, or 0 when there is none.
pub open spec fn straight_top(cards: Seq<Card>) -> nat {
    straight_top_below(cards, 14)
}

/// The cards of suit `s`, in order.
pub open spec fn suited(cards: Seq<Card>, s: Suit) -> Seq<Card>
    decreases cards.len(),
{
    if cards.len() == 0 {
        Seq::empty()
    } else {
        let prev = suited(cards.drop_last(), s);
        if cards.last().suit == s {
            prev.push(cards.last())
        } else {
            prev
        }
    }
}

/// The larger of two numbers.
pub open spec fn larger(a: nat, b: nat) -> nat {
    if a >= b {
        a
    } else {
        b
    }
}

/// The top of the highest straight within a single suit, or 0 when there is none.
pub open spec fn straight_flush_top(cards: Seq<Card>) -> nat {
    larger(
        larger(straight_top(suited(cards, Suit::Heart)), straight_top(suited(cards, Suit::Diamond))),
        larger(straight_top(suited(cards, Suit::Spade)), straight_top(suited(cards, Suit::Club))),
    )
}

/// The first suit (hearts, diamonds, spades, clubs) of which five cards or more are held.
pub open spec fn flush_suit(cards: Seq<Card>) -> Option<Suit> {
    if suited(cards, Suit::Heart).len() >= 5 {
        Some(Suit::Heart)
    } else if suited(cards, Suit::Diamond).len() >= 5 {
        Some(Suit::Diamond)
    } else if suited(cards, Suit::Spade).len() >= 5 {
        Some(Suit::Spade)
    } else if suited(cards, Suit::Club).len() >= 5 {
        Some(Suit::Club)
    } else {
        None
    }
}

/// The score of a set of cards: the kind of hand first (8 straight flush, 7 four of a kind,
/// 6 full house, 5 flush, 4 straight, 3 three of a kind, 2 two pair, 1 pair, 0 high card),
/// then the ranks that break ties: the top card of a straight, the five leading ranks of the
/// flush suit for a flush, the five leading ranks of the key otherwise.
pub open spec fn hand_score(cards: Seq<Card>) -> nat {
    let key = hand_key(cards);
    let category = key_category(key);
    let sf = straight_flush_top(cards);
    if sf > 0 {
        8 * 759375 + sf * 50625
    } else if category >= 6 {
        category * 759375 + key_digits(key)
    } else if flush_suit(cards) is Some {
        5 * 759375 + key_digits(hand_key(suited(cards, flush_suit(cards)->0)))
    } else if straight_top(cards) > 0 {
        4 * 759375 + straight_top(cards) * 50625
    } else {
        category * 759375 + key_digits(key)
    }
}

proof fn lemma_grouped_ranks_bounded(cards: Seq<Card>, c: nat, r: nat)
    requires
        r <= 14,
    ensures
        forall|i: int| 0 <= i < grouped_ranks(cards, c, r).len() ==> 2 <= #[trigger] grouped_ranks(cards, c, r)[i] <= 14,
    decreases c, r,
{
    let g = grouped_ranks(cards, c, r);
    if c == 0 {
        assert(g.len() == 0);
    } else if r < 2 {
        lemma_grouped_ranks_bounded(cards, (c - 1) as nat, 14);
        assert(g == grouped_ranks(cards, (c - 1) as nat, 14));
    } else {
        lemma_grouped_ranks_bounded(cards, c, (r - 1) as nat);
        let rest = grouped_ranks(cards, c, (r - 1) as nat);
        if multiplicity(cards, r) == c {
            let s = Seq::new(c, |i: int| r) + rest;
            assert(g == s);
            assert forall|i: int| 0 <= i < g.len() implies 2 <= #[trigger] g[i] <= 14 by {
                if i >= c {
                    assert(s[i] == rest[i - c]);
                } else {
                    assert(s[i] == r);
                }
            }
        } else {
            assert(g == rest);
        }
    }
}

impl Hand {
    /// An empty hand.
    pub fn new() -> (h: Hand)
        ensures
            h@ == Seq::<Card>::empty(),
    {
        Hand { cards: Vec::new() }
    }

    /// Adds a card to the hand.
    pub fn draw_card(&mut self, value: Card)
        ensures
            final(self)@ == old(self)@.push(value),
    {
        self.cards.push(value);
    }

    /// A copy of the cards in the hand, in the order they were drawn.
    pub fn get_cards(&self) -> (v: Vec<Card>)
        ensures
            v@ == self@,
    {
        let mut v: Vec<Card> = Vec::new();
        let n = self.cards.len();
        for i in 0..n
            invariant
                n == self@.len(),
                v@ == self@.take(i as int),
        {
            v.push(self.cards[i]);
            assert(self@.take(i + 1) == self@.take(i as int).push(self@[i as int]));
        }
        assert(self@.take(n as int) == self@);
        v
    }

    /// Number of cards in the hand.
    pub fn len(&self) -> (n: usize)
        ensures
            n == self@.len(),
    {
        self.cards.len()
    }

    /// How many cards of each rank the hand holds, indexed by rank.
    fn rank_counts(&self) -> (counts: Vec<usize>)
        ensures
            counts@.len() == 15,
            forall|r: int| 2 <= r < 15 ==> #[trigger] counts@[r] == rank_count(self@, r as nat),
    {
        let mut counts: Vec<usize> = Vec::new();
        for k in 0..15usize
            invariant
                counts@.len() == k,
                forall|r: int| 0 <= r < k ==> #[trigger] counts@[r] == 0,
        {
            counts.push(0);
        }
        let n = self.cards.len();
        for i in 0..n
            invariant
                n == self@.len(),
                counts@.len() == 15,
                forall|r: int| 2 <= r < 15 ==> #[trigger] counts@[r] == rank_count(self@.take(i as int), r as nat),
        {
            let r = self.cards[i].value.rank() as usize;
            assert(self@.take(i + 1).drop_last() == self@.take(i as int));
            assert forall|q: int| 2 <= q < 15 implies #[trigger] rank_count(self@.take(i + 1), q as nat) == rank_count(self@.take(i as int), q as nat) + if q == r { 1nat } else { 0nat } by {
            }
            proof {
                assert(counts@[r as int] == rank_count(self@.take(i as int), r as nat));
                assert(counts@[r as int] <= i) by {
                    lemma_rank_count_le_len(self@.take(i as int), r as nat);
                }
            }
            let cur = counts[r];
            counts.set(r, cur + 1);
        }
        assert(self@.take(n as int) == self@);
        counts
    }

    /// The key of the hand: see `hand_key`.
    fn key(&self) -> (key: Vec<u8>)
        ensures
            widen(key@) == hand_key(self@),
            forall|i: int| 0 <= i < key@.len() ==> 2 <= #[trigger] key@[i] <= 14,
    {
        let counts = self.rank_counts();
        let mut key: Vec<u8> = Vec::new();
        let mut c: usize = 4;
        let ghost cards = self@;
        while c > 0
            invariant
                c <= 4,
                counts@.len() == 15,
                forall|r: int| 2 <= r < 15 ==> #[trigger] counts@[r] == rank_count(cards, r as nat),
                widen(key@) + grouped_ranks(cards, c as nat, 14) == hand_key(cards),
            decreases c,
        {
            let mut r: usize = 14;
            while r >= 2
                invariant
                    1 <= c <= 4,
                    1 <= r <= 14,
                    counts@.len() == 15,
                    forall|q: int| 2 <= q < 15 ==> #[trigger] counts@[q] == rank_count(cards, q as nat),
                    widen(key@) + grouped_ranks(cards, c as nat, r as nat) == hand_key(cards),
                decreases r,
            {
                let cnt = counts[r];
                let m: usize = if cnt >= 4 { 4 } else { cnt };
                let ghost before = widen(key@);
                if m == c {
                    let mut j: usize = 0;
                    while j < c
                        invariant
                            j <= c,
                            2 <= r <= 14,
                            widen(key@) == before + Seq::new(j as nat, |i: int| r as nat),
                        decreases c - j,
                    {
                        let ghost prev = key@;
                        key.push(r as u8);
                        assert(key@ == prev.push(r as u8));
                        let ghost target = before + Seq::new((j + 1) as nat, |i: int| r as nat);
                        assert(widen(prev) == before + Seq::new(j as nat, |i: int| r as nat));
                        assert(widen(prev).len() == prev.len());
                        assert(widen(key@).len() == key@.len());
                        assert(key@.len() == prev.len() + 1);
                        assert(target.len() == widen(key@).len());
                        assert forall|i: int| 0 <= i < target.len() implies #[trigger] widen(key@)[i] == target[i] by {
                            if i < prev.len() {
                                assert(widen(prev)[i] == (before + Seq::new(j as nat, |i: int| r as nat))[i]);
                                assert(key@[i] == prev[i]);
                            } else {
                                assert(key@[i] == r as u8);
                            }
                        }
                        assert(widen(key@) =~= target);
                        j = j + 1;
                    }
                    assert(before + (Seq::new(c as nat, |i: int| r as nat) + grouped_ranks(cards, c as nat, (r - 1) as nat))
                        == (before + Seq::new(c as nat, |i: int| r as nat)) + grouped_ranks(cards, c as nat, (r - 1) as nat));
                }
                r = r - 1;
            }
            c = c - 1;
        }
        proof {
            assert(widen(key@) == hand_key(cards));
            lemma_grouped_ranks_bounded(cards, 4, 14);
        }
        proof {
            assert forall|i: int| 0 <= i < key@.len() implies 2 <= #[trigger] key@[i] <= 14 by {
                assert(widen(key@)[i] == key@[i] as nat);
            }
        }
        key
    }

    /// The kind of hand a key shows: see `key_category`.
    fn category_of(key: &Vec<u8>) -> (c: u32)
        ensures
            c == key_category(widen(key@)),
    {
        let len = key.len();
        let category: u32 = if len >= 4 && key[0] == key[3] {
            7
        } else if len >= 5 && key[0] == key[2] && key[3] == key[4] {
            6
        } else if len >= 3 && key[0] == key[2] {
            3
        } else if len >= 4 && key[0] == key[1] && key[2] == key[3] {
            2
        } else if len >= 2 && key[0] == key[1] {
            1
        } else {
            0
        };
        proof {
            let k = widen(key@);
            assert(k.len() == len);
            assert(forall|i: int| 0 <= i < len ==> k[i] == key@[i] as nat);
        }
        category
    }

    /// The five leading ranks of a key as one number: see `key_digits`.
    fn digits_of(key: &Vec<u8>) -> (d: u32)
        requires
            forall|i: int| 0 <= i < key@.len() ==> #[trigger] key@[i] <= 14,
        ensures
            d == key_digits(widen(key@)),
            d <= 759374,
    {
        let len = key.len();
        let d0: u32 = if len > 0 { key[0] as u32 } else { 0 };
        let d1: u32 = if len > 1 { key[1] as u32 } else { 0 };
        let d2: u32 = if len > 2 { key[2] as u32 } else { 0 };
        let d3: u32 = if len > 3 { key[3] as u32 } else { 0 };
        let d4: u32 = if len > 4 { key[4] as u32 } else { 0 };
        proof {
            let k = widen(key@);
            assert(k.len() == len);
            assert(forall|i: int| 0 <= i < len ==> k[i] == key@[i] as nat);
        }
        d0 * 50625 + d1 * 3375 + d2 * 225 + d3 * 15 + d4
    }

    /// The top of the highest straight held, or 0: see `straight_top`.
    fn straight_top(&self) -> (t: u8)
        ensures
            t == straight_top(self@),
            t <= 14,
    {
        let counts = self.rank_counts();
        let mut r: usize = 14;
        while r >= 5
            invariant
                4 <= r <= 14,
                counts@.len() == 15,
                forall|q: int| 2 <= q < 15 ==> #[trigger] counts@[q] == rank_count(self@, q as nat),
                straight_top(self@) == straight_top_below(self@, r as nat),
            decreases r,
        {
            let low = if r == 5 { 14 } else { r - 4 };
            if counts[r] > 0 && counts[r - 1] > 0 && counts[r - 2] > 0 && counts[r - 3] > 0 && counts[low] > 0 {
                return r as u8;
            }
            r = r - 1;
        }
        0
    }

    /// The cards of suit `s`, as a hand of their own.
    fn suited(&self, s: Suit) -> (h: Hand)
        ensures
            h@ == suited(self@, s),
    {
        let mut cards: Vec<Card> = Vec::new();
        let n = self.cards.len();
        for i in 0..n
            invariant
                n == self@.len(),
                cards@ == suited(self@.take(i as int), s),
        {
            assert(self@.take(i + 1).drop_last() == self@.take(i as int));
            let c = self.cards[i];
            if c.suit == s {
                cards.push(c);
            }
        }
        assert(self@.take(n as int) == self@);
        Hand { cards }
    }

    /// Ranks the hand: see `hand_score`.
    pub fn determine_hand(&self) -> (t: HandType)
        ensures
            t.score == hand_score(self@),
    {
        let key = self.key();
        let category = Self::category_of(&key);
        let hearts = self.suited(Suit::Heart);
        let diamonds = self.suited(Suit::Diamond);
        let spades = self.suited(Suit::Spade);
        let clubs = self.suited(Suit::Club);
        let h = hearts.straight_top();
        let d = diamonds.straight_top();
        let sp = spades.straight_top();
        let c = clubs.straight_top();
        let hd = if h >= d { h } else { d };
        let sc = if sp >= c { sp } else { c };
        let sf = if hd >= sc { hd } else { sc };
        if sf > 0 {
            return HandType { score: 8 * 759375 + (sf as u32) * 50625 };
        }
        if category >= 6 {
            return HandType { score: category * 759375 + Self::digits_of(&key) };
        }
        let flush = if hearts.len() >= 5 {
            Some(hearts)
        } else if diamonds.len() >= 5 {
            Some(diamonds)
        } else if spades.len() >= 5 {
            Some(spades)
        } else if clubs.len() >= 5 {
            Some(clubs)
        } else {
            None
        };
        if let Some(f) = flush {
            let fkey = f.key();
            return HandType { score: 5 * 759375 + Self::digits_of(&fkey) };
        }
        let top = self.straight_top();
        if top > 0 {
            return HandType { score: 4 * 759375 + (top as u32) * 50625 };
        }
        HandType { score: category * 759375 + Self::digits_of(&key) }
    }
}

/// The ranks of a key, as numbers.
pub open spec fn widen(s: Seq<u8>) -> Seq<nat> {
    Seq::new(s.len(), |i: int| s[i] as nat)
}

proof fn lemma_rank_count_le_len(cards: Seq<Card>, r: nat)
    ensures
        rank_count(cards, r) <= cards.len(),
    decreases cards.len(),
{
    if cards.len() > 0 {
        lemma_rank_count_le_len(cards.drop_last(), r);
    }
}

impl Clone for Hand {
    /// A hand holding the same cards.
    fn clone(&self) -> (h: Hand)
        ensures
            h@ == self@,
    {
        Hand { cards: self.get_cards() }
    }
}

impl PartialEq for Hand {
    /// Two hands are equal when they hold the same cards in the same order.
    fn eq(&self, other: &Hand) -> (b: bool) {
        let n = self.cards.len();
        if n != other.cards.len() {
            return false;
        }
        let mut i: usize = 0;
        while i < n
            invariant
                n == self@.len(),
                n == other@.len(),
                i <= n,
                forall|j: int| 0 <= j < i ==> self@[j] == other@[j],
            decreases n - i,
        {
            if self.cards[i] != other.cards[i] {
                return false;
            }
            i = i + 1;
        }
        assert(self@ =~= other@);
        true
    }
}

impl Eq for Hand {}

impl vstd::std_specs::cmp::PartialEqSpecImpl for Hand {
    open spec fn obeys_eq_spec() -> bool {
        true
    }

    open spec fn eq_spec(&self, other: &Hand) -> bool {
        self@ == other@
    }
}

impl Default for Hand {
    fn default() -> (h: Hand)
        ensures
            h@ == Seq::<Card>::empty(),
    {
        Hand::new()
    }
}

} // verus!
