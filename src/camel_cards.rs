//! Hands of five cards, ranked by type and then card by card, with jokers
//! that stand in for whatever card helps the hand most.
use crate::text::{
    copy_range, digits_value, find_line_end, is_number, lemma_line_end_bounds, lines, lines_from,
    parse_decimal, SPACE,
};
use vstd::prelude::*;
use vstd::string::StringSliceAdditionalSpecFns;

verus! {

/// A card by its strength: the joker `J` is 0, then `2` to `9`, `T`, `Q`, `K`
/// and `A` are 1 to 12.
#[derive(Debug, Clone, Copy, PartialEq, Eq, Structural)]
pub struct Card {
    pub value: u8,
}

/// The strength of a card symbol.
pub open spec fn card_value(c: u8) -> Option<u8> {
    if c == ('J' as u8) {
        Some(0)
    } else if ('2' as u8) <= c <= ('9' as u8) {
        Some((c - ('2' as u8) + 1) as u8)
    } else if c == ('T' as u8) {
        Some(9)
    } else if c == ('Q' as u8) {
        Some(10)
    } else if c == ('K' as u8) {
        Some(11)
    } else if c == ('A' as u8) {
        Some(12)
    } else {
        None
    }
}

impl Card {
    pub fn from_symbol(c: u8) -> (r: Option<Card>)
        ensures
            r matches Some(card) ==> card_value(c) == Some(card.value),
            r is None ==> card_value(c) is None,
    {
        if c == ('J' as u8) {
            Some(Card { value: 0 })
        } else if ('2' as u8) <= c && c <= ('9' as u8) {
            Some(Card { value: c - ('2' as u8) + 1 })
        } else if c == ('T' as u8) {
            Some(Card { value: 9 })
        } else if c == ('Q' as u8) {
            Some(Card { value: 10 })
        } else if c == ('K' as u8) {
            Some(Card { value: 11 })
        } else if c == ('A' as u8) {
            Some(Card { value: 12 })
        } else {
            None
        }
    }
}

/// The type of a hand, weakest first.
#[derive(Debug, Clone, Copy, PartialEq, Eq, Structural)]
pub enum HandType {
    HighCard,
    OnePair,
    TwoPair,
    ThreeOfAKind,
    FullHouse,
    FourOfAKind,
    FiveOfAKind,
}

impl HandType {
    pub open spec fn rank(self) -> int {
        match self {
            HandType::HighCard => 0,
            HandType::OnePair => 1,
            HandType::TwoPair => 2,
            HandType::ThreeOfAKind => 3,
            HandType::FullHouse => 4,
            HandType::FourOfAKind => 5,
            HandType::FiveOfAKind => 6,
        }
    }

    pub fn strength(&self) -> (r: u8)
        ensures
            r == self.rank(),
    {
        match self {
            HandType::HighCard => 0,
            HandType::OnePair => 1,
            HandType::TwoPair => 2,
            HandType::ThreeOfAKind => 3,
            HandType::FullHouse => 4,
            HandType::FourOfAKind => 5,
            HandType::FiveOfAKind => 6,
        }
    }
}

/// Number of the cards in `cards[0..n]` of strength `v`.
pub open spec fn count_of(cards: Seq<Card>, v: int, n: int) -> nat
    decreases n,
{
    if n <= 0 {
        0
    } else {
        count_of(cards, v, n - 1) + if cards[n - 1].value == v {
            1nat
        } else {
            0nat
        }
    }
}

/// Number of strengths among `1..v` that occur in the hand.
pub open spec fn kinds_below(cards: Seq<Card>, v: int) -> nat
    decreases v,
{
    if v <= 1 {
        0
    } else {
        kinds_below(cards, v - 1) + if count_of(cards, v - 1, 5) > 0 {
            1nat
        } else {
            0nat
        }
    }
}

/// Largest count among the strengths `1..v`.
pub open spec fn most_below(cards: Seq<Card>, v: int) -> nat
    decreases v,
{
    if v <= 1 {
        0
    } else {
        let m = most_below(cards, v - 1);
        let c = count_of(cards, v - 1, 5);
        if c > m {
            c
        } else {
            m
        }
    }
}

/// The type of a hand from the number of distinct cards and the size of the
/// largest group.
pub open spec fn type_of_groups(distinct: nat, largest: nat) -> HandType {
    if distinct <= 1 {
        HandType::FiveOfAKind
    } else if distinct == 2 {
        if largest >= 4 {
            HandType::FourOfAKind
        } else {
            HandType::FullHouse
        }
    } else if distinct == 3 {
        if largest >= 3 {
            HandType::ThreeOfAKind
        } else {
            HandType::TwoPair
        }
    } else if distinct == 4 {
        HandType::OnePair
    } else {
        HandType::HighCard
    }
}

/// The type of a hand, where the jokers join the largest group of other
/// cards.
pub open spec fn hand_type(cards: Seq<Card>) -> HandType {
    let jokers = count_of(cards, 0, 5);
    let kinds = kinds_below(cards, 13);
    let most = most_below(cards, 13);
    if kinds == 0 {
        HandType::FiveOfAKind
    } else {
        type_of_groups(kinds, most + jokers)
    }
}

/// Five cards and a bid.
#[derive(Debug, Clone, Copy, PartialEq, Eq)]
pub struct Hand {
    pub cards: [Card; 5],
    pub bid: u32,
}

impl Hand {
    pub fn count(&self, v: u8) -> (r: u8)
        ensures
            r == count_of(self.cards@, v as int, 5),
    {
        let mut n: u8 = 0;
        let mut i: usize = 0;
        while i < 5
            invariant
                i <= 5,
                self.cards@.len() == 5,
                n == count_of(self.cards@, v as int, i as int),
                n <= i,
            decreases 5 - i,
        {
            if self.cards[i].value == v {
                n = n + 1;
            }
            i = i + 1;
        }
        n
    }

    /// The type of the hand, jokers counted with the largest group.
    pub fn hand_type(&self) -> (r: HandType)
        ensures
            r == hand_type(self.cards@),
    {
        let jokers = self.count(0);
        let mut kinds: u8 = 0;
        let mut most: u8 = 0;
        let mut v: u8 = 1;
        while v < 13
            invariant
                1 <= v <= 13,
                self.cards@.len() == 5,
                kinds == kinds_below(self.cards@, v as int),
                most == most_below(self.cards@, v as int),
                kinds < v,
                most <= 5,
            decreases 13 - v,
        {
            let c = self.count(v);
            proof {
                lemma_count_bound(self.cards@, v as int, 5);
            }
            if c > 0 {
                kinds = kinds + 1;
            }
            if c > most {
                most = c;
            }
            v = v + 1;
        }
        proof {
            lemma_count_bound(self.cards@, 0, 5);
        }
        if kinds == 0 {
            return HandType::FiveOfAKind;
        }
        let largest = most + jokers;
        if kinds <= 1 {
            HandType::FiveOfAKind
        } else if kinds == 2 {
            if largest >= 4 {
                HandType::FourOfAKind
            } else {
                HandType::FullHouse
            }
        } else if kinds == 3 {
            if largest >= 3 {
                HandType::ThreeOfAKind
            } else {
                HandType::TwoPair
            }
        } else if kinds == 4 {
            HandType::OnePair
        } else {
            HandType::HighCard
        }
    }
}

/// The cards of `a` are weaker than those of `b`: at the first card where
/// they differ, `a`'s is weaker.
pub open spec fn cards_less(a: Seq<Card>, b: Seq<Card>) -> bool {
    exists|i: int|
        0 <= i < 5 && #[trigger] a[i].value < b[i].value && forall|j: int|
            0 <= j < i ==> a[j].value == b[j].value
}

pub open spec fn same_cards(a: Seq<Card>, b: Seq<Card>) -> bool {
    forall|j: int| 0 <= j < 5 ==> a[j].value == b[j].value
}

/// `a` is a weaker hand than `b`: of a lower type, or of the same type with
/// weaker cards.
pub open spec fn hand_less(a: Hand, b: Hand) -> bool {
    ||| hand_type(a.cards@).rank() < hand_type(b.cards@).rank()
    ||| hand_type(a.cards@).rank() == hand_type(b.cards@).rank() && cards_less(a.cards@, b.cards@)
}

/// Rank of hand `i` among `hands`, the weakest being 1: one more than the
/// hands weaker than it and the equal hands before it among the first `n`.
pub open spec fn rank_among(hands: Seq<Hand>, i: int, n: int) -> nat
    decreases n,
{
    if n <= 0 {
        1
    } else {
        let j = n - 1;
        rank_among(hands, i, n - 1) + if hand_less(hands[j], hands[i]) || (j < i && same_cards(
            hands[j].cards@,
            hands[i].cards@,
        )) {
            1nat
        } else {
            0nat
        }
    }
}

/// Sum over the first `n` hands of bid times rank.
pub open spec fn winnings(hands: Seq<Hand>, n: int) -> nat
    decreases n,
{
    if n <= 0 {
        0
    } else {
        winnings(hands, n - 1) + (hands[n - 1].bid as nat) * rank_among(hands, n - 1, hands.len() as int)
    }
}

impl Hand {
    pub fn is_weaker(&self, other: &Hand) -> (r: bool)
        ensures
            r == hand_less(*self, *other),
    {
        let ta = self.hand_type();
        let tb = other.hand_type();
        let a = ta.strength();
        let b = tb.strength();
        if a != b {
            return a < b;
        }
        let mut i: usize = 0;
        while i < 5
            invariant
                hand_type(self.cards@).rank() == hand_type(other.cards@).rank(),
                i <= 5,
                self.cards@.len() == 5,
                other.cards@.len() == 5,
                forall|j: int| 0 <= j < i ==> self.cards@[j].value == other.cards@[j].value,
            decreases 5 - i,
        {
            if self.cards[i].value != other.cards[i].value {
                proof {
                    if self.cards@[i as int].value < other.cards@[i as int].value {
                        assert(cards_less(self.cards@, other.cards@));
                    }
                    if self.cards@[i as int].value > other.cards@[i as int].value {
                        assert forall|k: int|
                            0 <= k < 5 && #[trigger] self.cards@[k].value < other.cards@[k].value
                                implies !(forall|j: int| 0 <= j < k ==> self.cards@[j].value == other.cards@[j].value) by {
                            if k > i {
                                assert(self.cards@[i as int].value != other.cards@[i as int].value);
                            }
                        }
                        assert(!cards_less(self.cards@, other.cards@));
                    }
                }
                return self.cards[i].value < other.cards[i].value;
            }
            i = i + 1;
        }
        proof {
            assert forall|k: int|
                0 <= k < 5 implies !(#[trigger] self.cards@[k].value < other.cards@[k].value) by {}
        }
        false
    }

    pub fn has_same_cards(&self, other: &Hand) -> (r: bool)
        ensures
            r == same_cards(self.cards@, other.cards@),
    {
        let mut i: usize = 0;
        while i < 5
            invariant
                i <= 5,
                self.cards@.len() == 5,
                other.cards@.len() == 5,
                forall|j: int| 0 <= j < i ==> self.cards@[j].value == other.cards@[j].value,
            decreases 5 - i,
        {
            if self.cards[i].value != other.cards[i].value {
                return false;
            }
            i = i + 1;
        }
        true
    }
}

fn rank_of(hands: &[Hand], i: usize) -> (r: u64)
    requires
        i < hands@.len(),
    ensures
        r == rank_among(hands@, i as int, hands@.len() as int),
{
    let mut below: usize = 0;
    let mut j: usize = 0;
    while j < hands.len()
        invariant
            i < hands@.len(),
            j <= hands@.len(),
            below + 1 == rank_among(hands@, i as int, j as int),
            below <= j,
            j > i ==> below < j,
        decreases hands@.len() - j,
    {
        if hands[j].is_weaker(&hands[i]) || (j < i && hands[j].has_same_cards(&hands[i])) {
            below = below + 1;
        }
        j = j + 1;
    }
    below as u64 + 1
}

/// Total winnings: each hand's bid times its rank, weakest first, equal
/// hands ranked in their order; `None` when it exceeds `u64::MAX`.
pub fn total_winnings(hands: &[Hand]) -> (r: Option<u64>)
    ensures
        match r {
            Some(v) => v == winnings(hands@, hands@.len() as int),
            None => exists|k: int| 0 <= k <= hands@.len() && winnings(hands@, k) > u64::MAX,
        },
{
    let mut total: u64 = 0;
    let mut i: usize = 0;
    while i < hands.len()
        invariant
            i <= hands@.len(),
            total == winnings(hands@, i as int),
        decreases hands@.len() - i,
    {
        let rank = rank_of(hands, i);
        let gain = match (hands[i].bid as u64).checked_mul(rank) {
            Some(g) => g,
            None => {
                assert(winnings(hands@, i as int + 1) > u64::MAX) by (nonlinear_arith)
                    requires
                        winnings(hands@, i as int + 1) == total + hands@[i as int].bid * rank,
                        hands@[i as int].bid * rank > u64::MAX,
                        total >= 0,
                ;
                return None;
            },
        };
        total = match total.checked_add(gain) {
            Some(t) => t,
            None => {
                assert(winnings(hands@, i as int + 1) > u64::MAX);
                return None;
            },
        };
        i = i + 1;
    }
    Some(total)
}

/// A line of five card symbols, a space and a bid that fits in `u32`.
pub open spec fn hand_line(line: Seq<u8>) -> bool {
    &&& line.len() >= 7
    &&& line[5] == SPACE
    &&& forall|i: int| 0 <= i < 5 ==> #[trigger] card_value(line[i]) is Some
    &&& is_number(line.skip(6))
    &&& digits_value(line.skip(6)) <= u32::MAX
}

/// `h` is the hand that `line` writes.
pub open spec fn reads_hand(h: Hand, line: Seq<u8>) -> bool {
    &&& forall|i: int| 0 <= i < 5 ==> #[trigger] card_value(line[i]) == Some(h.cards@[i].value)
    &&& h.bid == digits_value(line.skip(6))
}

fn card_at(line: &[u8], i: usize) -> (r: Option<Card>)
    requires
        i < line@.len(),
    ensures
        r matches Some(c) ==> card_value(line@[i as int]) == Some(c.value),
        r is None ==> card_value(line@[i as int]) is None,
{
    Card::from_symbol(line[i])
}

fn parse_hand(line: &[u8]) -> (r: Option<Hand>)
    ensures
        r is Some <==> hand_line(line@),
        r matches Some(h) ==> reads_hand(h, line@),
{
    if line.len() < 7 || line[5] != SPACE {
        return None;
    }
    let c0 = match card_at(line, 0) {
        Some(c) => c,
        None => return None,
    };
    let c1 = match card_at(line, 1) {
        Some(c) => c,
        None => return None,
    };
    let c2 = match card_at(line, 2) {
        Some(c) => c,
        None => return None,
    };
    let c3 = match card_at(line, 3) {
        Some(c) => c,
        None => return None,
    };
    let c4 = match card_at(line, 4) {
        Some(c) => c,
        None => return None,
    };
    assert(line@.skip(6) =~= line@.subrange(6, line@.len() as int));
    let bid = match parse_decimal(line, 6, line.len(), u32::MAX as u64) {
        Some(v) => v as u32,
        None => return None,
    };
    let h = Hand { cards: [c0, c1, c2, c3, c4], bid };
    assert(h.cards@[0] == c0 && h.cards@[1] == c1 && h.cards@[2] == c2 && h.cards@[3] == c3
        && h.cards@[4] == c4);
    Some(h)
}

/// Reads one hand per line: five card symbols, a space and the bid.
pub fn input_generator(input: &str) -> (r: Option<Vec<Hand>>)
    ensures
        r is Some <==> forall|y: int|
            0 <= y < lines(input.spec_bytes()).len() ==> #[trigger] hand_line(lines(input.spec_bytes())[y]),
        r matches Some(v) ==> v@.len() == lines(input.spec_bytes()).len() && forall|y: int|
            0 <= y < v@.len() ==> reads_hand(#[trigger] v@[y], lines(input.spec_bytes())[y]),
{
    let b = input.as_bytes();
    let ghost ls = lines(b@);
    let n = b.len();
    let mut res: Vec<Hand> = Vec::new();
    let mut p: usize = 0;
    let ghost mut done: Seq<Seq<u8>> = Seq::empty();
    while p < n
        invariant
            n == b@.len(),
            b@ == input.spec_bytes(),
            p <= n,
            ls == lines(b@),
            ls == done + lines_from(b@, p as int),
            res@.len() == done.len(),
            forall|y: int| 0 <= y < done.len() ==> #[trigger] hand_line(done[y]),
            forall|y: int| 0 <= y < done.len() ==> reads_hand(#[trigger] res@[y], done[y]),
        decreases n - p,
    {
        let e = find_line_end(b, p);
        proof {
            lemma_line_end_bounds(b@, p as int);
        }
        let line = copy_range(b, p, e);
        assert(ls[done.len() as int] == line@);
        match parse_hand(line.as_slice()) {
            Some(h) => {
                res.push(h);
            },
            None => {
                assert(!hand_line(ls[done.len() as int]));
                return None;
            },
        }
        proof {
            done = done.push(line@);
        }
        p = if e < n {
            e + 1
        } else {
            n
        };
    }
    assert(ls =~= done);
    Some(res)
}

pub proof fn lemma_count_bound(cards: Seq<Card>, v: int, n: int)
    requires
        n >= 0,
    ensures
        count_of(cards, v, n) <= n,
    decreases n,
{
    if n > 0 {
        lemma_count_bound(cards, v, n - 1);
    }
}

} // verus!
