//! Scratchcards: points for the numbers a card has that win, and cards won
//! as copies of the cards that follow.
use vstd::prelude::*;

verus! {

/// A card: its winning numbers and the numbers it has.
#[derive(Debug, Default)]
pub struct Card {
    pub winning: Vec<u32>,
    pub actual: Vec<u32>,
}

impl Card {
    /// Number of the first `k` numbers the card has that are winning numbers.
    pub open spec fn matches_below(&self, k: int) -> nat
        decreases k,
    {
        if k <= 0 {
            0
        } else {
            self.matches_below(k - 1) + if self.winning@.contains(self.actual@[k - 1]) {
                1nat
            } else {
                0nat
            }
        }
    }

    pub open spec fn matches(&self) -> nat {
        self.matches_below(self.actual@.len() as int)
    }

    /// One point for the first match, doubled for each further one.
    pub open spec fn points(&self) -> nat {
        if self.matches() == 0 {
            0
        } else {
            pow2((self.matches() - 1) as nat)
        }
    }

    fn is_winning(&self, x: u32) -> (r: bool)
        ensures
            r == self.winning@.contains(x),
    {
        let mut i: usize = 0;
        while i < self.winning.len()
            invariant
                i <= self.winning@.len(),
                forall|k: int| 0 <= k < i ==> self.winning@[k] != x,
            decreases self.winning@.len() - i,
        {
            if self.winning[i] == x {
                return true;
            }
            i = i + 1;
        }
        false
    }

    /// Number of the card's numbers that are winning numbers.
    pub fn count_matches(&self) -> (r: usize)
        ensures
            r == self.matches(),
    {
        let mut n: usize = 0;
        let mut i: usize = 0;
        while i < self.actual.len()
            invariant
                i <= self.actual@.len(),
                n == self.matches_below(i as int),
                n <= i,
            decreases self.actual@.len() - i,
        {
            if self.is_winning(self.actual[i]) {
                n = n + 1;
            }
            i = i + 1;
        }
        n
    }
}

pub open spec fn pow2(n: nat) -> nat
    decreases n,
{
    if n == 0 {
        1
    } else {
        2 * pow2((n - 1) as nat)
    }
}

/// Sum of the points of the first `n` cards.
pub open spec fn points_sum(cards: Seq<Card>, n: int) -> nat
    decreases n,
{
    if n <= 0 {
        0
    } else {
        points_sum(cards, n - 1) + cards[n - 1].points()
    }
}

fn card_points(card: &Card) -> (r: Option<u64>)
    ensures
        r is Some <==> card.points() <= u64::MAX,
        r matches Some(v) ==> v == card.points(),
{
    let m = card.count_matches();
    if m == 0 {
        return Some(0);
    }
    let mut v: u64 = 1;
    let mut k: usize = 1;
    while k < m
        invariant
            1 <= k <= m,
            m == card.matches(),
            v == pow2((k - 1) as nat),
        decreases m - k,
    {
        v = match v.checked_mul(2) {
            Some(x) => x,
            None => {
                proof {
                    lemma_pow2_grows(k as nat, (m - 1) as nat);
                }
                return None;
            },
        };
        k = k + 1;
    }
    Some(v)
}

proof fn lemma_pow2_grows(a: nat, b: nat)
    requires
        a <= b,
    ensures
        pow2(a) <= pow2(b),
    decreases b - a,
{
    if a < b {
        lemma_pow2_grows(a, (b - 1) as nat);
    }
}

proof fn lemma_points_sum_grows(cards: Seq<Card>, a: int, b: int)
    requires
        0 <= a <= b,
    ensures
        points_sum(cards, a) <= points_sum(cards, b),
    decreases b - a,
{
    if a < b {
        lemma_points_sum_grows(cards, a, b - 1);
    }
}

/// Sum of the points of all cards; `None` when it exceeds `u64::MAX`.
pub fn solve_part1(input: &[Card]) -> (r: Option<u64>)
    ensures
        r is Some <==> points_sum(input@, input@.len() as int) <= u64::MAX,
        r matches Some(v) ==> v == points_sum(input@, input@.len() as int),
{
    let mut sum: u64 = 0;
    let mut i: usize = 0;
    while i < input.len()
        invariant
            i <= input@.len(),
            sum == points_sum(input@, i as int),
        decreases input@.len() - i,
    {
        let p = match card_points(&input[i]) {
            Some(p) => p,
            None => {
                proof {
                    lemma_points_sum_grows(input@, i as int + 1, input@.len() as int);
                }
                return None;
            },
        };
        sum = match sum.checked_add(p) {
            Some(s) => s,
            None => {
                proof {
                    lemma_points_sum_grows(input@, i as int + 1, input@.len() as int);
                }
                return None;
            },
        };
        i = i + 1;
    }
    Some(sum)
}

/// How many copies of card `i` there are: the original, and one more for
/// each copy of an earlier card `k` whose matches reach past it to `i`.
pub open spec fn copies(ms: Seq<nat>, i: int) -> nat
    decreases i, i + 1,
{
    if i < 0 {
        0
    } else {
        1 + won_by(ms, i, i)
    }
}

/// Copies of card `i` won by the cards before `j`.
pub open spec fn won_by(ms: Seq<nat>, i: int, j: int) -> nat
    decreases i, j,
{
    if j <= 0 || j > i {
        0
    } else {
        let k = j - 1;
        won_by(ms, i, j - 1) + if i <= k + ms[k] {
            copies(ms, k)
        } else {
            0
        }
    }
}

/// The matches of each card.
pub open spec fn match_counts(cards: Seq<Card>) -> Seq<nat> {
    Seq::new(cards.len(), |i: int| cards[i].matches())
}

/// Sum of the copies of the first `n` cards.
pub open spec fn copies_sum(ms: Seq<nat>, n: int) -> nat
    decreases n,
{
    if n <= 0 {
        0
    } else {
        copies_sum(ms, n - 1) + copies(ms, n - 1)
    }
}

proof fn lemma_won_by_grows(ms: Seq<nat>, i: int, a: int, b: int)
    requires
        0 <= a <= b <= i,
    ensures
        won_by(ms, i, a) <= won_by(ms, i, b),
    decreases b - a,
{
    if a < b {
        lemma_won_by_grows(ms, i, a, b - 1);
    }
}

proof fn lemma_copies_sum_grows(ms: Seq<nat>, a: int, b: int)
    requires
        0 <= a <= b,
    ensures
        copies_sum(ms, a) <= copies_sum(ms, b),
    decreases b - a,
{
    if a < b {
        lemma_copies_sum_grows(ms, a, b - 1);
    }
}

/// Total number of cards once every card has won its copies; `None` when a
/// count exceeds `u64::MAX`.
pub fn solve_part2(input: &[Card]) -> (r: Option<u64>)
    ensures
        r matches Some(v) ==> v == copies_sum(match_counts(input@), input@.len() as int),
        r is None ==> copies_sum(match_counts(input@), input@.len() as int) > u64::MAX || exists|i: int|
            0 <= i < input@.len() && copies(match_counts(input@), i) > u64::MAX,
{
    let ghost ms = match_counts(input@);
    let n = input.len();
    let mut pile: Vec<u64> = Vec::new();
    while pile.len() < n
        invariant
            pile@.len() <= n,
            forall|i: int| 0 <= i < pile@.len() ==> pile@[i] == 1,
        decreases n - pile@.len(),
    {
        pile.push(1);
    }
    let mut idx: usize = 0;
    while idx < n
        invariant
            n == input@.len(),
            ms == match_counts(input@),
            pile@.len() == n,
            idx <= n,
            forall|i: int| 0 <= i < n ==> #[trigger] pile@[i] == 1 + won_by(ms, i, if i < idx { i } else { idx as int }),
        decreases n - idx,
    {
        let m = input[idx].count_matches();
        let own = pile[idx];
        assert(own == copies(ms, idx as int));
        let mut i = idx + 1;
        while i < n && i - idx <= m
            invariant
                n == input@.len(),
                ms == match_counts(input@),
                pile@.len() == n,
                idx < n,
                idx < i,
                m == ms[idx as int],
                own == copies(ms, idx as int),
                i - idx <= m + 1,
                forall|q: int| 0 <= q < n ==> #[trigger] pile@[q] == 1 + won_by(ms, q, if q <= idx { q } else if q < i { idx + 1 } else { idx as int }),
            decreases n - i,
        {
            let add = match pile[i].checked_add(own) {
                Some(v) => v,
                None => {
                    proof {
                        assert(won_by(ms, i as int, idx + 1) == won_by(ms, i as int, idx as int) + own);
                        lemma_won_by_grows(ms, i as int, idx + 1, i as int);
                        assert(copies(ms, i as int) > u64::MAX);
                    }
                    return None;
                },
            };
            pile[i] = add;
            proof {
                assert(won_by(ms, i as int, idx + 1) == won_by(ms, i as int, idx as int) + own);
            }
            i = i + 1;
        }
        proof {
            assert forall|q: int| 0 <= q < n implies #[trigger] pile@[q] == 1 + won_by(ms, q, if q < idx + 1 { q } else { idx + 1 }) by {
                if q > idx && q >= i {
                    assert(!(q <= idx + ms[idx as int]));
                    assert(won_by(ms, q, idx + 1) == won_by(ms, q, idx as int));
                }
            }
        }
        idx = idx + 1;
    }
    let mut total: u64 = 0;
    let mut k: usize = 0;
    while k < n
        invariant
            n == input@.len(),
            ms == match_counts(input@),
            pile@.len() == n,
            k <= n,
            forall|i: int| 0 <= i < n ==> #[trigger] pile@[i] == copies(ms, i),
            total == copies_sum(ms, k as int),
        decreases n - k,
    {
        total = match total.checked_add(pile[k]) {
            Some(t) => t,
            None => {
                proof {
                    lemma_copies_sum_grows(ms, k as int + 1, n as int);
                }
                return None;
            },
        };
        k = k + 1;
    }
    Some(total)
}

} // verus!
