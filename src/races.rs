//! Boat races: a button held for some milliseconds sets the speed for the
//! rest of the race.
use crate::text::{
    copy_range, digits_value, find_line_end, is_digit, lemma_line_end_bounds, lines, lines_from,
    parse_decimal,
};
use vstd::prelude::*;
use vstd::string::StringSliceAdditionalSpecFns;

verus! {

/// A race: its length in milliseconds and the record distance.
#[derive(Debug, Clone, Copy, PartialEq, Eq, Structural)]
pub struct Race {
    pub time: u64,
    pub distance: u64,
}

/// Distance covered when the button is held for `hold` of `time` milliseconds.
pub open spec fn travelled(time: int, hold: int) -> int {
    (time - hold) * hold
}

impl Race {
    /// Number of hold times in `1..upto` that beat the record.
    pub open spec fn wins_below(&self, upto: int) -> nat
        decreases upto,
    {
        if upto <= 1 {
            0
        } else {
            self.wins_below(upto - 1) + if travelled(self.time as int, upto - 1) > self.distance {
                1nat
            } else {
                0nat
            }
        }
    }

    /// Number of hold times that beat the record.
    pub fn ways_to_win(&self) -> (r: u64)
        ensures
            r == self.wins_below(self.time as int),
    {
        let mut count: u64 = 0;
        let mut hold: u64 = 1;
        if self.time == 0 {
            return 0;
        }
        while hold < self.time
            invariant
                1 <= hold <= self.time,
                count == self.wins_below(hold as int),
                count < hold,
            decreases self.time - hold,
        {
            assert(((self.time - hold) as int) * (hold as int) <= u128::MAX) by (nonlinear_arith)
                requires
                    hold <= u64::MAX,
                    self.time - hold <= u64::MAX,
                    0 <= self.time - hold,
                    0 <= hold,
            ;
            let d = ((self.time - hold) as u128) * (hold as u128);
            if d > self.distance as u128 {
                count = count + 1;
            }
            hold = hold + 1;
        }
        count
    }
}

/// Product of the ways to win of all races; `None` when it exceeds `u64::MAX`.
pub fn product_of_ways(races: &[Race]) -> (r: Option<u64>)
    ensures
        match r {
            Some(v) => v == ways_product(races@, races@.len() as int),
            None => exists|k: int| 0 <= k <= races@.len() && ways_product(races@, k) > u64::MAX,
        },
{
    let mut acc: u64 = 1;
    let mut i: usize = 0;
    while i < races.len()
        invariant
            i <= races@.len(),
            acc == ways_product(races@, i as int),
        decreases races@.len() - i,
    {
        let w = races[i].ways_to_win();
        acc = match acc.checked_mul(w) {
            Some(v) => v,
            None => {
                assert(ways_product(races@, i as int + 1) > u64::MAX);
                return None;
            },
        };
        i = i + 1;
    }
    Some(acc)
}

/// Product of the ways to win of the first `n` races.
pub open spec fn ways_product(races: Seq<Race>, n: int) -> nat
    decreases n,
{
    if n <= 0 {
        1
    } else {
        ways_product(races, n - 1) * races[n - 1].wins_below(races[n - 1].time as int)
    }
}

// Reading races.

/// Index of the first digit at or after `p`, or the length of `s`.
pub open spec fn next_digit(s: Seq<u8>, p: int) -> int
    decreases s.len() - p,
{
    if p >= s.len() {
        s.len() as int
    } else if is_digit(s[p]) {
        p
    } else {
        next_digit(s, p + 1)
    }
}

/// Index just past the run of digits that starts at `p`.
pub open spec fn run_end(s: Seq<u8>, p: int) -> int
    decreases s.len() - p,
{
    if 0 <= p < s.len() && is_digit(s[p]) {
        run_end(s, p + 1)
    } else {
        p
    }
}

/// The maximal runs of decimal digits of `s` at or after `p`.
pub open spec fn runs_from(s: Seq<u8>, p: int) -> Seq<Seq<u8>>
    decreases s.len() - p,
{
    let q = next_digit(s, p);
    let e = run_end(s, q);
    if p < 0 || q >= s.len() || e <= p || e > s.len() {
        Seq::empty()
    } else {
        seq![s.subrange(q, e)] + runs_from(s, e)
    }
}

/// The maximal runs of decimal digits of `s`, in order.
pub open spec fn digit_runs(s: Seq<u8>) -> Seq<Seq<u8>> {
    runs_from(s, 0)
}

/// Every run of digits in `s` has a value that fits in `u64`.
pub open spec fn runs_fit(s: Seq<u8>) -> bool {
    forall|i: int| 0 <= i < digit_runs(s).len() ==> digits_value(#[trigger] digit_runs(s)[i]) <= u64::MAX
}

proof fn lemma_next_digit(s: Seq<u8>, p: int)
    requires
        0 <= p <= s.len(),
    ensures
        p <= next_digit(s, p) <= s.len(),
        next_digit(s, p) < s.len() ==> is_digit(s[next_digit(s, p)]),
    decreases s.len() - p,
{
    if p < s.len() && !is_digit(s[p]) {
        lemma_next_digit(s, p + 1);
    }
}

proof fn lemma_run_end(s: Seq<u8>, p: int)
    requires
        0 <= p <= s.len(),
    ensures
        p <= run_end(s, p) <= s.len(),
        forall|i: int| p <= i < run_end(s, p) ==> is_digit(#[trigger] s[i]),
    decreases s.len() - p,
{
    if p < s.len() && is_digit(s[p]) {
        lemma_run_end(s, p + 1);
    }
}

/// The values of the runs of digits of `b`; `None` when one exceeds `u64::MAX`.
fn numbers_in(b: &[u8]) -> (r: Option<Vec<u64>>)
    ensures
        r is Some <==> runs_fit(b@),
        r matches Some(v) ==> v@.len() == digit_runs(b@).len() && forall|i: int|
            0 <= i < v@.len() ==> v@[i] == digits_value(#[trigger] digit_runs(b@)[i]),
{
    let ghost runs = digit_runs(b@);
    let n = b.len();
    let mut out: Vec<u64> = Vec::new();
    let mut p: usize = 0;
    let ghost mut done: Seq<Seq<u8>> = Seq::empty();
    loop
        invariant
            n == b@.len(),
            p <= n,
            runs == digit_runs(b@),
            runs == done + runs_from(b@, p as int),
            out@.len() == done.len(),
            forall|i: int| 0 <= i < done.len() ==> out@[i] == digits_value(#[trigger] done[i]),
        decreases n - p,
    {
        let mut q = p;
        while q < n && !(('0' as u8) <= b[q] && b[q] <= ('9' as u8))
            invariant
                p <= q <= n == b@.len(),
                next_digit(b@, q as int) == next_digit(b@, p as int),
            decreases n - q,
        {
            q = q + 1;
        }
        if q == n {
            assert(runs_from(b@, p as int) =~= Seq::<Seq<u8>>::empty());
            assert(runs =~= done);
            return Some(out);
        }
        let mut e = q;
        while e < n && ('0' as u8) <= b[e] && b[e] <= ('9' as u8)
            invariant
                q <= e <= n == b@.len(),
                run_end(b@, e as int) == run_end(b@, q as int),
            decreases n - e,
        {
            e = e + 1;
        }
        proof {
            lemma_run_end(b@, q as int);
            assert(e > q);
            assert(runs_from(b@, p as int) == seq![b@.subrange(q as int, e as int)] + runs_from(
                b@,
                e as int,
            ));
            assert(runs[done.len() as int] == b@.subrange(q as int, e as int));
        }
        match parse_decimal(b, q, e, u64::MAX) {
            Some(v) => {
                out.push(v);
            },
            None => {
                assert(digits_value(runs[done.len() as int]) > u64::MAX);
                return None;
            },
        }
        proof {
            done = done.push(b@.subrange(q as int, e as int));
        }
        p = e;
    }
}

/// The text holds two lines whose runs of digits, in order, are the
/// times and the record distances of `races`.
pub open spec fn reads_races(b: Seq<u8>, races: Seq<Race>) -> bool {
    let ls = lines(b);
    &&& ls.len() >= 2
    &&& runs_fit(ls[0])
    &&& runs_fit(ls[1])
    &&& races.len() == digit_runs(ls[0]).len()
    &&& races.len() == digit_runs(ls[1]).len()
    &&& forall|i: int|
        0 <= i < races.len() ==> (#[trigger] races[i]).time == digits_value(digit_runs(ls[0])[i])
            && races[i].distance == digits_value(digit_runs(ls[1])[i])
}

/// The text describes races: two lines with as many numbers each, all of
/// them fitting in `u64`.
pub open spec fn races_text(b: Seq<u8>) -> bool {
    let ls = lines(b);
    &&& ls.len() >= 2
    &&& runs_fit(ls[0])
    &&& runs_fit(ls[1])
    &&& digit_runs(ls[0]).len() == digit_runs(ls[1]).len()
}

fn races_from_bytes(b: &[u8]) -> (r: Option<Vec<Race>>)
    ensures
        r is Some <==> races_text(b@),
        r matches Some(v) ==> reads_races(b@, v@),
{
    let ghost ls = lines(b@);
    let n = b.len();
    if n == 0 {
        return None;
    }
    let e0 = find_line_end(b, 0);
    proof {
        lemma_line_end_bounds(b@, 0);
    }
    if e0 >= n || e0 + 1 >= n {
        proof {
            if e0 < n {
                assert(lines_from(b@, e0 + 1) =~= Seq::<Seq<u8>>::empty());
            }
        }
        return None;
    }
    let e1 = find_line_end(b, e0 + 1);
    proof {
        lemma_line_end_bounds(b@, e0 + 1);
        assert(ls[0] == b@.subrange(0, e0 as int));
        assert(ls[1] == b@.subrange(e0 + 1, e1 as int));
    }
    let first = copy_range(b, 0, e0);
    let second = copy_range(b, e0 + 1, e1);
    let times = match numbers_in(first.as_slice()) {
        Some(v) => v,
        None => return None,
    };
    let distances = match numbers_in(second.as_slice()) {
        Some(v) => v,
        None => return None,
    };
    if times.len() != distances.len() {
        return None;
    }
    let mut races: Vec<Race> = Vec::new();
    let mut i: usize = 0;
    while i < times.len()
        invariant
            i <= times@.len() == distances@.len(),
            races@.len() == i,
            forall|k: int|
                0 <= k < i ==> (#[trigger] races@[k]).time == times@[k] && races@[k].distance
                    == distances@[k],
        decreases times@.len() - i,
    {
        races.push(Race { time: times[i], distance: distances[i] });
        i = i + 1;
    }
    Some(races)
}

/// Reads the races: the numbers of the first line are the times, those of
/// the second the record distances.
pub fn races_from_str(input: &str) -> (r: Option<Vec<Race>>)
    ensures
        r is Some <==> races_text(input.spec_bytes()),
        r matches Some(v) ==> reads_races(input.spec_bytes(), v@),
{
    races_from_bytes(input.as_bytes())
}

/// `s` without its spaces.
pub open spec fn without_spaces(s: Seq<u8>) -> Seq<u8>
    decreases s.len(),
{
    if s.len() == 0 {
        s
    } else if s.last() == (' ' as u8) {
        without_spaces(s.drop_last())
    } else {
        without_spaces(s.drop_last()).push(s.last())
    }
}

fn remove_spaces(b: &[u8]) -> (r: Vec<u8>)
    ensures
        r@ == without_spaces(b@),
{
    let mut r: Vec<u8> = Vec::new();
    let mut i: usize = 0;
    while i < b.len()
        invariant
            i <= b@.len(),
            r@ == without_spaces(b@.take(i as int)),
        decreases b@.len() - i,
    {
        assert(b@.take(i + 1).drop_last() =~= b@.take(i as int));
        if b[i] != (' ' as u8) {
            r.push(b[i]);
        }
        i = i + 1;
    }
    assert(b@.take(b@.len() as int) =~= b@);
    r
}

fn solve_bytes(b: &[u8]) -> (r: Option<u64>)
    ensures
        r matches Some(v) ==> exists|rs: Seq<Race>|
            #[trigger] reads_races(b@, rs) && v == ways_product(rs, rs.len() as int),
        r is None ==> !races_text(b@) || exists|rs: Seq<Race>|
            #[trigger] reads_races(b@, rs) && exists|k: int| 0 <= k <= rs.len() && ways_product(rs, k) > u64::MAX,
{
    match races_from_bytes(b) {
        Some(races) => {
            let r = product_of_ways(races.as_slice());
            proof {
                assert(reads_races(b@, races@));
            }
            r
        },
        None => None,
    }
}

/// Product over the races of the number of ways to beat the record.
pub fn solve_part1(input: &str) -> (r: Option<u64>)
    ensures
        r matches Some(v) ==> exists|rs: Seq<Race>|
            #[trigger] reads_races(input.spec_bytes(), rs) && v == ways_product(rs, rs.len() as int),
        r is None ==> !races_text(input.spec_bytes()) || exists|rs: Seq<Race>|
            #[trigger] reads_races(input.spec_bytes(), rs) && exists|k: int|
                0 <= k <= rs.len() && ways_product(rs, k) > u64::MAX,
{
    solve_bytes(input.as_bytes())
}

/// The same, reading each line's digits as one number: the spaces between
/// them are dropped.
pub fn solve_part2(input: &str) -> (r: Option<u64>)
    ensures
        r matches Some(v) ==> exists|rs: Seq<Race>|
            #[trigger] reads_races(without_spaces(input.spec_bytes()), rs) && v == ways_product(
                rs,
                rs.len() as int,
            ),
        r is None ==> !races_text(without_spaces(input.spec_bytes())) || exists|rs: Seq<Race>|
            #[trigger] reads_races(without_spaces(input.spec_bytes()), rs) && exists|k: int|
                0 <= k <= rs.len() && ways_product(rs, k) > u64::MAX,
{
    let compact = remove_spaces(input.as_bytes());
    solve_bytes(compact.as_slice())
}

} // verus!
