//! Extrapolating a sequence of readings by repeated differences.
use crate::text::{
    copy_range, digits_value, find_line_end, find_piece_end, is_number, lemma_line_end_bounds,
    lemma_piece_end_bounds, lines, lines_from, parse_decimal, pieces, pieces_from, SPACE,
};
use vstd::prelude::*;
use vstd::string::StringSliceAdditionalSpecFns;

verus! {

pub open spec fn ints(s: Seq<i64>) -> Seq<int> {
    s.map_values(|x: i64| x as int)
}

/// The differences of neighbouring elements.
pub open spec fn differences(s: Seq<int>) -> Seq<int> {
    Seq::new(if s.len() > 0 { (s.len() - 1) as nat } else { 0 }, |i: int| s[i + 1] - s[i])
}

pub open spec fn all_zero(s: Seq<int>) -> bool {
    forall|i: int| 0 <= i < s.len() ==> s[i] == 0
}

pub open spec fn in_i64(x: int) -> bool {
    i64::MIN <= x <= i64::MAX
}

/// The value after the last: zero for an all-zero sequence, else the last
/// value plus the value after the last of the differences.
pub open spec fn next_value(s: Seq<int>) -> int
    decreases s.len(),
{
    if s.len() == 0 || all_zero(s) {
        0
    } else {
        s.last() + next_value(differences(s))
    }
}

/// The value before the first, found the same way.
pub open spec fn previous_value(s: Seq<int>) -> int
    decreases s.len(),
{
    if s.len() == 0 || all_zero(s) {
        0
    } else {
        s[0] - previous_value(differences(s))
    }
}

/// Every difference and every partial result of `next_value` fits in `i64`.
pub open spec fn next_fits(s: Seq<int>) -> bool
    decreases s.len(),
{
    if s.len() == 0 || all_zero(s) {
        true
    } else {
        &&& forall|i: int| 0 <= i < s.len() - 1 ==> in_i64(#[trigger] differences(s)[i])
        &&& next_fits(differences(s))
        &&& in_i64(next_value(s))
    }
}

/// Every difference and every partial result of `previous_value` fits in `i64`.
pub open spec fn previous_fits(s: Seq<int>) -> bool
    decreases s.len(),
{
    if s.len() == 0 || all_zero(s) {
        true
    } else {
        &&& forall|i: int| 0 <= i < s.len() - 1 ==> in_i64(#[trigger] differences(s)[i])
        &&& previous_fits(differences(s))
        &&& in_i64(previous_value(s))
    }
}

/// A sequence of readings.
#[derive(Debug, Default)]
pub struct Sequence {
    numbers: Vec<i64>,
}

impl Sequence {
    pub closed spec fn values(&self) -> Seq<int> {
        ints(self.numbers@)
    }

    pub fn new(numbers: Vec<i64>) -> (r: Sequence)
        ensures
            r.values() == ints(numbers@),
    {
        Sequence { numbers }
    }

    /// The differences of neighbouring readings, or `None` when one does not
    /// fit in `i64`.
    pub fn derive(&self) -> (r: Option<Sequence>)
        ensures
            r is Some <==> forall|i: int|
                0 <= i < self.values().len() - 1 ==> in_i64(#[trigger] differences(self.values())[i]),
            r matches Some(d) ==> d.values() == differences(self.values()),
    {
        let ghost s = self.values();
        let mut out: Vec<i64> = Vec::new();
        let n = self.numbers.len();
        let mut i: usize = 1;
        assert(s.len() == n);
        while i < n
            invariant
                s == ints(self.numbers@),
                s == self.values(),
                n == self.numbers@.len(),
                s.len() == n,
                1 <= i,
                n > 0 ==> i <= n,
                n == 0 ==> i == 1,
                out@.len() == i - 1,
                forall|k: int| 0 <= k < i - 1 ==> out@[k] == differences(s)[k],
            decreases n - i,
        {
            let d = match self.numbers[i].checked_sub(self.numbers[i - 1]) {
                Some(d) => d,
                None => {
                    assert(s[i as int] == self.numbers@[i as int] as int);
                    assert(s[i - 1] == self.numbers@[i - 1] as int);
                    assert(!in_i64(differences(s)[i - 1]));
                    return None;
                },
            };
            out.push(d);
            assert(s[i as int] == self.numbers@[i as int] as int);
            assert(s[i - 1] == self.numbers@[i - 1] as int);
            i = i + 1;
        }
        let r = Sequence { numbers: out };
        if n > 0 {
            assert(i == n);
            assert(differences(s).len() == n - 1);
        } else {
            assert(differences(s).len() == 0);
        }
        assert(out@.len() == differences(s).len());
        assert(r.values().len() == out@.len());
        assert forall|k: int| 0 <= k < r.values().len() implies r.values()[k] == differences(s)[k] by {
            assert(r.values()[k] == out@[k] as int);
        }
        assert(r.values() =~= differences(s));
        Some(r)
    }

    pub fn is_zero(&self) -> (r: bool)
        ensures
            r == all_zero(self.values()),
    {
        let mut i: usize = 0;
        while i < self.numbers.len()
            invariant
                i <= self.numbers@.len(),
                forall|k: int| 0 <= k < i ==> self.values()[k] == 0,
            decreases self.numbers@.len() - i,
        {
            assert(self.values()[i as int] == self.numbers@[i as int] as int);
            if self.numbers[i] != 0 {
                return false;
            }
            i = i + 1;
        }
        true
    }

    /// The extrapolated next reading, or `None` when a step leaves `i64`.
    pub fn get_next(&self) -> (r: Option<i64>)
        ensures
            r is Some <==> next_fits(self.values()),
            r matches Some(v) ==> v == next_value(self.values()),
        decreases self.values().len(),
    {
        if self.numbers.len() == 0 || self.is_zero() {
            return Some(0);
        }
        let d = match self.derive() {
            Some(d) => d,
            None => {
                return None;
            },
        };
        let rest = match d.get_next() {
            Some(v) => v,
            None => {
                return None;
            },
        };
        let last = self.numbers[self.numbers.len() - 1];
        last.checked_add(rest)
    }

    /// The extrapolated reading before the first, or `None` when a step
    /// leaves `i64`.
    pub fn get_previous(&self) -> (r: Option<i64>)
        ensures
            r is Some <==> previous_fits(self.values()),
            r matches Some(v) ==> v == previous_value(self.values()),
        decreases self.values().len(),
    {
        if self.numbers.len() == 0 || self.is_zero() {
            return Some(0);
        }
        let d = match self.derive() {
            Some(d) => d,
            None => {
                return None;
            },
        };
        let rest = match d.get_previous() {
            Some(v) => v,
            None => {
                return None;
            },
        };
        self.numbers[0].checked_sub(rest)
    }
}

/// The value of a field: decimal digits, with a leading `-` for a negative
/// number, within the range of `i64`.
pub open spec fn token_value(t: Seq<u8>) -> Option<int> {
    if t.len() > 0 && t[0] == ('-' as u8) {
        let d = t.skip(1);
        if is_number(d) && digits_value(d) <= 0x8000_0000_0000_0000 {
            Some(-(digits_value(d) as int))
        } else {
            None
        }
    } else if is_number(t) && digits_value(t) <= i64::MAX {
        Some(digits_value(t) as int)
    } else {
        None
    }
}

/// Every space-separated field of `line` is a number.
pub open spec fn fields_ok(line: Seq<u8>) -> bool {
    forall|x: int| 0 <= x < pieces(line, SPACE).len() ==> #[trigger] token_value(pieces(line, SPACE)[x]) is Some
}

/// The numbers of the space-separated fields of `line`.
pub open spec fn field_values(line: Seq<u8>) -> Seq<int> {
    pieces(line, SPACE).map_values(|t: Seq<u8>| token_value(t)->Some_0)
}

fn parse_signed(b: &[u8], from: usize, to: usize) -> (r: Option<i64>)
    requires
        from <= to <= b@.len(),
    ensures
        r matches Some(v) ==> token_value(b@.subrange(from as int, to as int)) == Some(v as int),
        r is None ==> token_value(b@.subrange(from as int, to as int)) is None,
{
    let ghost t = b@.subrange(from as int, to as int);
    if from < to && b[from] == ('-' as u8) {
        assert(t.skip(1) =~= b@.subrange(from + 1, to as int));
        match parse_decimal(b, from + 1, to, 0x8000_0000_0000_0000) {
            Some(v) => {
                if v == 0x8000_0000_0000_0000 {
                    Some(i64::MIN)
                } else {
                    Some(-(v as i64))
                }
            },
            None => None,
        }
    } else {
        match parse_decimal(b, from, to, i64::MAX as u64) {
            Some(v) => Some(v as i64),
            None => None,
        }
    }
}

fn parse_fields(line: &[u8]) -> (r: Option<Vec<i64>>)
    ensures
        r is Some <==> fields_ok(line@),
        r matches Some(v) ==> ints(v@) == field_values(line@),
{
    let ghost fs = pieces(line@, SPACE);
    let n = line.len();
    let mut out: Vec<i64> = Vec::new();
    let mut q: usize = 0;
    let ghost mut done: Seq<Seq<u8>> = Seq::empty();
    while q < n
        invariant
            n == line@.len(),
            q <= n,
            fs == pieces(line@, SPACE),
            fs == done + pieces_from(line@, q as int, SPACE),
            out@.len() == done.len(),
            forall|x: int| 0 <= x < done.len() ==> token_value(#[trigger] done[x]) == Some(out@[x] as int),
        decreases n - q,
    {
        let f = find_piece_end(line, q, SPACE);
        proof {
            lemma_piece_end_bounds(line@, q as int, SPACE);
        }
        let ghost piece = line@.subrange(q as int, f as int);
        assert(fs[done.len() as int] == piece);
        match parse_signed(line, q, f) {
            Some(v) => {
                out.push(v);
            },
            None => {
                return None;
            },
        }
        proof {
            done = done.push(piece);
        }
        q = if f < n {
            f + 1
        } else {
            n
        };
    }
    assert(fs =~= done);
    assert(ints(out@) =~= field_values(line@));
    Some(out)
}

/// Reads one sequence per line, its numbers separated by single spaces;
/// `None` when a field is not a number that fits in `i64`.
pub fn input_generator(input: &str) -> (r: Option<Vec<Sequence>>)
    ensures
        r is Some <==> forall|y: int|
            0 <= y < lines(input.spec_bytes()).len() ==> #[trigger] fields_ok(lines(input.spec_bytes())[y]),
        r matches Some(v) ==> v@.len() == lines(input.spec_bytes()).len() && forall|y: int|
            0 <= y < v@.len() ==> (#[trigger] v@[y]).values() == field_values(lines(input.spec_bytes())[y]),
{
    let b = input.as_bytes();
    let ghost ls = lines(b@);
    let n = b.len();
    let mut res: Vec<Sequence> = Vec::new();
    let mut p: usize = 0;
    let ghost mut done: Seq<Seq<u8>> = Seq::empty();
    while p < n
        invariant
            n == b@.len(),
            b@ == input.spec_bytes(),
            p <= n,
            ls == lines(b@),
            ls == done + lines_from(b@, p as int),
            res@.len() == done.len(),
            forall|y: int| 0 <= y < done.len() ==> #[trigger] fields_ok(done[y]),
            forall|y: int| 0 <= y < done.len() ==> (#[trigger] res@[y]).values() == field_values(done[y]),
        decreases n - p,
    {
        let e = find_line_end(b, p);
        proof {
            lemma_line_end_bounds(b@, p as int);
        }
        let line = copy_range(b, p, e);
        assert(ls[done.len() as int] == line@);
        match parse_fields(line.as_slice()) {
            Some(v) => {
                res.push(Sequence::new(v));
            },
            None => {
                assert(!fields_ok(ls[done.len() as int]));
                return None;
            },
        }
        proof {
            done = done.push(line@);
        }
        p = if e < n {
            e + 1
        } else {
            n
        };
    }
    assert(ls =~= done);
    Some(res)
}

/// The extrapolated values of the first `n` sequences, by `next` or by
/// `previous`, all fit, and so do their partial sums.
pub open spec fn sum_fits(seqs: Seq<Sequence>, n: int, next: bool) -> bool
    decreases n,
{
    if n <= 0 {
        true
    } else {
        let v = seqs[n - 1].values();
        &&& sum_fits(seqs, n - 1, next)
        &&& if next { next_fits(v) } else { previous_fits(v) }
        &&& in_i64(extrapolated_sum(seqs, n, next))
    }
}

/// Sum of the extrapolated values of the first `n` sequences.
pub open spec fn extrapolated_sum(seqs: Seq<Sequence>, n: int, next: bool) -> int
    decreases n,
{
    if n <= 0 {
        0
    } else {
        let v = seqs[n - 1].values();
        extrapolated_sum(seqs, n - 1, next) + if next {
            next_value(v)
        } else {
            previous_value(v)
        }
    }
}

fn extrapolated_total(input: &[Sequence], next: bool) -> (r: Option<i64>)
    ensures
        r is Some <==> sum_fits(input@, input@.len() as int, next),
        r matches Some(v) ==> v == extrapolated_sum(input@, input@.len() as int, next),
{
    let mut sum: i64 = 0;
    let mut i: usize = 0;
    while i < input.len()
        invariant
            i <= input@.len(),
            sum_fits(input@, i as int, next),
            sum == extrapolated_sum(input@, i as int, next),
        decreases input@.len() - i,
    {
        let v = if next {
            input[i].get_next()
        } else {
            input[i].get_previous()
        };
        let v = match v {
            Some(v) => v,
            None => {
                proof {
                    if sum_fits(input@, input@.len() as int, next) {
                        lemma_sum_fits_prefix(input@, i as int + 1, input@.len() as int, next);
                    }
                }
                return None;
            },
        };
        sum = match sum.checked_add(v) {
            Some(s) => s,
            None => {
                proof {
                    if sum_fits(input@, input@.len() as int, next) {
                        lemma_sum_fits_prefix(input@, i as int + 1, input@.len() as int, next);
                    }
                }
                return None;
            },
        };
        i = i + 1;
    }
    Some(sum)
}

proof fn lemma_sum_fits_prefix(seqs: Seq<Sequence>, a: int, b: int, next: bool)
    requires
        0 <= a <= b,
        sum_fits(seqs, b, next),
    ensures
        sum_fits(seqs, a, next),
    decreases b - a,
{
    if a < b {
        lemma_sum_fits_prefix(seqs, a, b - 1, next);
    }
}

/// Sum of the next values of all sequences; `None` when a step leaves `i64`.
pub fn solve_part1(input: &[Sequence]) -> (r: Option<i64>)
    ensures
        r is Some <==> sum_fits(input@, input@.len() as int, true),
        r matches Some(v) ==> v == extrapolated_sum(input@, input@.len() as int, true),
{
    extrapolated_total(input, true)
}

/// Sum of the previous values of all sequences; `None` when a step leaves `i64`.
pub fn solve_part2(input: &[Sequence]) -> (r: Option<i64>)
    ensures
        r is Some <==> sum_fits(input@, input@.len() as int, false),
        r matches Some(v) ==> v == extrapolated_sum(input@, input@.len() as int, false),
{
    extrapolated_total(input, false)
}

} // verus!
