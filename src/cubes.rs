//! Games of cubes drawn from a bag: which games a bag could have served, and
//! the smallest bag that serves each game.
use crate::text::{
    copy_range, digits_value, find_line_end, find_piece_end, is_number, lemma_line_end_bounds,
    lemma_piece_end_bounds, lines, lines_from, parse_decimal, pieces, pieces_from, SPACE,
};
use vstd::prelude::*;
use vstd::string::StringSliceAdditionalSpecFns;

verus! {

/// One draw of cubes.
#[derive(Debug, Default, Clone, Copy, PartialEq, Eq, Structural)]
pub struct Round {
    pub reds: u32,
    pub greens: u32,
    pub blues: u32,
}

impl Round {
    pub open spec fn fits(&self, maximums: (u32, u32, u32)) -> bool {
        self.reds <= maximums.0 && self.greens <= maximums.1 && self.blues <= maximums.2
    }

    /// A bag of `maximums` red, green and blue cubes could give this draw.
    pub fn possible(&self, maximums: (u32, u32, u32)) -> (r: bool)
        ensures
            r == self.fits(maximums),
    {
        self.reds <= maximums.0 && self.greens <= maximums.1 && self.blues <= maximums.2
    }
}

/// A game: its number and its draws.
#[derive(Debug, PartialEq, Eq)]
pub struct Game {
    pub id: u32,
    pub rounds: Vec<Round>,
}

/// The bag of the first question: 12 red, 13 green and 14 blue cubes.
pub open spec fn bag() -> (u32, u32, u32) {
    (12, 13, 14)
}

impl Game {
    pub open spec fn fits(&self, maximums: (u32, u32, u32)) -> bool {
        forall|i: int| 0 <= i < self.rounds@.len() ==> #[trigger] self.rounds@[i].fits(maximums)
    }

    /// The smallest bag for the first `n` draws, colour by colour.
    pub open spec fn least_bag(&self, n: int) -> (nat, nat, nat)
        decreases n,
    {
        if n <= 0 {
            (0, 0, 0)
        } else {
            let (r, g, b) = self.least_bag(n - 1);
            let x = self.rounds@[n - 1];
            (
                if x.reds > r { x.reds as nat } else { r },
                if x.greens > g { x.greens as nat } else { g },
                if x.blues > b { x.blues as nat } else { b },
            )
        }
    }

    /// Product of the three counts of the smallest bag for the game.
    pub open spec fn power(&self) -> nat {
        let (r, g, b) = self.least_bag(self.rounds@.len() as int);
        r * g * b
    }

    pub fn is_possible(&self, maximums: (u32, u32, u32)) -> (r: bool)
        ensures
            r == self.fits(maximums),
    {
        let mut i: usize = 0;
        while i < self.rounds.len()
            invariant
                i <= self.rounds@.len(),
                forall|k: int| 0 <= k < i ==> #[trigger] self.rounds@[k].fits(maximums),
            decreases self.rounds@.len() - i,
        {
            if !self.rounds[i].possible(maximums) {
                return false;
            }
            i = i + 1;
        }
        true
    }

    pub fn least_power(&self) -> (r: u128)
        ensures
            r == self.power(),
    {
        let mut reds: u32 = 0;
        let mut greens: u32 = 0;
        let mut blues: u32 = 0;
        let mut i: usize = 0;
        while i < self.rounds.len()
            invariant
                i <= self.rounds@.len(),
                self.least_bag(i as int) == (reds as nat, greens as nat, blues as nat),
            decreases self.rounds@.len() - i,
        {
            let x = self.rounds[i];
            if x.reds > reds {
                reds = x.reds;
            }
            if x.greens > greens {
                greens = x.greens;
            }
            if x.blues > blues {
                blues = x.blues;
            }
            i = i + 1;
        }
        assert((reds as int) * (greens as int) <= u64::MAX) by (nonlinear_arith)
            requires
                reds <= u32::MAX,
                greens <= u32::MAX,
        ;
        let rg = (reds as u64) * (greens as u64);
        assert((rg as int) * (blues as int) <= u128::MAX) by (nonlinear_arith)
            requires
                rg <= u64::MAX,
                blues <= u32::MAX,
        ;
        (rg as u128) * (blues as u128)
    }
}

// Reading games.

pub open spec fn red() -> Seq<u8> {
    seq!['r' as u8, 'e' as u8, 'd' as u8]
}

pub open spec fn green() -> Seq<u8> {
    seq!['g' as u8, 'r' as u8, 'e' as u8, 'e' as u8, 'n' as u8]
}

pub open spec fn blue() -> Seq<u8> {
    seq!['b' as u8, 'l' as u8, 'u' as u8, 'e' as u8]
}

/// The bytes before a game's number: `Game `.
pub open spec fn game_prefix() -> Seq<u8> {
    seq!['G' as u8, 'a' as u8, 'm' as u8, 'e' as u8, ' ' as u8]
}

pub const COLON: u8 = 58;

pub const SEMICOLON: u8 = 59;

pub const COMMA: u8 = 44;

/// A pull ` N colour`: its colour and count.
pub open spec fn pull_of(p: Seq<u8>) -> Option<(Seq<u8>, nat)> {
    let w = pieces(p.skip(1), SPACE);
    if p.len() >= 1 && p[0] == SPACE && w.len() == 2 && is_number(w[0]) && digits_value(w[0])
        <= u32::MAX && (w[1] == red() || w[1] == green() || w[1] == blue()) {
        Some((w[1], digits_value(w[0])))
    } else {
        None
    }
}

/// The count of the last pull of colour `c`, or 0.
pub open spec fn color_count(pulls: Seq<Seq<u8>>, c: Seq<u8>) -> nat
    decreases pulls.len(),
{
    if pulls.len() == 0 {
        0
    } else if pull_of(pulls.last())->Some_0.0 == c {
        pull_of(pulls.last())->Some_0.1
    } else {
        color_count(pulls.drop_last(), c)
    }
}

pub open spec fn round_ok(r: Seq<u8>) -> bool {
    forall|k: int| 0 <= k < pieces(r, COMMA).len() ==> #[trigger] pull_of(pieces(r, COMMA)[k]) is Some
}

/// `x` is the round that the text `r` writes.
pub open spec fn reads_round(x: Round, r: Seq<u8>) -> bool {
    &&& x.reds == color_count(pieces(r, COMMA), red())
    &&& x.greens == color_count(pieces(r, COMMA), green())
    &&& x.blues == color_count(pieces(r, COMMA), blue())
}

/// A line `Game N: ROUND; ROUND; ...`, each round being pulls separated by
/// commas.
pub open spec fn game_line(line: Seq<u8>) -> bool {
    let parts = pieces(line, COLON);
    &&& parts.len() == 2
    &&& parts[0].len() > 5
    &&& parts[0].take(5) == game_prefix()
    &&& is_number(parts[0].skip(5))
    &&& digits_value(parts[0].skip(5)) <= u32::MAX
    &&& forall|k: int| 0 <= k < pieces(parts[1], SEMICOLON).len() ==> #[trigger] round_ok(pieces(parts[1], SEMICOLON)[k])
}

/// `g` is the game that `line` writes.
pub open spec fn reads_game(g: Game, line: Seq<u8>) -> bool {
    let parts = pieces(line, COLON);
    let rounds = pieces(parts[1], SEMICOLON);
    &&& g.id == digits_value(parts[0].skip(5))
    &&& g.rounds@.len() == rounds.len()
    &&& forall|k: int| 0 <= k < rounds.len() ==> reads_round(#[trigger] g.rounds@[k], rounds[k])
}

fn same_as(b: &[u8], from: usize, to: usize, word: &Vec<u8>) -> (r: bool)
    requires
        from <= to <= b@.len(),
    ensures
        r == (b@.subrange(from as int, to as int) == word@),
{
    if to - from != word.len() {
        return false;
    }
    let mut i: usize = 0;
    while i < word.len()
        invariant
            from + word@.len() == to <= b@.len(),
            i <= word@.len(),
            forall|k: int| 0 <= k < i ==> b@[from + k] == word@[k],
        decreases word@.len() - i,
    {
        if b[from + i] != word[i] {
            assert(b@.subrange(from as int, to as int)[i as int] != word@[i as int]);
            return false;
        }
        i = i + 1;
    }
    assert(b@.subrange(from as int, to as int) =~= word@);
    true
}

fn word(bytes: &[u8]) -> (r: Vec<u8>)
    ensures
        r@ == bytes@,
{
    let r = copy_range(bytes, 0, bytes.len());
    assert(bytes@.subrange(0, bytes@.len() as int) =~= bytes@);
    r
}

/// Reads a pull ` N colour`.
fn parse_pull(p: &[u8]) -> (r: Option<(u8, u32)>)
    ensures
        r is Some <==> pull_of(p@) is Some,
        r matches Some((c, n)) ==> n == pull_of(p@)->Some_0.1 && (c == 0 <==> pull_of(p@)->Some_0.0
            == red()) && (c == 1 <==> pull_of(p@)->Some_0.0 == green()) && (c == 2 <==> pull_of(
            p@,
        )->Some_0.0 == blue()) && c < 3,
{
    if p.len() < 1 || p[0] != SPACE {
        return None;
    }
    let rest = copy_range(p, 1, p.len());
    assert(rest@ =~= p@.skip(1));
    let ghost w = pieces(rest@, SPACE);
    let n = rest.len();
    let e = find_piece_end(rest.as_slice(), 0, SPACE);
    proof {
        lemma_piece_end_bounds(rest@, 0, SPACE);
    }
    if n == 0 || e >= n {
        return None;
    }
    proof {
        lemma_piece_end_bounds(rest@, e + 1, SPACE);
    }
    let e2 = find_piece_end(rest.as_slice(), e + 1, SPACE);
    if e2 == e + 1 || e2 < n && e2 + 1 < n {
        proof {
            assert(w == seq![rest@.subrange(0, e as int)] + pieces_from(rest@, e + 1, SPACE));
            if e + 1 < n {
                let tail = pieces_from(rest@, e + 1, SPACE);
                assert(tail == seq![rest@.subrange(e + 1, e2 as int)] + pieces_from(
                    rest@,
                    e2 + 1,
                    SPACE,
                ));
                assert(w[1] == tail[0]);
                if e2 + 1 < n {
                    lemma_piece_end_bounds(rest@, e2 + 1, SPACE);
                    assert(pieces_from(rest@, e2 + 1, SPACE).len() >= 1);
                    assert(w.len() >= 3);
                } else {
                    assert(w[1].len() == 0);
                    assert(red().len() == 3 && green().len() == 5 && blue().len() == 4);
                }
            } else {
                assert(w.len() == 1);
            }
        }
        return None;
    }
    proof {
        if e2 < n {
            assert(pieces_from(rest@, e2 + 1, SPACE) == Seq::<Seq<u8>>::empty());
        }
        assert(w[0] == rest@.subrange(0, e as int));
        assert(w[1] == rest@.subrange(e + 1, e2 as int));
        assert(w.len() == 2);
    }
    let count = match parse_decimal(rest.as_slice(), 0, e, u32::MAX as u64) {
        Some(v) => v as u32,
        None => return None,
    };
    let r_word = word(&[('r' as u8), ('e' as u8), ('d' as u8)]);
    let g_word = word(&[('g' as u8), ('r' as u8), ('e' as u8), ('e' as u8), ('n' as u8)]);
    let b_word = word(&[('b' as u8), ('l' as u8), ('u' as u8), ('e' as u8)]);
    assert(r_word@ =~= red());
    assert(g_word@ =~= green());
    assert(b_word@ =~= blue());
    let c: u8 = if same_as(rest.as_slice(), e + 1, e2, &r_word) {
        0
    } else if same_as(rest.as_slice(), e + 1, e2, &g_word) {
        1
    } else if same_as(rest.as_slice(), e + 1, e2, &b_word) {
        2
    } else {
        return None;
    };
    Some((c, count))
}

/// Reads a round: pulls separated by commas.
fn parse_round(r: &[u8]) -> (x: Option<Round>)
    ensures
        x is Some <==> round_ok(r@),
        x matches Some(x) ==> reads_round(x, r@),
{
    let ghost ps = pieces(r@, COMMA);
    let n = r.len();
    let mut x = Round { reds: 0, greens: 0, blues: 0 };
    let mut q: usize = 0;
    let ghost mut done: Seq<Seq<u8>> = Seq::empty();
    while q < n
        invariant
            n == r@.len(),
            q <= n,
            ps == pieces(r@, COMMA),
            ps == done + pieces_from(r@, q as int, COMMA),
            forall|k: int| 0 <= k < done.len() ==> #[trigger] pull_of(done[k]) is Some,
            x.reds == color_count(done, red()),
            x.greens == color_count(done, green()),
            x.blues == color_count(done, blue()),
        decreases n - q,
    {
        let f = find_piece_end(r, q, COMMA);
        proof {
            lemma_piece_end_bounds(r@, q as int, COMMA);
        }
        let piece = copy_range(r, q, f);
        assert(ps[done.len() as int] == piece@);
        let ghost next = done.push(piece@);
        assert(next.drop_last() == done);
        match parse_pull(piece.as_slice()) {
            Some((c, count)) => {
                if c == 0 {
                    x.reds = count;
                } else if c == 1 {
                    x.greens = count;
                } else {
                    x.blues = count;
                }
                proof {
                    assert(red() != green() && red() != blue() && green() != blue()) by {
                        assert(red().len() == 3 && green().len() == 5 && blue().len() == 4);
                    }
                }
            },
            None => {
                assert(!round_ok(r@));
                return None;
            },
        }
        proof {
            done = next;
        }
        q = if f < n {
            f + 1
        } else {
            n
        };
    }
    assert(ps =~= done);
    Some(x)
}

/// Reads a line `Game N: ROUND; ROUND; ...`.
fn parse_game(line: &[u8]) -> (r: Option<Game>)
    ensures
        r is Some <==> game_line(line@),
        r matches Some(g) ==> reads_game(g, line@),
{
    let ghost parts = pieces(line@, COLON);
    let n = line.len();
    if n == 0 {
        return None;
    }
    let e = find_piece_end(line, 0, COLON);
    proof {
        lemma_piece_end_bounds(line@, 0, COLON);
    }
    if e >= n || e + 1 == n {
        proof {
            if e < n {
                assert(pieces_from(line@, e + 1, COLON) == Seq::<Seq<u8>>::empty());
            }
        }
        return None;
    }
    proof {
        lemma_piece_end_bounds(line@, e + 1, COLON);
    }
    let e2 = find_piece_end(line, e + 1, COLON);
    if e2 < n && e2 + 1 < n {
        proof {
            lemma_piece_end_bounds(line@, e2 + 1, COLON);
            assert(parts.len() >= 3);
        }
        return None;
    }
    proof {
        assert(pieces_from(line@, e2 + 1, COLON) == Seq::<Seq<u8>>::empty());
        assert(parts[0] == line@.subrange(0, e as int));
        assert(parts[1] == line@.subrange(e + 1, e2 as int));
        assert(parts.len() == 2);
    }
    let prefix = word(&[('G' as u8), ('a' as u8), ('m' as u8), ('e' as u8), SPACE]);
    assert(prefix@ =~= game_prefix());
    if e <= 5 || !same_as(line, 0, 5, &prefix) {
        proof {
            if e > 5 {
                assert(parts[0].take(5) =~= line@.subrange(0, 5));
            }
        }
        return None;
    }
    assert(parts[0].take(5) =~= line@.subrange(0, 5));
    assert(parts[0].skip(5) =~= line@.subrange(5, e as int));
    let id = match parse_decimal(line, 5, e, u32::MAX as u64) {
        Some(v) => v as u32,
        None => return None,
    };
    let rest = copy_range(line, e + 1, e2);
    let ghost rs = pieces(rest@, SEMICOLON);
    let m = rest.len();
    let mut rounds: Vec<Round> = Vec::new();
    let mut q: usize = 0;
    let ghost mut done: Seq<Seq<u8>> = Seq::empty();
    while q < m
        invariant
            m == rest@.len(),
            q <= m,
            parts == pieces(line@, COLON),
            parts.len() == 2,
            rest@ == parts[1],
            id == digits_value(parts[0].skip(5)),
            parts[0].len() > 5,
            parts[0].take(5) == game_prefix(),
            is_number(parts[0].skip(5)),
            digits_value(parts[0].skip(5)) <= u32::MAX,
            rs == pieces(rest@, SEMICOLON),
            rs == done + pieces_from(rest@, q as int, SEMICOLON),
            rounds@.len() == done.len(),
            forall|k: int| 0 <= k < done.len() ==> #[trigger] round_ok(done[k]),
            forall|k: int| 0 <= k < done.len() ==> reads_round(#[trigger] rounds@[k], done[k]),
        decreases m - q,
    {
        let f = find_piece_end(rest.as_slice(), q, SEMICOLON);
        proof {
            lemma_piece_end_bounds(rest@, q as int, SEMICOLON);
        }
        let piece = copy_range(rest.as_slice(), q, f);
        assert(rs[done.len() as int] == piece@);
        match parse_round(piece.as_slice()) {
            Some(x) => {
                rounds.push(x);
            },
            None => {
                assert(!round_ok(rs[done.len() as int]));
                return None;
            },
        }
        proof {
            done = done.push(piece@);
        }
        q = if f < m {
            f + 1
        } else {
            m
        };
    }
    assert(rs =~= done);
    Some(Game { id, rounds })
}

/// Reads one game per line.
pub fn input_generator(input: &str) -> (r: Option<Vec<Game>>)
    ensures
        r is Some <==> forall|y: int|
            0 <= y < lines(input.spec_bytes()).len() ==> #[trigger] game_line(lines(input.spec_bytes())[y]),
        r matches Some(v) ==> v@.len() == lines(input.spec_bytes()).len() && forall|y: int|
            0 <= y < v@.len() ==> reads_game(#[trigger] v@[y], lines(input.spec_bytes())[y]),
{
    let b = input.as_bytes();
    let ghost ls = lines(b@);
    let n = b.len();
    let mut res: Vec<Game> = Vec::new();
    let mut p: usize = 0;
    let ghost mut done: Seq<Seq<u8>> = Seq::empty();
    while p < n
        invariant
            n == b@.len(),
            b@ == input.spec_bytes(),
            p <= n,
            ls == lines(b@),
            ls == done + lines_from(b@, p as int),
            res@.len() == done.len(),
            forall|y: int| 0 <= y < done.len() ==> #[trigger] game_line(done[y]),
            forall|y: int| 0 <= y < done.len() ==> reads_game(#[trigger] res@[y], done[y]),
        decreases n - p,
    {
        let e = find_line_end(b, p);
        proof {
            lemma_line_end_bounds(b@, p as int);
        }
        let line = copy_range(b, p, e);
        assert(ls[done.len() as int] == line@);
        match parse_game(line.as_slice()) {
            Some(g) => {
                res.push(g);
            },
            None => {
                assert(!game_line(ls[done.len() as int]));
                return None;
            },
        }
        proof {
            done = done.push(line@);
        }
        p = if e < n {
            e + 1
        } else {
            n
        };
    }
    assert(ls =~= done);
    Some(res)
}

/// Sum of the numbers of the first `n` games that the bag could serve.
pub open spec fn possible_sum(games: Seq<Game>, n: int) -> nat
    decreases n,
{
    if n <= 0 {
        0
    } else {
        possible_sum(games, n - 1) + if games[n - 1].fits(bag()) {
            games[n - 1].id as nat
        } else {
            0
        }
    }
}

/// Sum of the powers of the first `n` games.
pub open spec fn power_sum(games: Seq<Game>, n: int) -> nat
    decreases n,
{
    if n <= 0 {
        0
    } else {
        power_sum(games, n - 1) + games[n - 1].power()
    }
}

/// Sum of the numbers of the games that 12 red, 13 green and 14 blue cubes
/// could serve; `None` when it exceeds `u64::MAX`.
pub fn solve_part1(input: &[Game]) -> (r: Option<u64>)
    ensures
        match r {
            Some(v) => v == possible_sum(input@, input@.len() as int),
            None => possible_sum(input@, input@.len() as int) > u64::MAX,
        },
{
    let mut sum: u64 = 0;
    let mut i: usize = 0;
    while i < input.len()
        invariant
            i <= input@.len(),
            sum == possible_sum(input@, i as int),
        decreases input@.len() - i,
    {
        if input[i].is_possible((12, 13, 14)) {
            sum = match sum.checked_add(input[i].id as u64) {
                Some(s) => s,
                None => {
                    proof {
                        lemma_possible_sum_grows(input@, i as int + 1, input@.len() as int);
                    }
                    return None;
                },
            };
        }
        i = i + 1;
    }
    Some(sum)
}

proof fn lemma_possible_sum_grows(games: Seq<Game>, a: int, b: int)
    requires
        a <= b,
    ensures
        possible_sum(games, a) <= possible_sum(games, b),
    decreases b - a,
{
    if a < b {
        lemma_possible_sum_grows(games, a, b - 1);
    }
}

proof fn lemma_power_sum_grows(games: Seq<Game>, a: int, b: int)
    requires
        a <= b,
    ensures
        power_sum(games, a) <= power_sum(games, b),
    decreases b - a,
{
    if a < b {
        lemma_power_sum_grows(games, a, b - 1);
    }
}

/// Sum over the games of the product of the smallest red, green and blue
/// counts that serve the game; `None` when it exceeds `u128::MAX`.
pub fn solve_part2(input: &[Game]) -> (r: Option<u128>)
    ensures
        match r {
            Some(v) => v == power_sum(input@, input@.len() as int),
            None => power_sum(input@, input@.len() as int) > u128::MAX,
        },
{
    let mut sum: u128 = 0;
    let mut i: usize = 0;
    while i < input.len()
        invariant
            i <= input@.len(),
            sum == power_sum(input@, i as int),
        decreases input@.len() - i,
    {
        sum = match sum.checked_add(input[i].least_power()) {
            Some(s) => s,
            None => {
                proof {
                    lemma_power_sum_grows(input@, i as int + 1, input@.len() as int);
                }
                return None;
            },
        };
        i = i + 1;
    }
    Some(sum)
}

} // verus!
