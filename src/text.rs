//! Splitting input bytes into lines.
use vstd::prelude::*;

verus! {

/// The newline byte that separates the records of an input.
pub const NEWLINE: u8 = 10;

/// The space byte that separates the fields of a record.
pub const SPACE: u8 = 32;

/// Index of the first `sep` at or after `p`, or the length of `b` when
/// there is none.
pub open spec fn piece_end(b: Seq<u8>, p: int, sep: u8) -> int
    decreases b.len() - p,
{
    if p >= b.len() {
        b.len() as int
    } else if b[p] == sep {
        p
    } else {
        piece_end(b, p + 1, sep)
    }
}

/// The pieces of `b`, separated by `sep`, that start at or after `p`. A
/// final separator does not open an empty last piece.
pub open spec fn pieces_from(b: Seq<u8>, p: int, sep: u8) -> Seq<Seq<u8>>
    decreases b.len() - p,
{
    if p < 0 || p >= b.len() {
        Seq::empty()
    } else {
        let e = piece_end(b, p, sep);
        if e < p || e >= b.len() {
            seq![b.subrange(p, b.len() as int)]
        } else {
            seq![b.subrange(p, e)] + pieces_from(b, e + 1, sep)
        }
    }
}

/// The pieces of `b` separated by `sep`.
pub open spec fn pieces(b: Seq<u8>, sep: u8) -> Seq<Seq<u8>> {
    pieces_from(b, 0, sep)
}

pub open spec fn line_end(b: Seq<u8>, p: int) -> int {
    piece_end(b, p, NEWLINE)
}

/// The lines of `b` that start at or after `p`.
pub open spec fn lines_from(b: Seq<u8>, p: int) -> Seq<Seq<u8>> {
    pieces_from(b, p, NEWLINE)
}

/// The newline-separated lines of `b`.
pub open spec fn lines(b: Seq<u8>) -> Seq<Seq<u8>> {
    pieces(b, NEWLINE)
}

pub proof fn lemma_piece_end_bounds(b: Seq<u8>, p: int, sep: u8)
    requires
        0 <= p <= b.len(),
    ensures
        p <= piece_end(b, p, sep) <= b.len(),
        piece_end(b, p, sep) < b.len() ==> b[piece_end(b, p, sep)] == sep,
        forall|i: int| p <= i < piece_end(b, p, sep) ==> b[i] != sep,
        pieces_from(b, p, sep) == if p < b.len() {
            seq![b.subrange(p, piece_end(b, p, sep))] + pieces_from(b, piece_end(b, p, sep) + 1, sep)
        } else {
            Seq::<Seq<u8>>::empty()
        },
    decreases b.len() - p,
{
    if p < b.len() && b[p] != sep {
        lemma_piece_end_bounds(b, p + 1, sep);
    }
    if p < b.len() && piece_end(b, p, sep) >= b.len() {
        assert(pieces_from(b, piece_end(b, p, sep) + 1, sep) == Seq::<Seq<u8>>::empty());
        assert(seq![b.subrange(p, b.len() as int)] + Seq::<Seq<u8>>::empty() =~= seq![b.subrange(p, b.len() as int)]);
    }
}

pub proof fn lemma_line_end_bounds(b: Seq<u8>, p: int)
    requires
        0 <= p <= b.len(),
    ensures
        p <= line_end(b, p) <= b.len(),
        line_end(b, p) < b.len() ==> b[line_end(b, p)] == NEWLINE,
        forall|i: int| p <= i < line_end(b, p) ==> b[i] != NEWLINE,
        p < b.len() ==> lines_from(b, p) == seq![b.subrange(p, line_end(b, p))] + lines_from(b, line_end(b, p) + 1),
{
    lemma_piece_end_bounds(b, p, NEWLINE);
}

/// Finds where the piece that starts at `p` ends.
pub fn find_piece_end(b: &[u8], p: usize, sep: u8) -> (e: usize)
    requires
        p <= b@.len(),
    ensures
        e == piece_end(b@, p as int, sep),
        p <= e <= b@.len(),
{
    let mut e = p;
    while e < b.len() && b[e] != sep
        invariant
            p <= e <= b@.len(),
            piece_end(b@, e as int, sep) == piece_end(b@, p as int, sep),
        decreases b@.len() - e,
    {
        e = e + 1;
    }
    e
}

/// Finds where the line that starts at `p` ends.
pub fn find_line_end(b: &[u8], p: usize) -> (e: usize)
    requires
        p <= b@.len(),
    ensures
        e == line_end(b@, p as int),
        p <= e <= b@.len(),
{
    find_piece_end(b, p, NEWLINE)
}

pub open spec fn is_digit(c: u8) -> bool {
    ('0' as u8) <= c <= ('9' as u8)
}

/// A non-empty run of decimal digits.
pub open spec fn is_number(s: Seq<u8>) -> bool {
    s.len() > 0 && forall|i: int| 0 <= i < s.len() ==> is_digit(#[trigger] s[i])
}

/// The value of a run of decimal digits.
pub open spec fn digits_value(s: Seq<u8>) -> nat
    decreases s.len(),
{
    if s.len() == 0 {
        0
    } else {
        digits_value(s.drop_last()) * 10 + (s.last() - ('0' as u8)) as nat
    }
}

pub proof fn lemma_digits_prefix(s: Seq<u8>, k: int)
    requires
        0 <= k <= s.len(),
        forall|i: int| 0 <= i < s.len() ==> is_digit(#[trigger] s[i]),
    ensures
        digits_value(s.take(k)) <= digits_value(s),
    decreases s.len() - k,
{
    if k < s.len() {
        assert(s.drop_last().take(k) =~= s.take(k));
        lemma_digits_prefix(s.drop_last(), k);
        assert(is_digit(s.last()));
    } else {
        assert(s.take(k) =~= s);
    }
}

/// Reads `b[from..to]` as a decimal number no larger than `max`.
pub fn parse_decimal(b: &[u8], from: usize, to: usize, max: u64) -> (r: Option<u64>)
    requires
        from <= to <= b@.len(),
    ensures
        r is Some <==> is_number(b@.subrange(from as int, to as int)) && digits_value(
            b@.subrange(from as int, to as int),
        ) <= max,
        r matches Some(v) ==> v == digits_value(b@.subrange(from as int, to as int)),
{
    let ghost s = b@.subrange(from as int, to as int);
    if from == to {
        return None;
    }
    let mut v: u64 = 0;
    let mut i = from;
    while i < to
        invariant
            from <= i <= to <= b@.len(),
            s == b@.subrange(from as int, to as int),
            forall|k: int| 0 <= k < i - from ==> is_digit(#[trigger] s[k]),
            v == digits_value(s.take(i - from)),
            v <= max,
        decreases to - i,
    {
        let c = b[i];
        if c < ('0' as u8) || c > ('9' as u8) {
            assert(!is_digit(s[i - from]));
            return None;
        }
        assert(s.take(i - from + 1).drop_last() =~= s.take(i - from));
        let next = (v as u128) * 10 + (c - ('0' as u8)) as u128;
        if next > max as u128 {
            proof {
                if is_number(s) {
                    lemma_digits_prefix(s, i - from + 1);
                }
            }
            return None;
        }
        v = next as u64;
        i = i + 1;
    }
    assert(s.take(to - from) =~= s);
    Some(v)
}

/// Copies `b[from..to]` into a new vector.
pub fn copy_range(b: &[u8], from: usize, to: usize) -> (r: Vec<u8>)
    requires
        from <= to <= b@.len(),
    ensures
        r@ == b@.subrange(from as int, to as int),
{
    let mut r: Vec<u8> = Vec::new();
    let mut i = from;
    while i < to
        invariant
            from <= i <= to <= b@.len(),
            r@ == b@.subrange(from as int, i as int),
        decreases to - i,
    {
        r.push(b[i]);
        i = i + 1;
    }
    r
}

} // verus!
