//! Short human-readable renderings of large counts.
use vstd::prelude::*;

verus! {

/// The decimal digit for `d`, which is below ten.
pub open spec fn digit(d: nat) -> char {
    seq!['0', '1', '2', '3', '4', '5', '6', '7', '8', '9'][d as int]
}

/// The decimal representation of `n`, without leading zeros.
pub open spec fn decimal(n: nat) -> Seq<char>
    decreases n,
{
    if n < 10 {
        seq![digit(n)]
    } else {
        decimal(n / 10).push(digit(n % 10))
    }
}

pub const THOUSAND: u64 = 1_000;

pub const MILLION: u64 = 1_000_000;

pub const BILLION: u64 = 1_000_000_000;

pub const TRILLION: u64 = 1_000_000_000_000;

/// `value` in whole units of the largest of thousand (`K`), million (`M`),
/// billion (`G`) and trillion (`T`) that it exceeds, or as it is.
pub open spec fn readable(value: nat) -> Seq<char> {
    if value > TRILLION {
        decimal(value / (TRILLION as nat)).push('T')
    } else if value > BILLION {
        decimal(value / (BILLION as nat)).push('G')
    } else if value > MILLION {
        decimal(value / (MILLION as nat)).push('M')
    } else if value > THOUSAND {
        decimal(value / (THOUSAND as nat)).push('K')
    } else {
        decimal(value)
    }
}

/// Relies on the `Display` impl of `u64`, through `format!`, which writes a
/// number in decimal without leading zeros; the suffix follows it unchanged.
#[verifier::external_body]
fn decimal_with_suffix(n: u64, suffix: &str) -> (r: String)
    ensures
        r@ == decimal(n as nat) + suffix@,
{
    format!("{}{}", n, suffix)
}

/// Renders `value` in whole thousands, millions, billions or trillions,
/// rounded down, with the unit's letter.
pub fn human_readable_numbers(value: u64) -> (r: String)
    ensures
        r@ == readable(value as nat),
{
    proof {
        reveal_strlit("T");
        reveal_strlit("G");
        reveal_strlit("M");
        reveal_strlit("K");
        reveal_strlit("");
    }
    if value > TRILLION {
        let r = decimal_with_suffix(value / TRILLION, "T");
        assert(r@ =~= readable(value as nat));
        r
    } else if value > BILLION {
        let r = decimal_with_suffix(value / BILLION, "G");
        assert(r@ =~= readable(value as nat));
        r
    } else if value > MILLION {
        let r = decimal_with_suffix(value / MILLION, "M");
        assert(r@ =~= readable(value as nat));
        r
    } else if value > THOUSAND {
        let r = decimal_with_suffix(value / THOUSAND, "K");
        assert(r@ =~= readable(value as nat));
        r
    } else {
        let r = decimal_with_suffix(value, "");
        assert(r@ =~= readable(value as nat));
        r
    }
}

} // verus!
