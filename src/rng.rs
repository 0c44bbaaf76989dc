use vstd::prelude::*;
use bracket_lib::random::RandomNumberGenerator;

verus! {

#[verifier::external_type_specification]
#[verifier::external_body]
pub struct ExRandomNumberGenerator(RandomNumberGenerator);

/// A name for the code page 437 index that bracket-lib gives a character.
pub uninterp spec fn cp437_of(c: char) -> u16;

/// Relies on bracket_lib::terminal::to_cp437: its table sends each printable
/// ASCII character to its own code.
#[verifier::external_body]
pub(crate) fn glyph_of(c: char) -> (r: u16)
    ensures
        r == cp437_of(c),
        (' ' <= c && c <= '~') ==> r == c as u16,
{
    bracket_lib::terminal::to_cp437(c)
}

/// Relies on RandomNumberGenerator::new: a generator seeded from the operating
/// system's random source, or from the clock when that source fails.
#[verifier::external_body]
pub(crate) fn fresh_rng() -> (r: RandomNumberGenerator) {
    RandomNumberGenerator::new()
}

/// Relies on RandomNumberGenerator::range, which draws from `min..max`
/// (upper bound excluded) and panics on an empty range.
#[verifier::external_body]
pub(crate) fn rng_range(rng: &mut RandomNumberGenerator, min: i32, max: i32) -> (r: i32)
    requires
        min < max,
    ensures
        min <= r < max,
{
    rng.range(min, max)
}

/// Relies on RandomNumberGenerator::random_slice_entry: `None` exactly for an
/// empty slice, else one of its entries.
#[verifier::external_body]
pub(crate) fn rng_slice_entry(rng: &mut RandomNumberGenerator, items: &Vec<usize>) -> (r: Option<usize>)
    requires
        items@.len() < i32::MAX,
    ensures
        r.is_none() <==> items@.len() == 0,
        r.is_some() ==> items@.contains(r.unwrap()),
{
    rng.random_slice_entry(items.as_slice()).copied()
}

/// Relies on RandomNumberGenerator::roll_dice: the sum of `n` draws of
/// `range(1, die_type + 1)`, each from 1 to `die_type`.
#[verifier::external_body]
pub(crate) fn rng_roll_dice(rng: &mut RandomNumberGenerator, n: i32, die_type: i32) -> (r: i32)
    requires
        0 <= n,
        1 <= die_type < i32::MAX,
        n * die_type <= i32::MAX,
    ensures
        n <= r <= n * die_type,
{
    rng.roll_dice(n, die_type)
}

} // verus!
