use vstd::prelude::*;
use bracket_lib::random::RandomNumberGenerator;
use crate::rng::{cp437_of, glyph_of, rng_roll_dice};

verus! {

/// Hit points, name and glyph of a hand-made monster.
pub open spec fn goblin_spec(m: (i32, String, u16)) -> bool {
    m.0 == 1 && m.1@ == "Goblin"@ && m.2 == cp437_of('g')
}

pub open spec fn orc_spec(m: (i32, String, u16)) -> bool {
    m.0 == 2 && m.1@ == "Orc"@ && m.2 == cp437_of('o')
}

pub fn goblin() -> (r: (i32, String, u16))
    ensures
        goblin_spec(r),
{
    (1, "Goblin".to_owned(), glyph_of('g'))
}

pub fn orc() -> (r: (i32, String, u16))
    ensures
        orc_spec(r),
{
    (2, "Orc".to_owned(), glyph_of('o'))
}

/// The monster for a roll of one ten-sided die: a goblin on 1 to 8, else an orc.
pub fn monster_for_roll(roll: i32) -> (r: (i32, String, u16))
    ensures
        1 <= roll <= 8 ==> goblin_spec(r),
        !(1 <= roll <= 8) ==> orc_spec(r),
{
    if 1 <= roll && roll <= 8 {
        goblin()
    } else {
        orc()
    }
}

/// Rolls one ten-sided die for a monster: a goblin on 1 to 8, an orc on 9 or 10.
pub fn random_monster(rng: &mut RandomNumberGenerator) -> (r: (i32, String, u16))
    ensures
        goblin_spec(r) || orc_spec(r),
{
    let roll = rng_roll_dice(rng, 1, 10);
    monster_for_roll(roll)
}

} // verus!
