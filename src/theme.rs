use vstd::prelude::*;
use bracket_lib::random::RandomNumberGenerator;
use crate::architect::{
    CellularAutomataArchitect, DrunkardsWalkArchitect, GenerationError, MapBuilder, RoomsArchitect,
};
use crate::map::TileType;
use crate::rng::{cp437_of, fresh_rng, glyph_of, rng_range};

verus! {

/// The look of a level, and the strategy that builds it.
#[derive(Clone, Copy, Debug, PartialEq, Eq, Structural)]
pub enum Theme {
    Dungeon,
    Forest,
}

/// Which generation strategy builds a level.
#[derive(Clone, Copy, Debug, PartialEq, Eq, Structural)]
pub enum ArchitectKind {
    Rooms,
    DrunkardsWalk,
    CellularAutomata,
}

/// Stone halls built from rooms and corridors.
pub struct DungeonTheme {}

impl DungeonTheme {
    pub fn new() -> (r: Theme)
        ensures
            r == Theme::Dungeon,
    {
        Theme::Dungeon
    }
}

/// Open woodland carved by the cave strategies.
pub struct ForestTheme {}

impl ForestTheme {
    pub fn new() -> (r: Theme)
        ensures
            r == Theme::Forest,
    {
        Theme::Forest
    }
}

/// The character that a theme draws for a tile.
pub open spec fn glyph_char(theme: Theme, tile: TileType) -> char {
    match tile {
        TileType::Exit => '>',
        TileType::Floor => if theme == Theme::Dungeon { '.' } else { ';' },
        TileType::Wall => if theme == Theme::Dungeon { '#' } else { '"' },
    }
}

/// The forest's strategy for a draw: the drunkard's walk on 0, cellular
/// automata otherwise.
pub fn architect_for_draw(draw: i32) -> (r: ArchitectKind)
    ensures
        r == if draw == 0 {
            ArchitectKind::DrunkardsWalk
        } else {
            ArchitectKind::CellularAutomata
        },
{
    if draw == 0 {
        ArchitectKind::DrunkardsWalk
    } else {
        ArchitectKind::CellularAutomata
    }
}

impl Theme {
    /// The code page 437 glyph for a tile.
    pub fn tile_to_render(&self, tile_type: TileType) -> (r: u16)
        ensures
            r == cp437_of(glyph_char(*self, tile_type)),
            r == glyph_char(*self, tile_type) as u16,
    {
        let c = match tile_type {
            TileType::Exit => '>',
            TileType::Floor => match self {
                Theme::Dungeon => '.',
                Theme::Forest => ';',
            },
            TileType::Wall => match self {
                Theme::Dungeon => '#',
                Theme::Forest => '"',
            },
        };
        glyph_of(c)
    }

    /// The strategy for the next level: always rooms for the dungeon; for the
    /// forest, one of the two cave strategies, drawn afresh on every call.
    pub fn get_architect(&self) -> (r: ArchitectKind)
        ensures
            *self == Theme::Dungeon ==> r == ArchitectKind::Rooms,
            *self == Theme::Forest ==> r == ArchitectKind::DrunkardsWalk || r == ArchitectKind::CellularAutomata,
    {
        match self {
            Theme::Dungeon => ArchitectKind::Rooms,
            Theme::Forest => {
                let mut rng = fresh_rng();
                architect_for_draw(rng_range(&mut rng, 0, 2))
            },
        }
    }
}

impl ArchitectKind {
    /// Builds a level with this strategy.
    pub fn create_map_builder(&self, rng: &mut RandomNumberGenerator, theme: Theme) -> (r: Result<MapBuilder, GenerationError>)
        ensures
            r.is_ok() ==> r.unwrap().level_ready() && r.unwrap().theme == theme,
            *self == ArchitectKind::Rooms && r.is_err() ==> r.unwrap_err() == GenerationError::TooFewRooms,
            *self == ArchitectKind::DrunkardsWalk && r.is_err() ==> r.unwrap_err() == GenerationError::TooLittleFloor,
            *self == ArchitectKind::CellularAutomata && r.is_err() ==> r.unwrap_err() == GenerationError::NoFloor,
    {
        match self {
            ArchitectKind::Rooms => {
                let mut a = RoomsArchitect {};
                a.create_map_builder(rng, theme)
            },
            ArchitectKind::DrunkardsWalk => {
                let mut a = DrunkardsWalkArchitect {};
                a.create_map_builder(rng, theme)
            },
            ArchitectKind::CellularAutomata => {
                let mut a = CellularAutomataArchitect {};
                a.create_map_builder(rng, theme)
            },
        }
    }
}

/// Builds the next level in a theme: the theme picks the strategy, which
/// builds from `rng`.
pub fn build_level(theme: Theme, rng: &mut RandomNumberGenerator) -> (r: Result<MapBuilder, GenerationError>)
    ensures
        r.is_ok() ==> r.unwrap().level_ready() && r.unwrap().theme == theme,
        theme == Theme::Dungeon && r.is_err() ==> r.unwrap_err() == GenerationError::TooFewRooms,
        theme == Theme::Forest && r.is_err() ==> r.unwrap_err() == GenerationError::TooLittleFloor || r.unwrap_err()
            == GenerationError::NoFloor,
{
    let architect = theme.get_architect();
    architect.create_map_builder(rng, theme)
}

} // verus!
