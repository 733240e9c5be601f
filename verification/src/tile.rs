//! Map tiles.
use vstd::prelude::*;

verus! {

/// One cell of the arena grid.
#[derive(Clone, Copy, PartialEq, Eq, Debug, Structural)]
pub enum Tile {
    Free,
    Obstacle,
    /// Base(team_id): centre tile where the owning team deposits gold.
    Base(u8),
    /// SafeZone(team_id): area around the base. Walkable by anyone; the owning
    /// team cannot take damage here, and obstacles never spawn inside it.
    SafeZone(u8),
}

impl Tile {
    /// The team a tile belongs to, if any.
    pub open spec fn spec_team(self) -> Option<u8> {
        match self {
            Tile::Base(t) => Some(t),
            Tile::SafeZone(t) => Some(t),
            _ => None,
        }
    }

    /// Every tile but an obstacle can be walked on.
    pub fn is_walkable(self) -> (b: bool)
        ensures
            b <==> !(self is Obstacle),
    {
        !matches!(self, Tile::Obstacle)
    }

    /// The owning team of a base or safe-zone tile; `None` for the others.
    pub fn team_id(self) -> (t: Option<u8>)
        ensures
            t == self.spec_team(),
    {
        match self {
            Tile::Base(t) | Tile::SafeZone(t) => Some(t),
            _ => None,
        }
    }
}

} // verus!
