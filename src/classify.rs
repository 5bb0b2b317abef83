use vstd::prelude::*;

verus! {

/// Seed of the terrain noise generator (also sampled, on a third axis, for walls).
pub const TERRAIN_SEED: u32 = 921925;

/// Seed of the path noise generator.
pub const PATH_SEED: u32 = 5342756;

/// Seed of the biome noise generator.
pub const BIOME_SEED: u32 = 2683467;

/// Grid coordinates are divided by this before sampling terrain noise.
pub const TERRAIN_SCALE: i32 = 15;

/// Grid coordinates are divided by this before sampling path noise.
pub const PATH_SCALE: i32 = 8;

/// Grid coordinates are divided by this before sampling the wall layer.
pub const WALL_SCALE: i32 = 6;

/// Grid coordinates are divided by this before sampling biome noise.
pub const BIOME_SCALE: i32 = 128;

/// Third coordinate at which the terrain generator is sampled for walls.
pub const WALL_LAYER: i32 = 999;

/// Noise samples are fixed-point numbers: this many units make 1.0.
pub const SAMPLE_ONE: i64 = 1000000;

/// What the floor of a tile is made of.
#[derive(Clone, Copy, Debug, PartialEq, Eq, Structural)]
pub enum Surface {
    Water,
    Sand,
    Dirt,
    Grass,
    Stone,
    Path,
}

/// The noise read at one grid cell, each in units of `1 / SAMPLE_ONE`.
#[derive(Clone, Copy, Debug, PartialEq, Eq, Structural)]
pub struct NoiseSamples {
    /// Terrain noise at the cell scaled by `TERRAIN_SCALE`.
    pub terrain: i64,
    /// Path noise at the cell scaled by `PATH_SCALE`.
    pub path: i64,
    /// Terrain noise at the cell scaled by `WALL_SCALE`, on layer `WALL_LAYER`.
    pub wall: i64,
}

/// The content of a tile: its surface, and whether a wall stands on it.
#[derive(Clone, Copy, Debug, PartialEq, Eq, Structural)]
pub struct TileClass {
    pub surface: Surface,
    pub is_wall: bool,
}

/// The surface that terrain noise `t` selects in the normal biome; the
/// thresholds are tried in increasing order and the first that holds wins.
pub open spec fn base_surface(t: int) -> Surface {
    if t < -450000 {
        Surface::Water
    } else if t < -250000 {
        Surface::Sand
    } else if t < 0 {
        Surface::Dirt
    } else if t < 300000 {
        Surface::Grass
    } else {
        Surface::Stone
    }
}

/// Path noise close enough to zero turns dirt or grass into path.
pub open spec fn on_path(p: int) -> bool {
    -50000 < p < 50000
}

/// The classification of a cell with the given noise samples.
pub open spec fn tile_class(s: NoiseSamples) -> TileClass {
    let base = base_surface(s.terrain as int);
    let surface = if (base == Surface::Dirt || base == Surface::Grass) && on_path(s.path as int) {
        Surface::Path
    } else {
        base
    };
    TileClass { surface, is_wall: surface == Surface::Stone && s.wall > 0 }
}

/// Classifies a cell from its noise samples: the surface by the terrain
/// threshold cascade, dirt and grass demoted to path near the path noise's
/// zero line, and a wall on stone where the wall layer is positive.
pub fn classify(s: &NoiseSamples) -> (r: TileClass)
    ensures
        r == tile_class(*s),
{
    let t = s.terrain;
    let mut surface = if t < -450000 {
        Surface::Water
    } else if t < -250000 {
        Surface::Sand
    } else if t < 0 {
        Surface::Dirt
    } else if t < 300000 {
        Surface::Grass
    } else {
        Surface::Stone
    };
    let pathable = match surface {
        Surface::Dirt | Surface::Grass => true,
        _ => false,
    };
    if pathable && -50000 < s.path && s.path < 50000 {
        surface = Surface::Path;
    }
    let stone = match surface {
        Surface::Stone => true,
        _ => false,
    };
    TileClass { surface, is_wall: stone && s.wall > 0 }
}

/// Classification depends on the samples alone: equal samples, equal classes,
/// whatever was classified or evicted in between.
pub proof fn lemma_classify_deterministic(a: NoiseSamples, b: NoiseSamples)
    requires
        a == b,
    ensures
        tile_class(a) == tile_class(b),
{
}

} // verus!
