use terrain_core::animation::{next_frame, AnimationIndices};
use terrain_core::classify::{classify, NoiseSamples, Surface, TileClass};
use terrain_core::entity::{canonical_pair, EntityId};
use terrain_core::grid::{halo_tiles, stream_center, window_tiles, TilePos, WindowTile};
use terrain_core::occluders::{
    add_gap_occluders_for_tile, plan_gap_occluders, remove_gap_occluders_for_wall,
};
use terrain_core::stream::{evict_outside, generate_tiles, keeps, missing_tiles};
use terrain_core::terrain_map::TerrainMap;

fn pos(x: i32, y: i32) -> TilePos {
    TilePos { x, y }
}

fn id(bits: u64) -> EntityId {
    EntityId { bits }
}

fn samples(terrain: i64, path: i64, wall: i64) -> NoiseSamples {
    NoiseSamples { terrain, path, wall }
}

fn with_walls(walls: &[(TilePos, u64)]) -> TerrainMap {
    let mut m = TerrainMap::new();
    for &(p, bits) in walls {
        m.mark_generated(p);
        m.register_wall(p, id(bits));
    }
    m
}

#[test]
fn center_rounds_to_nearest_tile() {
    assert_eq!(stream_center(130, 5), pos(128, 0));
}

#[test]
fn center_rounds_halves_away_from_zero() {
    assert_eq!(stream_center(32, -32), pos(64, -64));
    assert_eq!(stream_center(31, -31), pos(0, 0));
    assert_eq!(stream_center(-97, 96), pos(-128, 128));
    assert_eq!(stream_center(-95, 95), pos(-64, 64));
}

#[test]
fn low_terrain_is_water() {
    let c = classify(&samples(-500000, 0, 900000));
    assert_eq!(c, TileClass { surface: Surface::Water, is_wall: false });
}

#[test]
fn high_terrain_is_stone_with_wall_when_layer_positive() {
    assert_eq!(
        classify(&samples(500000, 0, 1)),
        TileClass { surface: Surface::Stone, is_wall: true }
    );
    assert_eq!(
        classify(&samples(500000, 0, 0)),
        TileClass { surface: Surface::Stone, is_wall: false }
    );
}

#[test]
fn thresholds_first_match_wins() {
    let far = 900000;
    assert_eq!(classify(&samples(-450001, far, 1)).surface, Surface::Water);
    assert_eq!(classify(&samples(-450000, far, 1)).surface, Surface::Sand);
    assert_eq!(classify(&samples(-250001, far, 1)).surface, Surface::Sand);
    assert_eq!(classify(&samples(-250000, far, 1)).surface, Surface::Dirt);
    assert_eq!(classify(&samples(-1, far, 1)).surface, Surface::Dirt);
    assert_eq!(classify(&samples(0, far, 1)).surface, Surface::Grass);
    assert_eq!(classify(&samples(299999, far, 1)).surface, Surface::Grass);
    assert_eq!(classify(&samples(300000, far, 1)).surface, Surface::Stone);
}

#[test]
fn path_overrides_dirt_and_grass_only() {
    assert_eq!(classify(&samples(-100000, 49999, 1)).surface, Surface::Path);
    assert_eq!(classify(&samples(100000, -49999, 1)).surface, Surface::Path);
    assert_eq!(classify(&samples(100000, 50000, 1)).surface, Surface::Grass);
    assert_eq!(classify(&samples(-100000, -50000, 1)).surface, Surface::Dirt);
    assert_eq!(classify(&samples(-300000, 0, 1)).surface, Surface::Sand);
    assert_eq!(classify(&samples(-600000, 0, 1)).surface, Surface::Water);
    assert_eq!(
        classify(&samples(600000, 0, 1)),
        TileClass { surface: Surface::Stone, is_wall: true }
    );
}

#[test]
fn classification_is_deterministic() {
    let s = samples(123456, -7890, 42);
    assert_eq!(classify(&s), classify(&s));
    assert_eq!(classify(&s), classify(&samples(123456, -7890, 42)));
}

#[test]
fn canonical_pair_is_order_free() {
    assert_eq!(canonical_pair(id(9), id(3)), (id(3), id(9)));
    assert_eq!(canonical_pair(id(3), id(9)), (id(3), id(9)));
}

#[test]
fn adjacent_walls_on_x_axis() {
    let m = with_walls(&[(pos(0, 0), 1), (pos(64, 0), 2)]);
    assert_eq!(m.find_adjacent_walls(pos(0, 0)), vec![pos(64, 0)]);
    assert_eq!(m.find_adjacent_walls(pos(64, 0)), vec![pos(0, 0)]);
}

#[test]
fn adjacent_walls_need_a_wall_and_axis_neighbour() {
    let mut m = with_walls(&[(pos(0, 0), 1), (pos(64, 64), 2), (pos(0, 64), 3)]);
    m.mark_generated(pos(-64, 0));
    assert_eq!(m.find_adjacent_walls(pos(0, 0)), vec![pos(0, 64)]);
    assert_eq!(m.find_adjacent_walls(pos(64, 0)), vec![pos(0, 0), pos(64, 64)]);
}

#[test]
fn one_occluder_for_adjacent_pair() {
    let mut m = with_walls(&[(pos(0, 0), 1), (pos(64, 0), 2)]);
    let plans = plan_gap_occluders(&m, pos(64, 0));
    assert_eq!(plans.len(), 1);
    let p = plans[0];
    assert_eq!(p.wall, id(2));
    assert_eq!(p.neighbor, id(1));
    assert_eq!(p.neighbor_pos, pos(0, 0));
    assert_eq!(p.center, pos(32, 0));
    assert!(p.along_x);
    add_gap_occluders_for_tile(&mut m, &plans, &vec![id(100)]);
    assert_eq!(m.get_gaps_for_wall(id(1)), vec![id(100)]);
    assert_eq!(m.get_gaps_for_wall(id(2)), vec![id(100)]);
    assert_eq!(m.gap_between(id(1), id(2)), Some(id(100)));
    assert!(plan_gap_occluders(&m, pos(0, 0)).is_empty());
}

#[test]
fn vertical_seam_plan() {
    let m = with_walls(&[(pos(0, 0), 1), (pos(0, -64), 2)]);
    let plans = plan_gap_occluders(&m, pos(0, 0));
    assert_eq!(plans.len(), 1);
    assert_eq!(plans[0].center, pos(0, -32));
    assert!(!plans[0].along_x);
    assert!(plan_gap_occluders(&m, pos(64, 0)).is_empty());
}

#[test]
fn gap_symmetry_and_no_duplicate() {
    let mut m = with_walls(&[(pos(0, 0), 5), (pos(64, 0), 7)]);
    m.add_gap_occluder(id(5), id(7), id(50));
    assert_eq!(m.get_gaps_for_wall(id(5)), vec![id(50)]);
    assert_eq!(m.get_gaps_for_wall(id(7)), vec![id(50)]);
    m.add_gap_occluder(id(7), id(5), id(51));
    assert_eq!(m.get_gaps_for_wall(id(5)), vec![id(50)]);
    assert_eq!(m.get_gaps_for_wall(id(7)), vec![id(50)]);
}

#[test]
fn cascading_removal() {
    let mut m = with_walls(&[(pos(0, 0), 1), (pos(64, 0), 2), (pos(0, 64), 3)]);
    m.add_gap_occluder(id(1), id(2), id(10));
    m.add_gap_occluder(id(3), id(1), id(11));
    m.add_gap_occluder(id(2), id(3), id(12));
    let mut removed = m.remove_gaps_for_wall(id(1));
    removed.sort_by_key(|e| e.bits);
    assert_eq!(removed, vec![id(10), id(11)]);
    assert!(m.get_gaps_for_wall(id(1)).is_empty());
    assert_eq!(m.get_gaps_for_wall(id(2)), vec![id(12)]);
    assert_eq!(m.get_gaps_for_wall(id(3)), vec![id(12)]);
    assert_eq!(remove_gap_occluders_for_wall(&mut m, id(3)), vec![id(12)]);
    assert!(m.get_gaps_for_wall(id(2)).is_empty());
}

#[test]
fn evict_takes_wall_and_its_gaps() {
    let mut m = with_walls(&[(pos(0, 0), 1), (pos(64, 0), 2)]);
    m.add_gap_occluder(id(1), id(2), id(10));
    let e = m.evict(pos(0, 0));
    assert_eq!(e.pos, pos(0, 0));
    assert_eq!(e.wall, Some(id(1)));
    assert_eq!(e.occluders, vec![id(10)]);
    assert!(!m.contains(pos(0, 0)));
    assert_eq!(m.wall_at(pos(0, 0)), None);
    assert_eq!(m.wall_at(pos(64, 0)), Some(id(2)));
    assert!(m.get_gaps_for_wall(id(2)).is_empty());
    let e = m.evict(pos(0, 0));
    assert_eq!(e.wall, None);
    assert!(e.occluders.is_empty());
}

#[test]
fn walls_stay_within_generated() {
    let mut m = with_walls(&[(pos(0, 0), 1)]);
    m.mark_generated(pos(64, 0));
    m.evict(pos(0, 0));
    assert_eq!(m.wall_at(pos(0, 0)), None);
    assert!(m.contains(pos(64, 0)));
    assert_eq!(m.generated_positions(), vec![pos(64, 0)]);
}

#[test]
fn regeneration_gives_same_class() {
    let mut m = TerrainMap::new();
    let tile = WindowTile { pos: pos(0, 0), fog: 0 };
    let s = samples(400000, 0, 250000);
    let first = generate_tiles(&mut m, &vec![tile], &vec![s]);
    m.register_wall(pos(0, 0), id(1));
    m.evict(pos(0, 0));
    assert!(!m.contains(pos(0, 0)));
    let missing = missing_tiles(&m, pos(0, 0));
    assert!(missing.contains(&tile));
    let again = generate_tiles(&mut m, &vec![tile], &vec![s]);
    assert_eq!(first, again);
    assert_eq!(again[0], TileClass { surface: Surface::Stone, is_wall: true });
    assert!(m.contains(pos(0, 0)));
}

#[test]
fn window_around_origin() {
    let w = window_tiles(pos(0, 0));
    assert_eq!(w.len(), 293);
    assert_eq!(w[0], WindowTile { pos: pos(-576, -192), fog: 8100 });
    assert_eq!(w[292], WindowTile { pos: pos(576, 192), fog: 8100 });
    assert!(w.contains(&WindowTile { pos: pos(0, 0), fog: 0 }));
    assert!(w.contains(&WindowTile { pos: pos(64, 0), fog: 1 }));
    assert!(w.contains(&WindowTile { pos: pos(576, 0), fog: 6561 }));
    assert!(!w.iter().any(|t| t.pos == pos(-1024, -1024)));
}

#[test]
fn window_follows_center() {
    let w = window_tiles(pos(128, -64));
    assert_eq!(w.len(), 293);
    assert_eq!(w[0].pos, pos(-448, -256));
    assert!(w.contains(&WindowTile { pos: pos(128, -64), fog: 0 }));
}

#[test]
fn missing_tiles_skip_generated() {
    let mut m = TerrainMap::new();
    m.mark_generated(pos(0, 0));
    let missing = missing_tiles(&m, pos(0, 0));
    assert_eq!(missing.len(), 292);
    assert!(!missing.iter().any(|t| t.pos == pos(0, 0)));
}

#[test]
fn retention_bound() {
    assert!(keeps(pos(576, 0), pos(0, 0)));
    assert!(!keeps(pos(640, 0), pos(0, 0)));
    assert!(keeps(pos(384, 448), pos(0, 0)));
    assert!(!keeps(pos(448, 448), pos(0, 0)));
}

#[test]
fn eviction_pass_drops_far_tiles() {
    let mut m = with_walls(&[(pos(640, 0), 1), (pos(704, 0), 2), (pos(0, 0), 3)]);
    m.mark_generated(pos(576, 0));
    m.add_gap_occluder(id(1), id(2), id(10));
    let mut ev = evict_outside(&mut m, pos(0, 0));
    ev.sort_by_key(|e| e.pos.x);
    assert_eq!(ev.len(), 2);
    assert_eq!(ev[0].pos, pos(640, 0));
    assert_eq!(ev[0].wall, Some(id(1)));
    assert_eq!(ev[1].pos, pos(704, 0));
    assert_eq!(ev[1].wall, Some(id(2)));
    let all: Vec<EntityId> = ev.iter().flat_map(|e| e.occluders.clone()).collect();
    assert_eq!(all, vec![id(10)]);
    let mut left = m.generated_positions();
    left.sort_by_key(|p| p.x);
    assert_eq!(left, vec![pos(0, 0), pos(576, 0)]);
    assert_eq!(m.wall_at(pos(0, 0)), Some(id(3)));
    assert!(evict_outside(&mut m, pos(0, 0)).is_empty());
}

#[test]
fn full_pass_then_move() {
    let mut m = TerrainMap::new();
    let tiles = missing_tiles(&m, pos(0, 0));
    let noise: Vec<NoiseSamples> = tiles.iter().map(|_| samples(-100000, 900000, 0)).collect();
    let classes = generate_tiles(&mut m, &tiles, &noise);
    assert_eq!(classes.len(), 293);
    assert!(classes.iter().all(|c| c.surface == Surface::Dirt && !c.is_wall));
    assert!(evict_outside(&mut m, pos(0, 0)).is_empty());
    let center = stream_center(64 * 20, 0);
    let ev = evict_outside(&mut m, center);
    assert!(!ev.is_empty());
    for p in m.generated_positions() {
        assert!(keeps(p, center));
    }
    let next = missing_tiles(&m, center);
    assert_eq!(next.len() + m.generated_positions().len(), 293);
}

#[test]
fn halo_is_the_square_outside_the_circle() {
    let h = halo_tiles(pos(0, 0));
    assert_eq!(h.len(), 1024 - 293);
    assert_eq!(h[0], pos(-1024, -1024));
    assert_eq!(h[h.len() - 1], pos(960, 960));
    assert!(!h.contains(&pos(0, 0)));
    let w = window_tiles(pos(0, 0));
    assert!(w.iter().all(|t| !h.contains(&t.pos)));
    assert_eq!(halo_tiles(pos(64, 128))[0], pos(-960, -896));
}

#[test]
fn water_frames_cycle() {
    let ix = AnimationIndices { first: 0, last: 3 };
    assert_eq!(next_frame(&ix, 0), 1);
    assert_eq!(next_frame(&ix, 2), 3);
    assert_eq!(next_frame(&ix, 3), 0);
    let shifted = AnimationIndices { first: 4, last: 7 };
    assert_eq!(next_frame(&shifted, 7), 4);
}
