use vstd::prelude::*;

verus! {

/// Side length of one tile, in world units.
pub const TILE_SIZE: i32 = 64;

/// World-size constant: the generation window spans a third of it per axis,
/// and its admission radius (in grid units) is the constant itself.
pub const WORLD_SIZE: i32 = 96;

/// Number of grid cells per axis scanned by one generation pass.
pub const WINDOW_CELLS: i32 = 32;

/// Local grid offset of the window's centre cell.
pub const WINDOW_HALF: i32 = 16;

/// Number of cells scanned by one generation pass.
pub const WINDOW_AREA: usize = 1024;

/// Denominator of the fog ratio: `(WORLD_SIZE - 16)` to the fourth power.
pub const FOG_DENOMINATOR: u32 = 40960000;

/// Largest squared world distance from the centre at which a tile is kept:
/// `(TILE_SIZE * WORLD_SIZE / 2)^2 / 25`, rounded down.
pub const RETENTION_LIMIT: i64 = 377487;

/// A tile slot: the tile's world-space origin, a multiple of `TILE_SIZE` on
/// each axis when produced by the streaming window.
#[derive(Clone, Copy, Debug, PartialEq, Eq, Structural, Hash)]
pub struct TilePos {
    pub x: i32,
    pub y: i32,
}

/// One admitted cell of a generation pass: where the tile goes and how much
/// fog covers it, as `fog / FOG_DENOMINATOR`.
#[derive(Clone, Copy, Debug, PartialEq, Eq, Structural)]
pub struct WindowTile {
    pub pos: TilePos,
    pub fog: u32,
}

/// `v / TILE_SIZE` rounded to the nearest integer, halves away from zero.
pub open spec fn nearest_tile_index(v: int) -> int {
    if v >= 0 {
        (v + 32) / 64
    } else {
        -((-v + 32) / 64)
    }
}

/// The multiple of `TILE_SIZE` nearest to `v`, halves away from zero.
pub open spec fn snap_to_tile(v: int) -> int {
    nearest_tile_index(v) * 64
}

/// A world coordinate whose snapped value still fits an `i32`.
pub open spec fn snaps_in_range(v: int) -> bool {
    snap_to_tile(v) <= i32::MAX
}

/// Squared distance, in grid units, of local cell `(gx, gy)` from the centre cell.
pub open spec fn cell_dist2(gx: int, gy: int) -> int {
    (gx - 16) * (gx - 16) + (gy - 16) * (gy - 16)
}

/// The admission test of the generation window: the squared distance,
/// squared once more, is at most `WORLD_SIZE` squared.
pub open spec fn cell_admitted(gx: int, gy: int) -> bool {
    cell_dist2(gx, gy) * cell_dist2(gx, gy) <= 96 * 96
}

/// Fog ratio numerator: the fourth power of the distance, capped at the denominator.
pub open spec fn fog_of(gx: int, gy: int) -> int {
    let d4 = cell_dist2(gx, gy) * cell_dist2(gx, gy);
    if d4 < 40960000 {
        d4
    } else {
        40960000
    }
}

/// The tile that local cell `(gx, gy)` stands for around `center`.
pub open spec fn window_tile(center: TilePos, gx: int, gy: int) -> WindowTile {
    WindowTile { pos: cell_pos(center, gx, gy), fog: fog_of(gx, gy) as u32 }
}

/// A centre around which every window position fits an `i32`.
pub open spec fn window_in_range(center: TilePos) -> bool {
    &&& i32::MIN + 1024 <= center.x <= i32::MAX - 960
    &&& i32::MIN + 1024 <= center.y <= i32::MAX - 960
}

/// The cells of a pass are scanned with `gx` outer and `gy` inner: cell `k`.
pub open spec fn cell_x(k: int) -> int {
    k / 32
}

pub open spec fn cell_y(k: int) -> int {
    k % 32
}

/// The admitted tiles among the first `k` scanned cells, in scan order.
pub open spec fn window_prefix(center: TilePos, k: nat) -> Seq<WindowTile>
    decreases k,
{
    if k == 0 {
        Seq::empty()
    } else {
        let prev = window_prefix(center, (k - 1) as nat);
        let c = k - 1;
        if cell_admitted(cell_x(c), cell_y(c)) {
            prev.push(window_tile(center, cell_x(c), cell_y(c)))
        } else {
            prev
        }
    }
}

/// The whole generation window around `center`, in scan order.
pub open spec fn window(center: TilePos) -> Seq<WindowTile> {
    window_prefix(center, 1024)
}

/// Squared world distance between two tile positions.
pub open spec fn world_dist2(p: TilePos, c: TilePos) -> int {
    (p.x - c.x) * (p.x - c.x) + (p.y - c.y) * (p.y - c.y)
}

/// A tile at `p` is kept while the stream is centred at `c`.
pub open spec fn retained(p: TilePos, c: TilePos) -> bool {
    world_dist2(p, c) <= 377487
}

proof fn lemma_snap_bounds(v: int)
    ensures
        v >= 0 ==> 0 <= nearest_tile_index(v) <= v / 64 + 1,
        v < 0 ==> -((-v) / 64) - 1 <= nearest_tile_index(v) <= 0,
{
}

fn snap_axis(v: i32) -> (r: i32)
    requires
        snaps_in_range(v as int),
    ensures
        r as int == snap_to_tile(v as int),
{
    let w: i64 = v as i64;
    let q: i64 = if w >= 0 {
        (w + 32) / 64
    } else {
        -((-w + 32) / 64)
    };
    proof {
        lemma_snap_bounds(v as int);
    }
    assert(q * 64 >= i32::MIN) by (nonlinear_arith)
        requires
            q == nearest_tile_index(v as int),
            v >= i32::MIN,
    {
    }
    (q * 64) as i32
}

/// The centre cell of the stream for a player standing at world position
/// `(px, py)` (coordinates truncated toward zero): each axis snapped to the
/// nearest multiple of `TILE_SIZE`, halves away from zero.
pub fn stream_center(px: i32, py: i32) -> (r: TilePos)
    requires
        snaps_in_range(px as int),
        snaps_in_range(py as int),
    ensures
        r.x as int == snap_to_tile(px as int),
        r.y as int == snap_to_tile(py as int),
{
    TilePos { x: snap_axis(px), y: snap_axis(py) }
}

/// Whether local cell `(gx, gy)` passes the admission test, and its fog numerator.
fn admit_cell(gx: i32, gy: i32) -> (r: (bool, u32))
    requires
        0 <= gx < 32,
        0 <= gy < 32,
    ensures
        r.0 == cell_admitted(gx as int, gy as int),
        r.1 as int == fog_of(gx as int, gy as int),
{
    let dx: i64 = (gx - WINDOW_HALF) as i64;
    let dy: i64 = (gy - WINDOW_HALF) as i64;
    assert(0 <= dx * dx <= 256 && 0 <= dy * dy <= 256) by (nonlinear_arith)
        requires
            -16 <= dx <= 16,
            -16 <= dy <= 16,
    {
    }
    let d2: i64 = dx * dx + dy * dy;
    assert(0 <= d2 * d2 <= 512 * 512) by (nonlinear_arith)
        requires
            0 <= d2 <= 512,
    {
    }
    let d4: i64 = d2 * d2;
    let admitted = d4 <= (WORLD_SIZE * WORLD_SIZE) as i64;
    let fog: u32 = if d4 < FOG_DENOMINATOR as i64 {
        d4 as u32
    } else {
        FOG_DENOMINATOR
    };
    (admitted, fog)
}

/// Every admitted cell of the `WINDOW_CELLS` square, as the tile it stands for
/// around `center`, scanned with `gx` outer and `gy` inner.
pub fn window_tiles(center: TilePos) -> (r: Vec<WindowTile>)
    requires
        window_in_range(center),
    ensures
        r@ == window(center),
        forall|t: WindowTile|
            r@.contains(t) <==> exists|gx: int, gy: int|
                0 <= gx < 32 && 0 <= gy < 32 && cell_admitted(gx, gy) && t == window_tile(
                    center,
                    gx,
                    gy,
                ),
{
    let mut r: Vec<WindowTile> = Vec::new();
    let mut k: usize = 0;
    while k < WINDOW_AREA
        invariant
            k <= WINDOW_AREA,
            window_in_range(center),
            r@ == window_prefix(center, k as nat),
        decreases 1024 - k,
    {
        let gx: i32 = (k / 32) as i32;
        let gy: i32 = (k % 32) as i32;
        assert(0 <= gx < 32 && 0 <= gy < 32);
        let (admitted, fog) = admit_cell(gx, gy);
        if admitted {
            let ox: i32 = 64 * (gx - WINDOW_HALF);
            let oy: i32 = 64 * (gy - WINDOW_HALF);
            assert(-1024 <= ox <= 960 && -1024 <= oy <= 960);
            let tile = WindowTile {
                pos: TilePos { x: center.x + ox, y: center.y + oy },
                fog,
            };
            r.push(tile);
        }
        k = k + 1;
    }
    proof {
        lemma_window_members(center, 1024);
    }
    r
}

/// A tile is in the first `k` scanned cells' window exactly when some admitted
/// cell among them stands for it.
proof fn lemma_window_members(center: TilePos, k: nat)
    requires
        k <= 1024,
    ensures
        forall|t: WindowTile|
            window_prefix(center, k).contains(t) <==> exists|gx: int, gy: int|
                0 <= gx < 32 && 0 <= gy < 32 && gx * 32 + gy < k && cell_admitted(gx, gy) && t
                    == window_tile(center, gx, gy),
    decreases k,
{
    if k > 0 {
        lemma_window_members(center, (k - 1) as nat);
        let c = k - 1;
        let prev = window_prefix(center, (k - 1) as nat);
        assert forall|t: WindowTile|
            window_prefix(center, k).contains(t) <==> exists|gx: int, gy: int|
                0 <= gx < 32 && 0 <= gy < 32 && gx * 32 + gy < k && cell_admitted(gx, gy) && t
                    == window_tile(center, gx, gy) by {
            let cx = cell_x(c);
            let cy = cell_y(c);
            assert(cx * 32 + cy == c);
            if window_prefix(center, k).contains(t) {
                if prev.contains(t) {
                } else {
                    assert(cell_admitted(cx, cy));
                    let i = choose|i: int|
                        0 <= i < window_prefix(center, k).len() && window_prefix(center, k)[i]
                            == t;
                    assert(i == prev.len());
                    assert(t == window_tile(center, cx, cy));
                }
            }
            if exists|gx: int, gy: int|
                0 <= gx < 32 && 0 <= gy < 32 && gx * 32 + gy < k && cell_admitted(gx, gy) && t
                    == window_tile(center, gx, gy) {
                let (gx, gy) = choose|gx: int, gy: int|
                    0 <= gx < 32 && 0 <= gy < 32 && gx * 32 + gy < k && cell_admitted(gx, gy)
                        && t == window_tile(center, gx, gy);
                if gx * 32 + gy < c {
                    assert(prev.contains(t));
                    let i = choose|i: int| 0 <= i < prev.len() && prev[i] == t;
                    if cell_admitted(cx, cy) {
                        assert(window_prefix(center, k)[i] == t);
                    }
                } else {
                    assert(gx == cx && gy == cy);
                    assert(window_prefix(center, k)[prev.len() as int] == t);
                }
            }
        }
    }
}

/// The world position of local cell `(gx, gy)` around `center`.
pub open spec fn cell_pos(center: TilePos, gx: int, gy: int) -> TilePos {
    TilePos { x: (center.x + 64 * (gx - 16)) as i32, y: (center.y + 64 * (gy - 16)) as i32 }
}

/// The positions of the cells among the first `k` scanned that fail the
/// admission test, in scan order.
pub open spec fn halo_prefix(center: TilePos, k: nat) -> Seq<TilePos>
    decreases k,
{
    if k == 0 {
        Seq::empty()
    } else {
        let prev = halo_prefix(center, (k - 1) as nat);
        let c = k - 1;
        if cell_admitted(cell_x(c), cell_y(c)) {
            prev
        } else {
            prev.push(cell_pos(center, cell_x(c), cell_y(c)))
        }
    }
}

/// The halo around `center`: the cells of the window square outside the
/// admission circle, which stay covered by opaque fog.
pub open spec fn halo(center: TilePos) -> Seq<TilePos> {
    halo_prefix(center, 1024)
}

/// The positions of the cells of the `WINDOW_CELLS` square around `center`
/// that fail the admission test, scanned with `gx` outer and `gy` inner.
pub fn halo_tiles(center: TilePos) -> (r: Vec<TilePos>)
    requires
        window_in_range(center),
    ensures
        r@ == halo(center),
        forall|p: TilePos|
            r@.contains(p) <==> exists|gx: int, gy: int|
                0 <= gx < 32 && 0 <= gy < 32 && !cell_admitted(gx, gy) && p == cell_pos(
                    center,
                    gx,
                    gy,
                ),
{
    let mut r: Vec<TilePos> = Vec::new();
    let mut k: usize = 0;
    while k < WINDOW_AREA
        invariant
            k <= 1024,
            window_in_range(center),
            r@ == halo_prefix(center, k as nat),
        decreases 1024 - k,
    {
        let gx: i32 = (k / 32) as i32;
        let gy: i32 = (k % 32) as i32;
        assert(0 <= gx < 32 && 0 <= gy < 32);
        let (admitted, _) = admit_cell(gx, gy);
        if !admitted {
            let ox: i32 = 64 * (gx - WINDOW_HALF);
            let oy: i32 = 64 * (gy - WINDOW_HALF);
            r.push(TilePos { x: center.x + ox, y: center.y + oy });
        }
        k = k + 1;
    }
    proof {
        lemma_halo_members(center, 1024);
    }
    r
}

/// A position is in the halo of the first `k` scanned cells exactly when
/// some cell among them that fails the admission test stands for it.
proof fn lemma_halo_members(center: TilePos, k: nat)
    requires
        k <= 1024,
    ensures
        forall|p: TilePos|
            halo_prefix(center, k).contains(p) <==> exists|gx: int, gy: int|
                0 <= gx < 32 && 0 <= gy < 32 && gx * 32 + gy < k && !cell_admitted(gx, gy) && p
                    == cell_pos(center, gx, gy),
    decreases k,
{
    if k > 0 {
        lemma_halo_members(center, (k - 1) as nat);
        let c = k - 1;
        let prev = halo_prefix(center, (k - 1) as nat);
        let cur = halo_prefix(center, k);
        assert forall|p: TilePos|
            cur.contains(p) <==> exists|gx: int, gy: int|
                0 <= gx < 32 && 0 <= gy < 32 && gx * 32 + gy < k && !cell_admitted(gx, gy) && p
                    == cell_pos(center, gx, gy) by {
            let cx = cell_x(c);
            let cy = cell_y(c);
            assert(cx * 32 + cy == c);
            if cur.contains(p) {
                if !prev.contains(p) {
                    let i = choose|i: int| 0 <= i < cur.len() && cur[i] == p;
                    assert(i == prev.len());
                    assert(p == cell_pos(center, cx, cy));
                }
            }
            if exists|gx: int, gy: int|
                0 <= gx < 32 && 0 <= gy < 32 && gx * 32 + gy < k && !cell_admitted(gx, gy) && p
                    == cell_pos(center, gx, gy) {
                let (gx, gy) = choose|gx: int, gy: int|
                    0 <= gx < 32 && 0 <= gy < 32 && gx * 32 + gy < k && !cell_admitted(gx, gy)
                        && p == cell_pos(center, gx, gy);
                if gx * 32 + gy < c {
                    assert(prev.contains(p));
                    let i = choose|i: int| 0 <= i < prev.len() && prev[i] == p;
                    if !cell_admitted(cx, cy) {
                        assert(cur[i] == p);
                    }
                } else {
                    assert(gx == cx && gy == cy);
                    assert(cur[prev.len() as int] == p);
                }
            }
        }
    }
}

} // verus!
