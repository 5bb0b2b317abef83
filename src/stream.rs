use vstd::prelude::*;

use crate::classify::{classify, tile_class, NoiseSamples, TileClass};
use crate::entity::{gaps_of, touches, EntityId};
use crate::grid::{
    retained, window, window_in_range, window_tiles, TilePos, WindowTile, RETENTION_LIMIT,
};
use crate::terrain_map::{Eviction, TerrainMap};

verus! {

/// The positions outside the retention window around `c`.
pub open spec fn outside(c: TilePos) -> Set<TilePos> {
    Set::new(|p: TilePos| !retained(p, c))
}

/// The walls whose positions are not in `gone`.
pub open spec fn walls_outside(w: Map<TilePos, EntityId>, gone: Set<TilePos>) -> Map<
    TilePos,
    EntityId,
> {
    Map::new(|p: TilePos| w.contains_key(p) && !gone.contains(p), |p: TilePos| w[p])
}

/// A seam touches the wall of some position in `gone`.
pub open spec fn touches_gone(
    w: Map<TilePos, EntityId>,
    gone: Set<TilePos>,
    k: (EntityId, EntityId),
) -> bool {
    exists|p: TilePos| #[trigger] gone.contains(p) && w.contains_key(p) && touches(k, w[p])
}

/// The seams that touch no wall of a position in `gone`.
pub open spec fn gaps_outside(
    g: Map<(EntityId, EntityId), EntityId>,
    w: Map<TilePos, EntityId>,
    gone: Set<TilePos>,
) -> Map<(EntityId, EntityId), EntityId> {
    Map::new(
        |k: (EntityId, EntityId)| g.contains_key(k) && !touches_gone(w, gone, k),
        |k: (EntityId, EntityId)| g[k],
    )
}

/// Occluder `o` bridges a seam of `g` that touches the wall of a position in `gone`.
pub open spec fn occluder_gone(
    g: Map<(EntityId, EntityId), EntityId>,
    w: Map<TilePos, EntityId>,
    gone: Set<TilePos>,
    o: EntityId,
) -> bool {
    exists|k: (EntityId, EntityId)| #[trigger] g.contains_key(k) && touches_gone(w, gone, k) && g[k] == o
}

/// Some record of `r` hands back occluder `o`.
pub open spec fn handed_back(r: Seq<Eviction>, o: EntityId) -> bool {
    exists|i: int| 0 <= i < r.len() && (#[trigger] r[i]).occluders@.contains(o)
}

/// The window tile does not exist in `m` yet.
pub open spec fn not_generated(m: TerrainMap) -> spec_fn(WindowTile) -> bool {
    |t: WindowTile| !m.generated_set().contains(t.pos)
}

/// The window tiles around `center` that are not generated yet.
pub open spec fn missing(m: TerrainMap, center: TilePos) -> Seq<WindowTile> {
    window(center).filter(not_generated(m))
}

/// The tiles of the generation window around `center` that do not exist
/// yet, in scan order: those a pass must classify and spawn.
pub fn missing_tiles(m: &TerrainMap, center: TilePos) -> (r: Vec<WindowTile>)
    requires
        window_in_range(center),
    ensures
        r@ == missing(*m, center),
{
    let w = window_tiles(center);
    let ghost pred = not_generated(*m);
    let mut r: Vec<WindowTile> = Vec::new();
    let mut i: usize = 0;
    while i < w.len()
        invariant
            i <= w.len(),
            pred == not_generated(*m),
            r@ == w@.take(i as int).filter(pred),
        decreases w.len() - i,
    {
        let t = w[i];
        proof {
            reveal(Seq::filter);
            assert(w@.take(i + 1).drop_last() =~= w@.take(i as int));
            assert(w@.take(i + 1).last() == t);
            assert(w@.take(i + 1).filter(pred) == (if pred(t) {
                w@.take(i as int).filter(pred).push(t)
            } else {
                w@.take(i as int).filter(pred)
            }));
        }
        if !m.contains(t.pos) {
            r.push(t);
        }
        i = i + 1;
    }
    assert(w@.take(w.len() as int) =~= w@);
    r
}

/// Marks each of `tiles` generated and classifies it from its noise
/// samples: `samples[i]` belongs to `tiles[i]`.
pub fn generate_tiles(
    m: &mut TerrainMap,
    tiles: &Vec<WindowTile>,
    samples: &Vec<NoiseSamples>,
) -> (r: Vec<TileClass>)
    requires
        old(m).wf(),
        tiles@.len() == samples@.len(),
    ensures
        final(m).wf(),
        final(m).generated_set() == old(m).generated_set().union(
            Set::new(|p: TilePos| exists|i: int| 0 <= i < tiles@.len() && tiles@[i].pos == p),
        ),
        final(m).wall_map() == old(m).wall_map(),
        final(m).gap_map() == old(m).gap_map(),
        r@.len() == tiles@.len(),
        forall|i: int| 0 <= i < r@.len() ==> r@[i] == tile_class(#[trigger] samples@[i]),
{
    let mut r: Vec<TileClass> = Vec::new();
    let mut i: usize = 0;
    while i < tiles.len()
        invariant
            i <= tiles.len(),
            tiles@.len() == samples@.len(),
            m.wf(),
            m.generated_set() == old(m).generated_set().union(
                Set::new(|p: TilePos| exists|j: int| 0 <= j < i && tiles@[j].pos == p),
            ),
            m.wall_map() == old(m).wall_map(),
            m.gap_map() == old(m).gap_map(),
            r@.len() == i,
            forall|j: int| 0 <= j < i ==> r@[j] == tile_class(#[trigger] samples@[j]),
        decreases tiles.len() - i,
    {
        let t = tiles[i];
        m.mark_generated(t.pos);
        let c = classify(&samples[i]);
        r.push(c);
        proof {
            assert(m.generated_set() =~= old(m).generated_set().union(
                Set::new(|p: TilePos| exists|j: int| 0 <= j < i + 1 && tiles@[j].pos == p),
            )) by {
                assert forall|p: TilePos| m.generated_set().contains(p) implies old(m).generated_set().union(
                    Set::new(|p: TilePos| exists|j: int| 0 <= j < i + 1 && tiles@[j].pos == p),
                ).contains(p) by {
                    if p == t.pos {
                        assert(tiles@[i as int].pos == p);
                    }
                }
            }
        }
        i = i + 1;
    }
    r
}

/// Evicts every generated tile outside the retention window around
/// `center`: its position, its wall and that wall's seams. One record per
/// evicted tile is handed back, for the caller to despawn what it names.
pub fn evict_outside(m: &mut TerrainMap, center: TilePos) -> (r: Vec<Eviction>)
    requires
        old(m).wf(),
    ensures
        final(m).wf(),
        final(m).generated_set() == old(m).generated_set().difference(outside(center)),
        final(m).wall_map() == walls_outside(old(m).wall_map(), outside(center)),
        final(m).gap_map() == gaps_outside(old(m).gap_map(), old(m).wall_map(), outside(center)),
        forall|p: TilePos| #[trigger]
            final(m).generated_set().contains(p) ==> retained(p, center),
        forall|i: int|
            #![trigger r@[i]]
            0 <= i < r@.len() ==> {
                &&& old(m).generated_set().contains(r@[i].pos)
                &&& !retained(r@[i].pos, center)
                &&& r@[i].wall == (if old(m).wall_map().contains_key(r@[i].pos) {
                    Some(old(m).wall_map()[r@[i].pos])
                } else {
                    None::<EntityId>
                })
            },
        forall|p: TilePos|
            old(m).generated_set().contains(p) && !retained(p, center) ==> exists|i: int|
                0 <= i < r@.len() && (#[trigger] r@[i]).pos == p,
        forall|o: EntityId|
            handed_back(r@, o) <==> occluder_gone(
                old(m).gap_map(),
                old(m).wall_map(),
                outside(center),
                o,
            ),
{
    let ps = m.generated_positions();
    proof {
        m.lemma_walls_generated();
    }
    let ghost g0 = old(m).generated_set();
    let ghost w0 = old(m).wall_map();
    let ghost k0 = old(m).gap_map();
    let mut r: Vec<Eviction> = Vec::new();
    let mut i: usize = 0;
    while i < ps.len()
        invariant
            i <= ps.len(),
            m.wf(),
            ps@.no_duplicates(),
            g0 == old(m).generated_set(),
            w0 == old(m).wall_map(),
            k0 == old(m).gap_map(),
            w0.dom().subset_of(g0),
            forall|p: TilePos| ps@.contains(p) <==> g0.contains(p),
            m.generated_set() == g0.difference(gone_prefix(ps@, i as int, center)),
            m.wall_map() == walls_outside(w0, gone_prefix(ps@, i as int, center)),
            m.gap_map() == gaps_outside(k0, w0, gone_prefix(ps@, i as int, center)),
            forall|j: int|
                #![trigger r@[j]]
                0 <= j < r@.len() ==> {
                    &&& g0.contains(r@[j].pos)
                    &&& !retained(r@[j].pos, center)
                    &&& r@[j].wall == (if w0.contains_key(r@[j].pos) {
                        Some(w0[r@[j].pos])
                    } else {
                        None::<EntityId>
                    })
                },
            forall|p: TilePos|
                gone_prefix(ps@, i as int, center).contains(p) ==> exists|j: int|
                    0 <= j < r@.len() && (#[trigger] r@[j]).pos == p,
            forall|o: EntityId|
                handed_back(r@, o) <==> occluder_gone(k0, w0, gone_prefix(ps@, i as int, center), o),
        decreases ps.len() - i,
    {
        let p = ps[i];
        let ghost gone = gone_prefix(ps@, i as int, center);
        let ghost gone1 = gone_prefix(ps@, i + 1, center);
        proof {
            assert(ps@.contains(p));
            assert(!gone.contains(p)) by {
                if gone.contains(p) {
                    let j = choose|j: int| 0 <= j < i && ps@[j] == p && !retained(p, center);
                    assert(ps@[j] == ps@[i as int]);
                }
            }
        }
        if !keeps(p, center) {
            let ghost before = r@;
            let ghost gm = m.gap_map();
            let e = m.evict(p);
            proof {
                assert(gone1 =~= gone.insert(p));
                assert(m.generated_set() =~= g0.difference(gone1));
                assert(m.wall_map() =~= walls_outside(w0, gone1));
                assert forall|k: (EntityId, EntityId)|
                    m.gap_map().contains_key(k) == gaps_outside(k0, w0, gone1).contains_key(k) by {
                    if touches_gone(w0, gone1, k) && !touches_gone(w0, gone, k) {
                        let q = choose|q: TilePos|
                            #[trigger] gone1.contains(q) && w0.contains_key(q) && touches(k, w0[q]);
                        assert(q == p);
                    }
                    if touches_gone(w0, gone, k) {
                        let q = choose|q: TilePos|
                            #[trigger] gone.contains(q) && w0.contains_key(q) && touches(k, w0[q]);
                        assert(gone1.contains(q));
                    }
                    match e.wall {
                        Some(w) => {
                            if k0.contains_key(k) && touches(k, w) {
                                assert(gone1.contains(p) && w0.contains_key(p) && touches(k, w0[p]));
                            }
                        },
                        None => {},
                    }
                }
                assert(m.gap_map() =~= gaps_outside(k0, w0, gone1));
            }
            r.push(e);
            proof {
                assert forall|j: int|
                    #![trigger r@[j]]
                    0 <= j < r@.len() implies {
                        &&& g0.contains(r@[j].pos)
                        &&& !retained(r@[j].pos, center)
                        &&& r@[j].wall == (if w0.contains_key(r@[j].pos) {
                            Some(w0[r@[j].pos])
                        } else {
                            None::<EntityId>
                        })
                    } by {
                    if j < before.len() {
                        assert(before[j] == r@[j]);
                    }
                }
                assert forall|o: EntityId|
                    handed_back(r@, o) <==> occluder_gone(k0, w0, gone1, o) by {
                    lemma_handed_back_push(before, e, o);
                    if occluder_gone(k0, w0, gone1, o) && !occluder_gone(k0, w0, gone, o) {
                        let k = choose|k: (EntityId, EntityId)|
                            #[trigger] k0.contains_key(k) && touches_gone(w0, gone1, k) && k0[k] == o;
                        let q = choose|q: TilePos|
                            #[trigger] gone1.contains(q) && w0.contains_key(q) && touches(k, w0[q]);
                        if q != p {
                            assert(gone.contains(q));
                            assert(touches_gone(w0, gone, k));
                        }
                        assert(q == p);
                        assert(e.wall == Some(w0[p]));
                        assert(!touches_gone(w0, gone, k));
                        assert(gm.contains_key(k) && touches(k, w0[p]) && gm[k] == o);
                        assert(gaps_of(gm, w0[p]).contains(o));
                    }
                    if occluder_gone(k0, w0, gone, o) {
                        let k = choose|k: (EntityId, EntityId)|
                            #[trigger] k0.contains_key(k) && touches_gone(w0, gone, k) && k0[k] == o;
                        let q = choose|q: TilePos|
                            #[trigger] gone.contains(q) && w0.contains_key(q) && touches(k, w0[q]);
                        assert(gone1.contains(q));
                        assert(touches_gone(w0, gone1, k));
                    }
                    if e.occluders@.contains(o) {
                        let w = e.wall.unwrap();
                        assert(gaps_of(gm, w).contains(o));
                        let k = choose|k: (EntityId, EntityId)|
                            #[trigger] gm.contains_key(k) && touches(k, w) && gm[k] == o;
                        assert(gone1.contains(p) && w0.contains_key(p) && touches(k, w0[p]));
                        assert(touches_gone(w0, gone1, k));
                        assert(k0.contains_key(k) && k0[k] == o);
                    }
                }
                assert forall|q: TilePos| gone1.contains(q) implies exists|j: int|
                    0 <= j < r@.len() && (#[trigger] r@[j]).pos == q by {
                    if q == p {
                        assert(r@[r@.len() - 1].pos == q);
                    } else {
                        assert(gone.contains(q));
                        let j = choose|j: int| 0 <= j < before.len() && (#[trigger] before[j]).pos == q;
                        assert(r@[j] == before[j]);
                    }
                }
            }
        } else {
            proof {
                assert(gone1 =~= gone);
            }
        }
        i = i + 1;
    }
    proof {
        let gone = gone_prefix(ps@, ps@.len() as int, center);
        assert forall|p: TilePos| g0.contains(p) implies (gone.contains(p) <==> outside(center).contains(p)) by {
            assert(ps@.contains(p));
            let j = choose|j: int| 0 <= j < ps@.len() && ps@[j] == p;
        }
        assert(m.generated_set() =~= g0.difference(outside(center)));
        assert(m.wall_map() =~= walls_outside(w0, outside(center)));
        assert forall|k: (EntityId, EntityId)|
            touches_gone(w0, gone, k) == touches_gone(w0, outside(center), k) by {
            if touches_gone(w0, gone, k) {
                let q = choose|q: TilePos|
                    #[trigger] gone.contains(q) && w0.contains_key(q) && touches(k, w0[q]);
                assert(outside(center).contains(q));
            }
            if touches_gone(w0, outside(center), k) {
                let q = choose|q: TilePos|
                    #[trigger] outside(center).contains(q) && w0.contains_key(q) && touches(k, w0[q]);
                assert(gone.contains(q));
            }
        }
        assert(m.gap_map() =~= gaps_outside(k0, w0, outside(center)));
        assert forall|o: EntityId|
            occluder_gone(k0, w0, gone, o) == occluder_gone(k0, w0, outside(center), o) by {
            if occluder_gone(k0, w0, gone, o) {
                let k = choose|k: (EntityId, EntityId)|
                    #[trigger] k0.contains_key(k) && touches_gone(w0, gone, k) && k0[k] == o;
                assert(touches_gone(w0, outside(center), k));
            }
            if occluder_gone(k0, w0, outside(center), o) {
                let k = choose|k: (EntityId, EntityId)|
                    #[trigger] k0.contains_key(k) && touches_gone(w0, outside(center), k) && k0[k] == o;
                assert(touches_gone(w0, gone, k));
            }
        }
        assert forall|p: TilePos| old(m).generated_set().contains(p) && !retained(p, center) implies exists|i: int|
                0 <= i < r@.len() && (#[trigger] r@[i]).pos == p by {
            assert(gone.contains(p));
        }
    }
    r
}

proof fn lemma_handed_back_push(r: Seq<Eviction>, e: Eviction, o: EntityId)
    ensures
        handed_back(r.push(e), o) <==> handed_back(r, o) || e.occluders@.contains(o),
{
    let r1 = r.push(e);
    if handed_back(r, o) {
        let i = choose|i: int| 0 <= i < r.len() && (#[trigger] r[i]).occluders@.contains(o);
        assert(r1[i] == r[i]);
    }
    if e.occluders@.contains(o) {
        assert(r1[r.len() as int] == e);
    }
    if handed_back(r1, o) {
        let i = choose|i: int| 0 <= i < r1.len() && (#[trigger] r1[i]).occluders@.contains(o);
        if i < r.len() {
            assert(r1[i] == r[i]);
        }
    }
}

/// The positions among the first `i` of `ps` that lie outside the retention
/// window around `c`.
pub open spec fn gone_prefix(ps: Seq<TilePos>, i: int, c: TilePos) -> Set<TilePos> {
    Set::new(|p: TilePos| exists|j: int| 0 <= j < i && ps[j] == p && !retained(p, c))
}

/// Whether the tile at `p` stays while the stream is centred at `c`.
pub fn keeps(p: TilePos, c: TilePos) -> (r: bool)
    ensures
        r == retained(p, c),
{
    let dx: i64 = p.x as i64 - c.x as i64;
    let dy: i64 = p.y as i64 - c.y as i64;
    let wx: i128 = dx as i128;
    let wy: i128 = dy as i128;
    assert(0 <= wx * wx <= 0x1_0000_0000_0000_0000 && 0 <= wy * wy <= 0x1_0000_0000_0000_0000)
        by (nonlinear_arith)
        requires
            -0x1_0000_0000 <= wx <= 0x1_0000_0000,
            -0x1_0000_0000 <= wy <= 0x1_0000_0000,
    {
    }
    wx * wx + wy * wy <= RETENTION_LIMIT as i128
}

/// Every tile that a pass around `center` generates lies in the generation
/// window around `center` and did not exist before the pass.
pub proof fn lemma_pass_within_window(m: TerrainMap, center: TilePos)
    ensures
        forall|t: WindowTile|
            missing(m, center).contains(t) ==> window(center).contains(t)
                && !m.generated_set().contains(t.pos),
{
    assert forall|t: WindowTile| missing(m, center).contains(t) implies window(center).contains(t)
        && !m.generated_set().contains(t.pos) by {
        window(center).lemma_filter_contains_rev(not_generated(m), t);
        let i = choose|i: int| 0 <= i < missing(m, center).len() && missing(m, center)[i] == t;
        window(center).lemma_filter_pred(not_generated(m), i);
    }
}

/// Evicting a generated tile and generating it again restores the set of
/// generated tiles, and the same samples give it the same surface and the
/// same wall decision as the first time.
pub proof fn lemma_regeneration(
    generated: Set<TilePos>,
    pos: TilePos,
    first: NoiseSamples,
    again: NoiseSamples,
)
    requires
        generated.contains(pos),
        first == again,
    ensures
        generated.remove(pos).insert(pos) == generated,
        tile_class(again) == tile_class(first),
{
    assert(generated.remove(pos).insert(pos) =~= generated);
}

} // verus!
