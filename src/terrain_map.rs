use vstd::prelude::*;

use crate::entity::{
    canonical, canonical_pair, gaps_of, with_gap, without_wall, EntityId,
};
use crate::entries::{drop_gaps_touching, drop_wall, gaps_touching, lookup_gap, lookup_wall};
use crate::grid::TilePos;
use crate::keyed::{keyed_map, keys_unique, lemma_keyed_entries, lemma_keyed_push};

verus! {

/// `q` is one of the four axis neighbours of `p`, one tile away.
pub open spec fn adjacent(p: TilePos, q: TilePos) -> bool {
    ||| q.y == p.y && (q.x == p.x + 64 || q.x == p.x - 64)
    ||| q.x == p.x && (q.y == p.y + 64 || q.y == p.y - 64)
}

/// What leaving the world took with it: the tile's wall, if it had one, and
/// the occluders of that wall's seams. The caller despawns them.
pub struct Eviction {
    pub pos: TilePos,
    pub wall: Option<EntityId>,
    pub occluders: Vec<EntityId>,
}

/// The record of what currently exists in the world: the generated tiles,
/// the wall spawned on some of them, and the gap occluders between
/// adjacent walls.
pub struct TerrainMap {
    generated: Vec<TilePos>,
    walls: Vec<(TilePos, EntityId)>,
    gaps: Vec<((EntityId, EntityId), EntityId)>,
}

impl TerrainMap {
    /// The positions that have a live floor tile.
    pub closed spec fn generated_set(&self) -> Set<TilePos> {
        Set::new(|p: TilePos| self.generated@.contains(p))
    }

    /// The wall spawned at each position that has one.
    pub closed spec fn wall_map(&self) -> Map<TilePos, EntityId> {
        keyed_map(self.walls@)
    }

    /// The occluder of each seam, keyed by the canonical pair of its walls.
    pub closed spec fn gap_map(&self) -> Map<(EntityId, EntityId), EntityId> {
        keyed_map(self.gaps@)
    }

    /// Walls stand only on generated tiles, and every seam key is canonical.
    pub closed spec fn wf(&self) -> bool {
        &&& self.generated@.no_duplicates()
        &&& keys_unique(self.walls@)
        &&& keys_unique(self.gaps@)
        &&& self.wall_map().dom().subset_of(self.generated_set())
        &&& forall|k: (EntityId, EntityId)|
            #[trigger] self.gap_map().contains_key(k) ==> k.0.bits <= k.1.bits
    }

    /// In a well-formed map every wall stands on a generated tile.
    pub proof fn lemma_walls_generated(&self)
        requires
            self.wf(),
        ensures
            self.wall_map().dom().subset_of(self.generated_set()),
    {
    }

    /// A map with nothing in it.
    pub fn new() -> (r: Self)
        ensures
            r.wf(),
            r.generated_set() == Set::<TilePos>::empty(),
            r.wall_map() == Map::<TilePos, EntityId>::empty(),
            r.gap_map() == Map::<(EntityId, EntityId), EntityId>::empty(),
    {
        let r = TerrainMap { generated: Vec::new(), walls: Vec::new(), gaps: Vec::new() };
        assert(r.generated_set() =~= Set::<TilePos>::empty());
        r
    }

    /// Whether the tile at `pos` exists.
    pub fn contains(&self, pos: TilePos) -> (r: bool)
        ensures
            r == self.generated_set().contains(pos),
    {
        let mut i: usize = 0;
        while i < self.generated.len()
            invariant
                i <= self.generated.len(),
                forall|j: int| 0 <= j < i ==> self.generated@[j] != pos,
            decreases self.generated.len() - i,
        {
            if self.generated[i] == pos {
                assert(self.generated@[i as int] == pos);
                return true;
            }
            i = i + 1;
        }
        false
    }

    /// Records the tile at `pos` as generated; a tile already there stays as it is.
    pub fn mark_generated(&mut self, pos: TilePos)
        requires
            old(self).wf(),
        ensures
            final(self).wf(),
            final(self).generated_set() == old(self).generated_set().insert(pos),
            final(self).wall_map() == old(self).wall_map(),
            final(self).gap_map() == old(self).gap_map(),
    {
        if !self.contains(pos) {
            let ghost before = self.generated@;
            self.generated.push(pos);
            assert forall|i: int, j: int| 0 <= i < self.generated.len() && 0 <= j < self.generated.len()
                && i != j implies self.generated@[i] != self.generated@[j] by {
                if i < before.len() && j < before.len() {
                    assert(before[i] == self.generated@[i] && before[j] == self.generated@[j]);
                } else if i < before.len() {
                    assert(before[i] == self.generated@[i]);
                    assert(before.contains(before[i]));
                } else if j < before.len() {
                    assert(before[j] == self.generated@[j]);
                    assert(before.contains(before[j]));
                }
            }
            assert(self.generated@[self.generated.len() - 1] == pos);
            assert forall|p: TilePos| old(self).generated@.contains(p) implies self.generated@.contains(
                p,
            ) by {
                let j = choose|j: int| 0 <= j < old(self).generated.len() && old(self).generated@[j] == p;
                assert(self.generated@[j] == p);
            }
        }
        assert(self.generated_set() =~= old(self).generated_set().insert(pos));
        assert(old(self).wall_map().dom().subset_of(old(self).generated_set()));
        assert(self.gaps@ == old(self).gaps@);
        assert(self.gap_map() == old(self).gap_map());
    }

    /// The wall standing at `pos`, if any.
    pub fn wall_at(&self, pos: TilePos) -> (r: Option<EntityId>)
        requires
            self.wf(),
        ensures
            r == (if self.wall_map().contains_key(pos) {
                Some(self.wall_map()[pos])
            } else {
                None::<EntityId>
            }),
    {
        lookup_wall(&self.walls, pos)
    }

    /// Records `wall` as the wall spawned on the generated tile at `pos`.
    pub fn register_wall(&mut self, pos: TilePos, wall: EntityId)
        requires
            old(self).wf(),
            old(self).generated_set().contains(pos),
        ensures
            final(self).wf(),
            final(self).generated_set() == old(self).generated_set(),
            final(self).wall_map() == old(self).wall_map().insert(pos, wall),
            final(self).gap_map() == old(self).gap_map(),
    {
        let (mut rest, _) = drop_wall(&self.walls, pos);
        proof {
            lemma_keyed_entries(rest@);
            lemma_keyed_push(rest@, (pos, wall));
            assert forall|i: int| 0 <= i < rest@.len() implies rest@[i].0 != pos by {
                assert(keyed_map(rest@).contains_key(rest@[i].0));
            }
        }
        let ghost before = rest@;
        rest.push((pos, wall));
        proof {
            assert forall|i: int, j: int| 0 <= i < j < rest@.len() implies rest@[i].0 != rest@[j].0 by {
                if j < before.len() {
                    assert(before[i] == rest@[i] && before[j] == rest@[j]);
                } else {
                    assert(before[i] == rest@[i]);
                }
            }
        }
        self.walls = rest;
        assert(self.wall_map() =~= old(self).wall_map().insert(pos, wall));
        assert(old(self).wall_map().dom().subset_of(old(self).generated_set()));
        assert(self.wall_map().dom().subset_of(self.generated_set()));
        assert(self.gap_map() == old(self).gap_map());
    }

    /// Whether the tile at `(nx, ny)` exists and holds a wall; such a tile
    /// is appended to `out`.
    fn push_if_wall(&self, out: &mut Vec<TilePos>, nx: i64, ny: i64)
        requires
            self.wf(),
        ensures
            ({
                let q = TilePos { x: nx as i32, y: ny as i32 };
                let hit = i32::MIN <= nx <= i32::MAX && i32::MIN <= ny <= i32::MAX
                    && self.generated_set().contains(q) && self.wall_map().contains_key(q);
                final(out)@ == if hit {
                    old(out)@.push(q)
                } else {
                    old(out)@
                }
            }),
    {
        if i32::MIN as i64 <= nx && nx <= i32::MAX as i64 && i32::MIN as i64 <= ny && ny
            <= i32::MAX as i64 {
            let q = TilePos { x: nx as i32, y: ny as i32 };
            if self.contains(q) {
                if self.wall_at(q).is_some() {
                    out.push(q);
                }
            }
        }
    }

    /// The axis neighbours of `pos`, one tile away, that exist and hold a
    /// wall: right, left, up, then down.
    pub fn find_adjacent_walls(&self, pos: TilePos) -> (r: Vec<TilePos>)
        requires
            self.wf(),
        ensures
            forall|q: TilePos|
                #![trigger r@.contains(q)]
                r@.contains(q) <==> adjacent(pos, q) && self.generated_set().contains(q)
                    && self.wall_map().contains_key(q),
            r@.no_duplicates(),
    {
        let mut r: Vec<TilePos> = Vec::new();
        let x = pos.x as i64;
        let y = pos.y as i64;
        self.push_if_wall(&mut r, x + 64, y);
        let ghost r1 = r@;
        self.push_if_wall(&mut r, x - 64, y);
        let ghost r2 = r@;
        self.push_if_wall(&mut r, x, y + 64);
        let ghost r3 = r@;
        self.push_if_wall(&mut r, x, y - 64);
        proof {
            let c0 = TilePos { x: (x + 64) as i32, y: y as i32 };
            let c1 = TilePos { x: (x - 64) as i32, y: y as i32 };
            let c2 = TilePos { x: x as i32, y: (y + 64) as i32 };
            let c3 = TilePos { x: x as i32, y: (y - 64) as i32 };
            assert forall|j: int| 0 <= j < r@.len() implies (r@[j] == c0 && r@[j].x == x + 64) || (
            r@[j] == c1 && r@[j].x == x - 64) || (r@[j] == c2 && r@[j].y == y + 64) || (r@[j]
                == c3 && r@[j].y == y - 64) by {
                if j < r1.len() {
                    assert(r1[j] == r@[j]);
                } else if j < r2.len() {
                    assert(r2[j] == r@[j]);
                } else if j < r3.len() {
                    assert(r3[j] == r@[j]);
                }
            }
            assert forall|q: TilePos|
                r@.contains(q) <==> adjacent(pos, q) && self.generated_set().contains(q)
                    && self.wall_map().contains_key(q) by {
                if r@.contains(q) {
                    let j = choose|j: int| 0 <= j < r@.len() && r@[j] == q;
                    assert(r@[j] == q);
                }
                if adjacent(pos, q) && self.generated_set().contains(q)
                    && self.wall_map().contains_key(q) {
                    if q.y == pos.y && q.x == pos.x + 64 {
                        assert(q == c0);
                        assert(r1.contains(q)) by {
                            assert(r1[r1.len() - 1] == q);
                        }
                        assert(r@[r1.len() - 1] == q);
                    } else if q.y == pos.y && q.x == pos.x - 64 {
                        assert(q == c1);
                        assert(r@[r2.len() - 1] == q);
                    } else if q.x == pos.x && q.y == pos.y + 64 {
                        assert(q == c2);
                        assert(r@[r3.len() - 1] == q);
                    } else {
                        assert(q == c3);
                        assert(r@[r@.len() - 1] == q);
                    }
                }
            }
            assert forall|i: int, j: int| 0 <= i < r@.len() && 0 <= j < r@.len() && i != j implies r@[i]
                != r@[j] by {
                if i < r1.len() {
                    assert(r1[i] == r@[i]);
                } else if i < r2.len() {
                    assert(r2[i] == r@[i]);
                } else if i < r3.len() {
                    assert(r3[i] == r@[i]);
                }
                if j < r1.len() {
                    assert(r1[j] == r@[j]);
                } else if j < r2.len() {
                    assert(r2[j] == r@[j]);
                } else if j < r3.len() {
                    assert(r3[j] == r@[j]);
                }
            }
        }
        r
    }
}

impl TerrainMap {
    /// Every generated position, each once.
    pub fn generated_positions(&self) -> (r: Vec<TilePos>)
        requires
            self.wf(),
        ensures
            r@.no_duplicates(),
            forall|p: TilePos| r@.contains(p) <==> self.generated_set().contains(p),
    {
        self.generated.clone()
    }

    /// The occluder of the seam between `a` and `b`, if one is recorded.
    pub fn gap_between(&self, a: EntityId, b: EntityId) -> (r: Option<EntityId>)
        requires
            self.wf(),
        ensures
            r == (if self.gap_map().contains_key(canonical(a, b)) {
                Some(self.gap_map()[canonical(a, b)])
            } else {
                None::<EntityId>
            }),
    {
        lookup_gap(&self.gaps, canonical_pair(a, b))
    }

    /// Records `gap` as the occluder of the seam between walls `a` and `b`,
    /// in either order; a seam that already has one keeps it.
    pub fn add_gap_occluder(&mut self, a: EntityId, b: EntityId, gap: EntityId)
        requires
            old(self).wf(),
        ensures
            final(self).wf(),
            final(self).generated_set() == old(self).generated_set(),
            final(self).wall_map() == old(self).wall_map(),
            final(self).gap_map() == with_gap(old(self).gap_map(), a, b, gap),
    {
        let key = canonical_pair(a, b);
        if lookup_gap(&self.gaps, key).is_none() {
            proof {
                lemma_keyed_entries(self.gaps@);
                lemma_keyed_push(self.gaps@, (key, gap));
            }
            let ghost before = self.gaps@;
            self.gaps.push((key, gap));
            proof {
                assert forall|i: int, j: int| 0 <= i < j < self.gaps@.len() implies self.gaps@[i].0
                    != self.gaps@[j].0 by {
                    assert(before[i] == self.gaps@[i]);
                    if j < before.len() {
                        assert(before[j] == self.gaps@[j]);
                    } else {
                        assert(keyed_map(before).contains_key(before[i].0));
                    }
                }
            }
        }
        assert(self.gap_map() =~= with_gap(old(self).gap_map(), a, b, gap));
        assert(self.wall_map() == old(self).wall_map());
    }

    /// The occluders of every seam that touches `wall`.
    pub fn get_gaps_for_wall(&self, wall: EntityId) -> (r: Vec<EntityId>)
        requires
            self.wf(),
        ensures
            forall|o: EntityId| r@.contains(o) <==> gaps_of(self.gap_map(), wall).contains(o),
    {
        gaps_touching(&self.gaps, wall)
    }

    /// Forgets every seam that touches `wall` and hands back their occluders,
    /// for the caller to despawn.
    pub fn remove_gaps_for_wall(&mut self, wall: EntityId) -> (r: Vec<EntityId>)
        requires
            old(self).wf(),
        ensures
            final(self).wf(),
            final(self).generated_set() == old(self).generated_set(),
            final(self).wall_map() == old(self).wall_map(),
            final(self).gap_map() == without_wall(old(self).gap_map(), wall),
            forall|o: EntityId| r@.contains(o) <==> gaps_of(old(self).gap_map(), wall).contains(o),
    {
        let (rest, removed) = drop_gaps_touching(&self.gaps, wall);
        self.gaps = rest;
        assert(self.wall_map() == old(self).wall_map());
        assert forall|k: (EntityId, EntityId)| #[trigger] self.gap_map().contains_key(k) implies k.0.bits
            <= k.1.bits by {
            assert(old(self).gap_map().contains_key(k));
        }
        removed
    }

    /// Removes the tile at `pos` from the world: the position, the wall on it
    /// and every seam of that wall. What was removed is handed back.
    pub fn evict(&mut self, pos: TilePos) -> (r: Eviction)
        requires
            old(self).wf(),
        ensures
            final(self).wf(),
            final(self).generated_set() == old(self).generated_set().remove(pos),
            final(self).wall_map() == old(self).wall_map().remove(pos),
            r.pos == pos,
            r.wall == (if old(self).wall_map().contains_key(pos) {
                Some(old(self).wall_map()[pos])
            } else {
                None::<EntityId>
            }),
            final(self).gap_map() == (match r.wall {
                Some(w) => without_wall(old(self).gap_map(), w),
                None => old(self).gap_map(),
            }),
            forall|o: EntityId|
                r.occluders@.contains(o) <==> match r.wall {
                    Some(w) => gaps_of(old(self).gap_map(), w).contains(o),
                    None => false,
                },
    {
        self.drop_generated(pos);
        let (rest, wall) = drop_wall(&self.walls, pos);
        self.walls = rest;
        assert(self.wall_map().dom().subset_of(self.generated_set())) by {
            assert(old(self).wall_map().dom().subset_of(old(self).generated_set()));
        }
        assert(self.gaps@ == old(self).gaps@);
        assert(self.gap_map() == old(self).gap_map());
        assert(self.wf());
        let occluders = match wall {
            Some(w) => self.remove_gaps_for_wall(w),
            None => Vec::new(),
        };
        Eviction { pos, wall, occluders }
    }

    /// Removes `pos` from the generated tiles, leaving walls and seams as they are.
    fn drop_generated(&mut self, pos: TilePos)
        requires
            old(self).generated@.no_duplicates(),
        ensures
            final(self).generated@.no_duplicates(),
            final(self).generated_set() == old(self).generated_set().remove(pos),
            final(self).walls == old(self).walls,
            final(self).gaps == old(self).gaps,
    {
        let mut out: Vec<TilePos> = Vec::new();
        let mut i: usize = 0;
        while i < self.generated.len()
            invariant
                i <= self.generated.len(),
                self.generated@.no_duplicates(),
                out@.no_duplicates(),
                forall|p: TilePos|
                    out@.contains(p) <==> p != pos && exists|j: int|
                        0 <= j < i && self.generated@[j] == p,
            decreases self.generated.len() - i,
        {
            let p = self.generated[i];
            let ghost before = out@;
            if p != pos {
                assert(!before.contains(p)) by {
                    if before.contains(p) {
                        let j = choose|j: int| 0 <= j < i && self.generated@[j] == p;
                        assert(self.generated@[j] == self.generated@[i as int]);
                    }
                }
                out.push(p);
                assert forall|a: int, b: int| 0 <= a < out@.len() && 0 <= b < out@.len() && a != b implies out@[a] != out@[b] by {
                    if a < before.len() && b < before.len() {
                        assert(before[a] == out@[a] && before[b] == out@[b]);
                    } else if a < before.len() {
                        assert(before[a] == out@[a]);
                        assert(before.contains(before[a]));
                    } else if b < before.len() {
                        assert(before[b] == out@[b]);
                        assert(before.contains(before[b]));
                    }
                }
            }
            proof {
                assert forall|q: TilePos|
                    out@.contains(q) <==> q != pos && exists|j: int|
                        0 <= j < i + 1 && self.generated@[j] == q by {
                    if out@.contains(q) {
                        let m = choose|m: int| 0 <= m < out@.len() && out@[m] == q;
                        if m < before.len() {
                            assert(before[m] == q);
                            assert(before.contains(q));
                        } else {
                            assert(self.generated@[i as int] == q);
                        }
                    }
                    if q != pos && exists|j: int| 0 <= j < i + 1 && self.generated@[j] == q {
                        let j = choose|j: int| 0 <= j < i + 1 && self.generated@[j] == q;
                        if j < i {
                            assert(before.contains(q));
                            let m = choose|m: int| 0 <= m < before.len() && before[m] == q;
                            assert(out@[m] == q);
                        } else {
                            assert(out@[out@.len() - 1] == q);
                        }
                    }
                }
            }
            i = i + 1;
        }
        self.generated = out;
        assert(self.generated_set() =~= old(self).generated_set().remove(pos));
    }
}

} // verus!
