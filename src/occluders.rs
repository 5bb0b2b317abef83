use vstd::prelude::*;

use crate::entity::{canonical, with_gap, without_wall, gaps_of, EntityId};
use crate::grid::TilePos;
use crate::terrain_map::{adjacent, TerrainMap};

verus! {

/// An occluder still to be spawned between a new wall and an adjacent one.
/// It is parented under `wall`; its centre is the midpoint of the two tiles,
/// and it spans the seam along x when the walls sit side by side on x.
#[derive(Clone, Copy, Debug, PartialEq, Eq, Structural)]
pub struct GapPlan {
    pub wall: EntityId,
    pub wall_pos: TilePos,
    pub neighbor: EntityId,
    pub neighbor_pos: TilePos,
    pub center: TilePos,
    pub along_x: bool,
}

/// `p` describes a seam of the wall at `wall_pos` in `m` that has no occluder yet.
pub open spec fn plan_valid(m: TerrainMap, wall_pos: TilePos, p: GapPlan) -> bool {
    &&& m.wall_map().contains_key(wall_pos)
    &&& p.wall == m.wall_map()[wall_pos]
    &&& p.wall_pos == wall_pos
    &&& adjacent(wall_pos, p.neighbor_pos)
    &&& m.generated_set().contains(p.neighbor_pos)
    &&& m.wall_map().contains_key(p.neighbor_pos)
    &&& p.neighbor == m.wall_map()[p.neighbor_pos]
    &&& !m.gap_map().contains_key(canonical(p.wall, p.neighbor))
    &&& 2 * p.center.x == wall_pos.x + p.neighbor_pos.x
    &&& 2 * p.center.y == wall_pos.y + p.neighbor_pos.y
    &&& p.along_x == (p.neighbor_pos.x != wall_pos.x)
}

/// The seams that the wall at `wall_pos` forms with the walls on adjacent
/// tiles and that have no occluder yet, one plan per neighbouring wall.
/// Nothing is planned where `wall_pos` holds no wall.
pub fn plan_gap_occluders(m: &TerrainMap, wall_pos: TilePos) -> (r: Vec<GapPlan>)
    requires
        m.wf(),
    ensures
        !m.wall_map().contains_key(wall_pos) ==> r@.len() == 0,
        forall|i: int| 0 <= i < r@.len() ==> plan_valid(*m, wall_pos, #[trigger] r@[i]),
        forall|i: int, j: int|
            0 <= i < j < r@.len() ==> (#[trigger] r@[i]).neighbor != (#[trigger] r@[j]).neighbor,
        forall|q: TilePos|
            #![trigger m.wall_map()[q]]
            m.wall_map().contains_key(wall_pos) && adjacent(wall_pos, q)
                && m.generated_set().contains(q) && m.wall_map().contains_key(q)
                && !m.gap_map().contains_key(canonical(m.wall_map()[wall_pos], m.wall_map()[q]))
                ==> exists|i: int| 0 <= i < r@.len() && r@[i].neighbor == m.wall_map()[q],
{
    let mut r: Vec<GapPlan> = Vec::new();
    let w = match m.wall_at(wall_pos) {
        Some(w) => w,
        None => {
            return r;
        },
    };
    let nbrs = m.find_adjacent_walls(wall_pos);
    let mut i: usize = 0;
    while i < nbrs.len()
        invariant
            m.wf(),
            i <= nbrs.len(),
            m.wall_map().contains_key(wall_pos),
            w == m.wall_map()[wall_pos],
            forall|q: TilePos|
                #![trigger nbrs@.contains(q)]
                nbrs@.contains(q) <==> adjacent(wall_pos, q) && m.generated_set().contains(q)
                    && m.wall_map().contains_key(q),
            forall|k: int| 0 <= k < r@.len() ==> plan_valid(*m, wall_pos, #[trigger] r@[k]),
            forall|a: int, b: int|
                0 <= a < b < r@.len() ==> (#[trigger] r@[a]).neighbor != (#[trigger] r@[b]).neighbor,
            forall|j: int|
                0 <= j < i && !m.gap_map().contains_key(
                    canonical(w, m.wall_map()[#[trigger] nbrs@[j]]),
                ) ==> exists|k: int| 0 <= k < r@.len() && r@[k].neighbor == m.wall_map()[nbrs@[j]],
        decreases nbrs.len() - i,
    {
        let q = nbrs[i];
        assert(nbrs@.contains(q));
        let n = match m.wall_at(q) {
            Some(n) => n,
            None => {
                assert(m.wall_map().contains_key(q));
                i = i + 1;
                continue;
            },
        };
        let fresh = m.gap_between(w, n).is_none();
        let planned = has_neighbor(&r, n);
        let ghost r0 = r@;
        if fresh && !planned {
            let cx: i32 = if q.x > wall_pos.x {
                wall_pos.x + 32
            } else if q.x < wall_pos.x {
                wall_pos.x - 32
            } else {
                wall_pos.x
            };
            let cy: i32 = if q.y > wall_pos.y {
                wall_pos.y + 32
            } else if q.y < wall_pos.y {
                wall_pos.y - 32
            } else {
                wall_pos.y
            };
            let ghost before = r@;
            r.push(
                GapPlan {
                    wall: w,
                    wall_pos,
                    neighbor: n,
                    neighbor_pos: q,
                    center: TilePos { x: cx, y: cy },
                    along_x: q.x != wall_pos.x,
                },
            );
            proof {
                assert forall|a: int| 0 <= a < r@.len() implies plan_valid(*m, wall_pos, #[trigger] r@[a]) by {
                    if a < before.len() {
                        assert(before[a] == r@[a]);
                    }
                }
                assert forall|a: int, b: int|
                    0 <= a < b < r@.len() implies (#[trigger] r@[a]).neighbor != (#[trigger] r@[b]).neighbor by {
                    assert(before[a] == r@[a]);
                    if b < before.len() {
                        assert(before[b] == r@[b]);
                    }
                }
            }
        }
        proof {
            assert forall|j: int|
                0 <= j < i + 1 && !m.gap_map().contains_key(
                    canonical(w, m.wall_map()[#[trigger] nbrs@[j]]),
                ) implies exists|k: int| 0 <= k < r@.len() && r@[k].neighbor == m.wall_map()[nbrs@[j]] by {
                if j < i {
                    let k0 = choose|k0: int| 0 <= k0 < r0.len() && r0[k0].neighbor == m.wall_map()[nbrs@[j]];
                    assert(r@[k0] == r0[k0]);
                } else {
                    if planned {
                        let a = choose|a: int| 0 <= a < r0.len() && r0[a].neighbor == n;
                        assert(r@[a] == r0[a]);
                    } else {
                        assert(r@[r@.len() - 1].neighbor == n);
                    }
                }
            }
        }
        i = i + 1;
    }
    proof {
        assert forall|q: TilePos|
            #![trigger m.wall_map()[q]]
            m.wall_map().contains_key(wall_pos) && adjacent(wall_pos, q)
                && m.generated_set().contains(q) && m.wall_map().contains_key(q)
                && !m.gap_map().contains_key(canonical(m.wall_map()[wall_pos], m.wall_map()[q]))
                implies exists|i: int| 0 <= i < r@.len() && r@[i].neighbor == m.wall_map()[q] by {
            assert(nbrs@.contains(q));
            let j = choose|j: int| 0 <= j < nbrs@.len() && nbrs@[j] == q;
            assert(nbrs@[j] == q);
        }
    }
    r
}

/// Whether some plan of `r` already bridges to wall `n`.
fn has_neighbor(r: &Vec<GapPlan>, n: EntityId) -> (b: bool)
    ensures
        b == exists|a: int| 0 <= a < r@.len() && r@[a].neighbor == n,
{
    let mut k: usize = 0;
    while k < r.len()
        invariant
            k <= r.len(),
            forall|a: int| 0 <= a < k ==> r@[a].neighbor != n,
        decreases r.len() - k,
    {
        if r[k].neighbor == n {
            return true;
        }
        k = k + 1;
    }
    false
}

/// The gap graph after recording `occluders[i]` for the seam of `plans[i]`,
/// in order.
pub open spec fn with_planned_gaps(
    g: Map<(EntityId, EntityId), EntityId>,
    plans: Seq<GapPlan>,
    occluders: Seq<EntityId>,
) -> Map<(EntityId, EntityId), EntityId>
    decreases plans.len(),
{
    if plans.len() == 0 {
        g
    } else {
        let n = plans.len() - 1;
        with_gap(
            with_planned_gaps(g, plans.drop_last(), occluders.take(n)),
            plans[n].wall,
            plans[n].neighbor,
            occluders[n],
        )
    }
}

/// Records the occluders spawned for planned seams: `occluders[i]` bridges
/// the seam of `plans[i]`.
pub fn add_gap_occluders_for_tile(
    m: &mut TerrainMap,
    plans: &Vec<GapPlan>,
    occluders: &Vec<EntityId>,
)
    requires
        old(m).wf(),
        plans@.len() == occluders@.len(),
    ensures
        final(m).wf(),
        final(m).generated_set() == old(m).generated_set(),
        final(m).wall_map() == old(m).wall_map(),
        final(m).gap_map() == with_planned_gaps(old(m).gap_map(), plans@, occluders@),
{
    let mut i: usize = 0;
    while i < plans.len()
        invariant
            i <= plans.len(),
            plans@.len() == occluders@.len(),
            m.wf(),
            m.generated_set() == old(m).generated_set(),
            m.wall_map() == old(m).wall_map(),
            m.gap_map() == with_planned_gaps(
                old(m).gap_map(),
                plans@.take(i as int),
                occluders@.take(i as int),
            ),
        decreases plans.len() - i,
    {
        let p = plans[i];
        m.add_gap_occluder(p.wall, p.neighbor, occluders[i]);
        proof {
            let ps = plans@.take(i + 1);
            let os = occluders@.take(i + 1);
            assert(ps.drop_last() =~= plans@.take(i as int));
            assert(os.take(i as int) =~= occluders@.take(i as int));
        }
        i = i + 1;
    }
    assert(plans@.take(plans.len() as int) =~= plans@);
    assert(occluders@.take(plans.len() as int) =~= occluders@);
}

/// Forgets every seam of `wall` and hands back their occluders to despawn.
pub fn remove_gap_occluders_for_wall(m: &mut TerrainMap, wall: EntityId) -> (r: Vec<EntityId>)
    requires
        old(m).wf(),
    ensures
        final(m).wf(),
        final(m).generated_set() == old(m).generated_set(),
        final(m).wall_map() == old(m).wall_map(),
        final(m).gap_map() == without_wall(old(m).gap_map(), wall),
        forall|o: EntityId| r@.contains(o) <==> gaps_of(old(m).gap_map(), wall).contains(o),
{
    m.remove_gaps_for_wall(wall)
}

} // verus!
