use vstd::prelude::*;

verus! {

/// An opaque, stable handle of a spawned entity (a wall or an occluder).
#[derive(Clone, Copy, Debug, PartialEq, Eq, Structural, Hash)]
pub struct EntityId {
    pub bits: u64,
}

/// The unordered pair of two walls, written with the smaller handle first.
pub open spec fn canonical(a: EntityId, b: EntityId) -> (EntityId, EntityId) {
    if a.bits < b.bits {
        (a, b)
    } else {
        (b, a)
    }
}

/// A gap key names wall `w` as one of its two ends.
pub open spec fn touches(k: (EntityId, EntityId), w: EntityId) -> bool {
    k.0 == w || k.1 == w
}

/// The gap graph after recording occluder `h` for the seam between `a` and
/// `b`: unchanged if that seam already has one.
pub open spec fn with_gap(
    g: Map<(EntityId, EntityId), EntityId>,
    a: EntityId,
    b: EntityId,
    h: EntityId,
) -> Map<(EntityId, EntityId), EntityId> {
    let k = canonical(a, b);
    if g.contains_key(k) {
        g
    } else {
        g.insert(k, h)
    }
}

/// The gap graph without every seam that touches wall `w`.
pub open spec fn without_wall(g: Map<(EntityId, EntityId), EntityId>, w: EntityId) -> Map<
    (EntityId, EntityId),
    EntityId,
> {
    Map::new(|k: (EntityId, EntityId)| g.contains_key(k) && !touches(k, w), |k| g[k])
}

/// The occluders of the seams that touch wall `w`.
pub open spec fn gaps_of(g: Map<(EntityId, EntityId), EntityId>, w: EntityId) -> Set<EntityId> {
    Set::new(
        |o: EntityId|
            exists|k: (EntityId, EntityId)| #[trigger] g.contains_key(k) && touches(k, w) && g[k] == o,
    )
}

/// No occluder serves two seams.
pub open spec fn occluders_distinct(g: Map<(EntityId, EntityId), EntityId>) -> bool {
    forall|k1: (EntityId, EntityId), k2: (EntityId, EntityId)|
        g.contains_key(k1) && g.contains_key(k2) && g[k1] == g[k2] ==> k1 == k2
}

/// The key of the seam between `a` and `b`, the same whichever comes first.
pub fn canonical_pair(a: EntityId, b: EntityId) -> (r: (EntityId, EntityId))
    ensures
        r == canonical(a, b),
        r == canonical(b, a),
        r.0.bits <= r.1.bits,
{
    if a.bits < b.bits {
        (a, b)
    } else {
        (b, a)
    }
}

/// Recording a new seam between `a` and `b` makes its occluder one of the
/// gaps of both walls; recording the same seam again, with the walls in the
/// other order and another occluder, changes nothing.
pub proof fn lemma_gap_symmetry(
    g: Map<(EntityId, EntityId), EntityId>,
    a: EntityId,
    b: EntityId,
    h: EntityId,
    h2: EntityId,
)
    requires
        !g.contains_key(canonical(a, b)),
    ensures
        gaps_of(with_gap(g, a, b, h), a).contains(h),
        gaps_of(with_gap(g, a, b, h), b).contains(h),
        with_gap(with_gap(g, a, b, h), b, a, h2) == with_gap(g, a, b, h),
{
    let g1 = with_gap(g, a, b, h);
    let k = canonical(a, b);
    assert(g1.contains_key(k) && touches(k, a) && g1[k] == h);
    assert(g1.contains_key(k) && touches(k, b) && g1[k] == h);
    assert(canonical(b, a) == k);
}

/// Removing the seams of wall `a` leaves `a` with no gaps, and an occluder
/// that `a` shared with another wall `b` is no longer among `b`'s gaps.
pub proof fn lemma_cascading_removal(
    g: Map<(EntityId, EntityId), EntityId>,
    a: EntityId,
    b: EntityId,
)
    requires
        occluders_distinct(g),
    ensures
        gaps_of(without_wall(g, a), a) == Set::<EntityId>::empty(),
        g.contains_key(canonical(a, b)) ==> !gaps_of(without_wall(g, a), b).contains(
            g[canonical(a, b)],
        ),
{
    let g1 = without_wall(g, a);
    assert(gaps_of(g1, a) =~= Set::<EntityId>::empty());
    if g.contains_key(canonical(a, b)) {
        let o = g[canonical(a, b)];
        if gaps_of(g1, b).contains(o) {
            let k = choose|k: (EntityId, EntityId)|
                #[trigger] g1.contains_key(k) && touches(k, b) && g1[k] == o;
            assert(g.contains_key(k) && g[k] == o);
            assert(k == canonical(a, b));
            assert(touches(k, a));
        }
    }
}

} // verus!
