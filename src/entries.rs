use vstd::prelude::*;

use crate::entity::{gaps_of, touches, without_wall, EntityId};
use crate::grid::TilePos;
use crate::keyed::{keyed_map, keys_unique, lemma_keyed_entries, lemma_keyed_push};

verus! {

/// The wall entry of `pos`, if any.
pub fn lookup_wall(s: &Vec<(TilePos, EntityId)>, pos: TilePos) -> (r: Option<EntityId>)
    requires
        keys_unique(s@),
    ensures
        r == (if keyed_map(s@).contains_key(pos) {
            Some(keyed_map(s@)[pos])
        } else {
            None::<EntityId>
        }),
{
    let mut i: usize = 0;
    while i < s.len()
        invariant
            i <= s.len(),
            keys_unique(s@),
            forall|j: int| 0 <= j < i ==> s@[j].0 != pos,
        decreases s.len() - i,
    {
        if s[i].0 == pos {
            proof {
                lemma_keyed_entries(s@);
            }
            return Some(s[i].1);
        }
        i = i + 1;
    }
    proof {
        lemma_keyed_entries(s@);
    }
    None
}

/// The occluder recorded under gap key `key`, if any.
pub fn lookup_gap(s: &Vec<((EntityId, EntityId), EntityId)>, key: (EntityId, EntityId)) -> (r:
    Option<EntityId>)
    requires
        keys_unique(s@),
    ensures
        r == (if keyed_map(s@).contains_key(key) {
            Some(keyed_map(s@)[key])
        } else {
            None::<EntityId>
        }),
{
    let mut i: usize = 0;
    while i < s.len()
        invariant
            i <= s.len(),
            keys_unique(s@),
            forall|j: int| 0 <= j < i ==> s@[j].0 != key,
        decreases s.len() - i,
    {
        let k = s[i].0;
        if k.0 == key.0 && k.1 == key.1 {
            proof {
                lemma_keyed_entries(s@);
            }
            return Some(s[i].1);
        }
        i = i + 1;
    }
    proof {
        lemma_keyed_entries(s@);
    }
    None
}

/// The entries without the one of `pos`, and the wall that it held.
pub fn drop_wall(s: &Vec<(TilePos, EntityId)>, pos: TilePos) -> (r: (
    Vec<(TilePos, EntityId)>,
    Option<EntityId>,
))
    requires
        keys_unique(s@),
    ensures
        keys_unique(r.0@),
        keyed_map(r.0@) == keyed_map(s@).remove(pos),
        r.1 == (if keyed_map(s@).contains_key(pos) {
            Some(keyed_map(s@)[pos])
        } else {
            None::<EntityId>
        }),
{
    let mut out: Vec<(TilePos, EntityId)> = Vec::new();
    let mut found: Option<EntityId> = None;
    let mut i: usize = 0;
    while i < s.len()
        invariant
            i <= s.len(),
            keys_unique(s@),
            keys_unique(out@),
            forall|j: int, m: int| 0 <= j < out.len() && i <= m < s.len() ==> out@[j].0 != s@[m].0,
            keyed_map(out@) == keyed_map(s@.take(i as int)).remove(pos),
            found == (if keyed_map(s@.take(i as int)).contains_key(pos) {
                Some(keyed_map(s@.take(i as int))[pos])
            } else {
                None::<EntityId>
            }),
        decreases s.len() - i,
    {
        let e = s[i];
        proof {
            assert(s@.take(i + 1) =~= s@.take(i as int).push(e));
            lemma_keyed_push(s@.take(i as int), e);
        }
        if e.0 == pos {
            found = Some(e.1);
            assert(keyed_map(out@) =~= keyed_map(s@.take(i + 1)).remove(pos));
        } else {
            proof {
                lemma_keyed_push(out@, e);
            }
            out.push(e);
            assert(keyed_map(out@) =~= keyed_map(s@.take(i + 1)).remove(pos));
        }
        i = i + 1;
    }
    assert(s@.take(s.len() as int) =~= s@);
    (out, found)
}

/// The occluders of the entries whose key touches wall `w`.
pub fn gaps_touching(s: &Vec<((EntityId, EntityId), EntityId)>, w: EntityId) -> (r: Vec<
    EntityId,
>)
    requires
        keys_unique(s@),
    ensures
        forall|o: EntityId| r@.contains(o) <==> gaps_of(keyed_map(s@), w).contains(o),
{
    let mut out: Vec<EntityId> = Vec::new();
    let mut i: usize = 0;
    while i < s.len()
        invariant
            i <= s.len(),
            keys_unique(s@),
            forall|o: EntityId|
                out@.contains(o) <==> gaps_of(keyed_map(s@.take(i as int)), w).contains(o),
        decreases s.len() - i,
    {
        let e = s[i];
        proof {
            let p = s@.take(i as int);
            assert(s@.take(i + 1) =~= p.push(e));
            lemma_keyed_push(p, e);
            assert(keys_unique(p));
            lemma_keyed_entries(p);
            assert(!keyed_map(p).contains_key(e.0)) by {
                if keyed_map(p).contains_key(e.0) {
                    let m = choose|m: int| 0 <= m < p.len() && p[m].0 == e.0;
                    assert(s@[m].0 != s@[i as int].0);
                }
            }
        }
        let hit = e.0.0 == w || e.0.1 == w;
        let ghost prev = out@;
        if hit {
            out.push(e.1);
        }
        proof {
            let p = s@.take(i as int);
            let g0 = keyed_map(p);
            let g1 = keyed_map(s@.take(i + 1));
            assert forall|o: EntityId| out@.contains(o) <==> (prev.contains(o) || (hit && o == e.1)) by {
                if hit {
                    assert(out@ == prev.push(e.1));
                    if prev.contains(o) {
                        let j = choose|j: int| 0 <= j < prev.len() && prev[j] == o;
                        assert(out@[j] == o);
                    }
                    if out@.contains(o) && o != e.1 {
                        let j = choose|j: int| 0 <= j < out@.len() && out@[j] == o;
                        assert(prev[j] == o);
                    }
                    assert(out@[prev.len() as int] == e.1);
                }
            }
            assert forall|o: EntityId| gaps_of(g1, w).contains(o) <==> (gaps_of(g0, w).contains(o) || (hit && o == e.1)) by {
                if gaps_of(g1, w).contains(o) {
                    let k = choose|k: (EntityId, EntityId)|
                        #[trigger] g1.contains_key(k) && touches(k, w) && g1[k] == o;
                    if k != e.0 {
                        assert(g0.contains_key(k) && touches(k, w) && g0[k] == o);
                    }
                }
                if gaps_of(g0, w).contains(o) {
                    let k = choose|k: (EntityId, EntityId)|
                        #[trigger] g0.contains_key(k) && touches(k, w) && g0[k] == o;
                    assert(g1.contains_key(k) && touches(k, w) && g1[k] == o);
                }
                if hit && o == e.1 {
                    assert(g1.contains_key(e.0) && touches(e.0, w) && g1[e.0] == o);
                }
            }
            assert forall|o: EntityId| out@.contains(o) <==> gaps_of(g1, w).contains(o) by {
                assert(prev.contains(o) <==> gaps_of(g0, w).contains(o));
            }
        }
        i = i + 1;
    }
    assert(s@.take(s.len() as int) =~= s@);
    out
}

/// The entries without those whose key touches wall `w`, and the occluders
/// that those held.
pub fn drop_gaps_touching(s: &Vec<((EntityId, EntityId), EntityId)>, w: EntityId) -> (r: (
    Vec<((EntityId, EntityId), EntityId)>,
    Vec<EntityId>,
))
    requires
        keys_unique(s@),
    ensures
        keys_unique(r.0@),
        keyed_map(r.0@) == without_wall(keyed_map(s@), w),
        forall|o: EntityId| r.1@.contains(o) <==> gaps_of(keyed_map(s@), w).contains(o),
{
    let removed = gaps_touching(s, w);
    let mut out: Vec<((EntityId, EntityId), EntityId)> = Vec::new();
    let mut i: usize = 0;
    while i < s.len()
        invariant
            i <= s.len(),
            keys_unique(s@),
            keys_unique(out@),
            forall|j: int, m: int| 0 <= j < out.len() && i <= m < s.len() ==> out@[j].0 != s@[m].0,
            keyed_map(out@) == without_wall(keyed_map(s@.take(i as int)), w),
        decreases s.len() - i,
    {
        let e = s[i];
        proof {
            assert(s@.take(i + 1) =~= s@.take(i as int).push(e));
            lemma_keyed_push(s@.take(i as int), e);
        }
        if e.0.0 == w || e.0.1 == w {
            assert(keyed_map(out@) =~= without_wall(keyed_map(s@.take(i + 1)), w));
        } else {
            proof {
                lemma_keyed_push(out@, e);
            }
            out.push(e);
            assert(keyed_map(out@) =~= without_wall(keyed_map(s@.take(i + 1)), w));
        }
        i = i + 1;
    }
    assert(s@.take(s.len() as int) =~= s@);
    (out, removed)
}

} // verus!
