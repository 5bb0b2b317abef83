use vstd::prelude::*;

verus! {

/// The map that a sequence of key/value entries stands for (a later entry
/// overrides an earlier one with the same key).
pub open spec fn keyed_map<K, V>(s: Seq<(K, V)>) -> Map<K, V>
    decreases s.len(),
{
    if s.len() == 0 {
        Map::empty()
    } else {
        keyed_map(s.drop_last()).insert(s.last().0, s.last().1)
    }
}

/// No key occurs in two entries.
pub open spec fn keys_unique<K, V>(s: Seq<(K, V)>) -> bool {
    forall|i: int, j: int| 0 <= i < j < s.len() ==> s[i].0 != s[j].0
}

pub proof fn lemma_keyed_push<K, V>(s: Seq<(K, V)>, e: (K, V))
    ensures
        keyed_map(s.push(e)) == keyed_map(s).insert(e.0, e.1),
{
    assert(s.push(e).drop_last() =~= s);
}

/// With unique keys, the map holds exactly the entries of the sequence.
pub proof fn lemma_keyed_entries<K, V>(s: Seq<(K, V)>)
    requires
        keys_unique(s),
    ensures
        forall|i: int|
            #![trigger s[i]]
            0 <= i < s.len() ==> keyed_map(s).contains_key(s[i].0) && keyed_map(s)[s[i].0]
                == s[i].1,
        forall|k: K|
            #![trigger keyed_map(s).contains_key(k)]
            keyed_map(s).contains_key(k) ==> exists|i: int| 0 <= i < s.len() && s[i].0 == k,
    decreases s.len(),
{
    if s.len() > 0 {
        let p = s.drop_last();
        assert(keys_unique(p));
        lemma_keyed_entries(p);
        assert forall|i: int| #![trigger s[i]] 0 <= i < s.len() implies keyed_map(s).contains_key(
            s[i].0,
        ) && keyed_map(s)[s[i].0] == s[i].1 by {
            if i < s.len() - 1 {
                assert(p[i] == s[i]);
                assert(s[i].0 != s.last().0);
            }
        }
        assert forall|k: K| #![trigger keyed_map(s).contains_key(k)] keyed_map(s).contains_key(
            k,
        ) implies exists|i: int| 0 <= i < s.len() && s[i].0 == k by {
            if k != s.last().0 {
                assert(keyed_map(p).contains_key(k));
                let i = choose|i: int| 0 <= i < p.len() && p[i].0 == k;
                assert(s[i] == p[i]);
            } else {
                assert(s[s.len() - 1].0 == k);
            }
        }
    }
}

} // verus!
