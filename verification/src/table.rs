//! Association tables with unique keys, viewed as maps.

use vstd::prelude::*;

verus! {

/// No two entries share a key.
pub open spec fn keys_unique<K: View, V>(s: Seq<(K, V)>) -> bool {
    forall|i: int, j: int| 0 <= i < j < s.len() ==> (#[trigger] s[i]).0@ != (#[trigger] s[j]).0@
}

/// The map an association list stands for; a later entry wins.
pub open spec fn assoc_map<K: View, V: View>(s: Seq<(K, V)>) -> Map<K::V, V::V>
    decreases s.len(),
{
    if s.len() == 0 {
        Map::empty()
    } else {
        assoc_map(s.drop_last()).insert(s.last().0@, s.last().1@)
    }
}

/// A key is in the map exactly when some entry carries it.
pub proof fn lemma_assoc_map_mem<K: View, V: View>(s: Seq<(K, V)>, k: K::V)
    ensures
        assoc_map(s).contains_key(k) <==> exists|i: int|
            0 <= i < s.len() && (#[trigger] s[i]).0@ == k,
    decreases s.len(),
{
    if s.len() > 0 {
        lemma_assoc_map_mem(s.drop_last(), k);
        if s.last().0@ == k {
            assert(s[s.len() - 1].0@ == k);
        } else if assoc_map(s).contains_key(k) {
            let i = choose|i: int| 0 <= i < s.drop_last().len() && (#[trigger] s.drop_last()[i]).0@
                == k;
            assert(s[i].0@ == k);
        } else {
            if exists|i: int| 0 <= i < s.len() && (#[trigger] s[i]).0@ == k {
                let i = choose|i: int| 0 <= i < s.len() && (#[trigger] s[i]).0@ == k;
                assert(i < s.len() - 1);
                assert(s.drop_last()[i].0@ == k);
            }
        }
    }
}

/// With unique keys, the map agrees with every entry.
pub proof fn lemma_assoc_map_get<K: View, V: View>(s: Seq<(K, V)>, i: int)
    requires
        keys_unique(s),
        0 <= i < s.len(),
    ensures
        assoc_map(s).contains_key(s[i].0@),
        assoc_map(s)[s[i].0@] == s[i].1@,
    decreases s.len(),
{
    if i == s.len() - 1 {
    } else {
        assert(keys_unique(s.drop_last())) by {
            assert(forall|a: int, b: int|
                0 <= a < b < s.len() - 1 ==> (#[trigger] s.drop_last()[a]).0@ != (
                #[trigger] s.drop_last()[b]).0@);
        }
        assert(s.drop_last()[i] == s[i]);
        lemma_assoc_map_get(s.drop_last(), i);
        assert(s[i].0@ != s.last().0@) by {
            assert(s[i].0@ != s[s.len() - 1].0@);
        }
    }
}

} // verus!
