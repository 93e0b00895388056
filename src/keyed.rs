//! Ordered key/value pairs whose keys are unique, built from a list of pairs
//! where a later pair wins over an earlier one with the same key.
use vstd::prelude::*;

verus! {

/// The view of a list of string pairs.
pub open spec fn pairs_view(v: Seq<(String, String)>) -> Seq<(Seq<char>, Seq<char>)> {
    v.map_values(|p: (String, String)| (p.0@, p.1@))
}

/// No two entries share a key.
pub open spec fn unique_keys<V>(s: Seq<(Seq<char>, V)>) -> bool {
    forall|i: int, j: int| 0 <= i < j < s.len() ==> s[i].0 != s[j].0
}

/// The map that the entries give when inserted in order: a later entry
/// replaces an earlier one with the same key.
pub open spec fn keyed_map<V>(s: Seq<(Seq<char>, V)>) -> Map<Seq<char>, V>
    decreases s.len(),
{
    if s.len() == 0 {
        Map::empty()
    } else {
        keyed_map(s.drop_last()).insert(s.last().0, s.last().1)
    }
}

/// Every key of the entries is in the map, and every key of the map comes from an entry.
pub proof fn lemma_keyed_map_domain<V>(s: Seq<(Seq<char>, V)>, k: Seq<char>)
    ensures
        keyed_map(s).contains_key(k) <==> exists|j: int| 0 <= j < s.len() && s[j].0 == k,
    decreases s.len(),
{
    if s.len() > 0 {
        lemma_keyed_map_domain(s.drop_last(), k);
        if exists|j: int| 0 <= j < s.len() && s[j].0 == k {
            let j = choose|j: int| 0 <= j < s.len() && s[j].0 == k;
            if j < s.len() - 1 {
                assert(s.drop_last()[j].0 == k);
            }
        }
        if exists|j: int| 0 <= j < s.len() - 1 && s.drop_last()[j].0 == k {
            let j = choose|j: int| 0 <= j < s.len() - 1 && s.drop_last()[j].0 == k;
            assert(s[j].0 == k);
        }
    }
}

/// With unique keys, each entry's value is what the map holds for its key.
pub proof fn lemma_keyed_map_entry<V>(s: Seq<(Seq<char>, V)>, j: int)
    requires
        unique_keys(s),
        0 <= j < s.len(),
    ensures
        keyed_map(s).contains_key(s[j].0),
        keyed_map(s)[s[j].0] == s[j].1,
    decreases s.len(),
{
    if j < s.len() - 1 {
        lemma_keyed_map_entry(s.drop_last(), j);
    }
}

/// With unique keys, replacing the value of one entry replaces it in the map.
pub proof fn lemma_keyed_map_update<V>(s: Seq<(Seq<char>, V)>, j: int, v: V)
    requires
        unique_keys(s),
        0 <= j < s.len(),
    ensures
        keyed_map(s.update(j, (s[j].0, v))) == keyed_map(s).insert(s[j].0, v),
    decreases s.len(),
{
    let t = s.update(j, (s[j].0, v));
    if j == s.len() - 1 {
        assert(t.drop_last() == s.drop_last());
        assert(keyed_map(t) =~= keyed_map(s).insert(s[j].0, v));
    } else {
        lemma_keyed_map_update(s.drop_last(), j, v);
        assert(t.drop_last() == s.drop_last().update(j, (s[j].0, v)));
        assert(s.last().0 != s[j].0);
        assert(keyed_map(t) =~= keyed_map(s).insert(s[j].0, v));
    }
}

/// Collects pairs into a list with unique keys, in the order in which each key
/// first appears; where a key is given twice, the later value wins.
pub fn collect_pairs(pairs: &Vec<(String, String)>) -> (r: Vec<(String, String)>)
    ensures
        unique_keys(pairs_view(r@)),
        keyed_map(pairs_view(r@)) == keyed_map(pairs_view(pairs@)),
{
    let mut r: Vec<(String, String)> = Vec::new();
    let mut i: usize = 0;
    while i < pairs.len()
        invariant
            i <= pairs.len(),
            unique_keys(pairs_view(r@)),
            keyed_map(pairs_view(r@)) == keyed_map(pairs_view(pairs@.subrange(0, i as int))),
        decreases pairs.len() - i,
    {
        let key = pairs[i].0.clone();
        let value = pairs[i].1.clone();
        let ghost before = pairs_view(r@);
        let ghost prefix = pairs_view(pairs@.subrange(0, i as int));
        let ghost next = pairs_view(pairs@.subrange(0, i + 1));
        assert(next.drop_last() =~= prefix);
        assert(next.last() == (key@, value@));
        let mut j: usize = 0;
        let mut found = false;
        while j < r.len() && !found
            invariant
                j <= r.len(),
                pairs_view(r@) == before,
                found ==> j < r.len() && before[j as int].0 == key@,
                forall|m: int| 0 <= m < j ==> before[m].0 != key@,
            decreases r.len() - j, if found { 0int } else { 1int },
        {
            if r[j].0 == key {
                found = true;
            } else {
                j = j + 1;
            }
        }
        if found {
            proof {
                lemma_keyed_map_update(before, j as int, value@);
            }
            r.set(j, (key, value));
            assert(pairs_view(r@) =~= before.update(j as int, (key@, value@)));
            assert(forall|m: int| 0 <= m < r@.len() ==> pairs_view(r@)[m].0 == before[m].0);
            assert(unique_keys(pairs_view(r@)));
        } else {
            r.push((key, value));
            assert(pairs_view(r@).drop_last() =~= before);
            assert(forall|m: int| 0 <= m < before.len() ==> pairs_view(r@)[m] == before[m]);
            assert(pairs_view(r@)[before.len() as int] == (key@, value@));
            assert(j == before.len());
            assert(unique_keys(pairs_view(r@))) by {
                let t = pairs_view(r@);
                assert forall|a: int, b: int| 0 <= a < b < t.len() implies t[a].0 != t[b].0 by {
                    if b < before.len() {
                        assert(t[a] == before[a] && t[b] == before[b]);
                    } else {
                        assert(t[a] == before[a]);
                    }
                }
            }
        }
        i = i + 1;
    }
    assert(pairs@.subrange(0, i as int) =~= pairs@);
    r
}


/// With unique keys, the map has one key per entry.
pub proof fn lemma_keyed_map_len<V>(s: Seq<(Seq<char>, V)>)
    requires
        unique_keys(s),
    ensures
        keyed_map(s).dom().len() == s.len(),
    decreases s.len(),
{
    if s.len() > 0 {
        let d = s.drop_last();
        assert(unique_keys(d));
        lemma_keyed_map_len(d);
        lemma_keyed_map_domain(d, s.last().0);
        if keyed_map(d).contains_key(s.last().0) {
            let j = choose|j: int| 0 <= j < d.len() && d[j].0 == s.last().0;
            assert(s[j].0 == s[s.len() - 1].0);
        }
        assert(keyed_map(d).dom().finite()) by {
            lemma_keyed_map_finite(d);
        }
    }
}

proof fn lemma_keyed_map_finite<V>(s: Seq<(Seq<char>, V)>)
    ensures
        keyed_map(s).dom().finite(),
    decreases s.len(),
{
    if s.len() > 0 {
        lemma_keyed_map_finite(s.drop_last());
    }
}

} // verus!
