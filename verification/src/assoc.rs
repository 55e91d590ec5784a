//! Association lists: sequences of key/value pairs with distinct keys, read
//! as maps.
use vstd::prelude::*;

verus! {

/// The map that the pairs of `s` spell; where a key repeats, the last pair wins.
pub open spec fn map_of<V>(s: Seq<(Seq<char>, V)>) -> Map<Seq<char>, V>
    decreases s.len(),
{
    if s.len() == 0 {
        Map::empty()
    } else {
        map_of(s.drop_last()).insert(s.last().0, s.last().1)
    }
}

/// No two pairs of `s` share a key.
pub open spec fn keys_unique<V>(s: Seq<(Seq<char>, V)>) -> bool {
    forall|i: int, j: int|
        0 <= i < s.len() && 0 <= j < s.len() && #[trigger] s[i].0 == #[trigger] s[j].0 ==> i == j
}

/// The map has a key exactly when some pair has it, and a pair's value is
/// the map's value at its key when keys are distinct.
pub proof fn lemma_map_of<V>(s: Seq<(Seq<char>, V)>)
    ensures
        forall|k: Seq<char>|
            #[trigger] map_of(s).dom().contains(k) <==> exists|i: int|
                0 <= i < s.len() && #[trigger] s[i].0 == k,
        keys_unique(s) ==> forall|i: int| 0 <= i < s.len() ==> #[trigger] map_of(s)[s[i].0] == s[i].1,
        map_of(s).dom().finite(),
        keys_unique(s) ==> map_of(s).dom().len() == s.len(),
    decreases s.len(),
{
    if s.len() > 0 {
        let d = s.drop_last();
        lemma_map_of(d);
        assert forall|k: Seq<char>|
            #[trigger] map_of(s).dom().contains(k) <==> exists|i: int|
                0 <= i < s.len() && #[trigger] s[i].0 == k by {
            if map_of(s).dom().contains(k) && k != s.last().0 {
                let i = choose|i: int| 0 <= i < d.len() && #[trigger] d[i].0 == k;
                assert(s[i].0 == k);
            }
            if exists|i: int| 0 <= i < s.len() && #[trigger] s[i].0 == k {
                let i = choose|i: int| 0 <= i < s.len() && #[trigger] s[i].0 == k;
                if i < d.len() {
                    assert(d[i].0 == k);
                }
            }
        }
        if keys_unique(s) {
            assert(keys_unique(d)) by {
                assert forall|i: int, j: int|
                    0 <= i < d.len() && 0 <= j < d.len() && #[trigger] d[i].0 == #[trigger] d[j].0 implies i == j by {
                    assert(s[i].0 == d[i].0);
                    assert(s[j].0 == d[j].0);
                }
            }
            assert forall|i: int| 0 <= i < s.len() implies #[trigger] map_of(s)[s[i].0] == s[i].1 by {
                if i < d.len() {
                    assert(d[i].0 == s[i].0);
                    assert(s[i].0 != s.last().0);
                }
            }
            assert(!map_of(d).dom().contains(s.last().0)) by {
                if map_of(d).dom().contains(s.last().0) {
                    let i = choose|i: int| 0 <= i < d.len() && #[trigger] d[i].0 == s.last().0;
                    assert(s[i].0 == s[s.len() - 1].0);
                }
            }
        }
    }
}

/// Replacing the value of a pair, keeping its key, replaces the map's value at that key.
pub proof fn lemma_map_of_update<V>(s: Seq<(Seq<char>, V)>, i: int, v: V)
    requires
        keys_unique(s),
        0 <= i < s.len(),
    ensures
        map_of(s.update(i, (s[i].0, v))) == map_of(s).insert(s[i].0, v),
        keys_unique(s.update(i, (s[i].0, v))),
    decreases s.len(),
{
    let t = s.update(i, (s[i].0, v));
    let d = s.drop_last();
    assert(keys_unique(t)) by {
        assert forall|a: int, b: int|
            0 <= a < t.len() && 0 <= b < t.len() && #[trigger] t[a].0 == #[trigger] t[b].0 implies a == b by {
            assert(t[a].0 == s[a].0);
            assert(t[b].0 == s[b].0);
        }
    }
    assert(keys_unique(d)) by {
        assert forall|a: int, b: int|
            0 <= a < d.len() && 0 <= b < d.len() && #[trigger] d[a].0 == #[trigger] d[b].0 implies a == b by {
            assert(s[a].0 == d[a].0);
            assert(s[b].0 == d[b].0);
        }
    }
    if i == s.len() - 1 {
        assert(t.drop_last() =~= d);
        assert(map_of(t) =~= map_of(s).insert(s[i].0, v));
    } else {
        lemma_map_of_update(d, i, v);
        assert(t.drop_last() =~= d.update(i, (d[i].0, v)));
        assert(s.last().0 != s[i].0);
        assert(map_of(t) =~= map_of(s).insert(s[i].0, v));
    }
}

/// Adding a pair with a new key keeps the keys distinct.
pub proof fn lemma_keys_unique_push<V>(s: Seq<(Seq<char>, V)>, k: Seq<char>, v: V)
    requires
        keys_unique(s),
        !map_of(s).dom().contains(k),
    ensures
        keys_unique(s.push((k, v))),
        map_of(s.push((k, v))) == map_of(s).insert(k, v),
{
    lemma_map_of(s);
    let t = s.push((k, v));
    assert(t.drop_last() =~= s);
    assert forall|a: int, b: int|
        0 <= a < t.len() && 0 <= b < t.len() && #[trigger] t[a].0 == #[trigger] t[b].0 implies a == b by {
        if a < s.len() && b == s.len() {
            assert(s[a].0 == k);
        }
        if b < s.len() && a == s.len() {
            assert(s[b].0 == k);
        }
        if a < s.len() && b < s.len() {
            assert(s[a].0 == t[a].0);
            assert(s[b].0 == t[b].0);
        }
    }
}

} // verus!
