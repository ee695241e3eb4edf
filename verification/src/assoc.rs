//! Lists of keyed entries read as maps: the mathematics under the tables
//! that are kept in vectors.
use vstd::prelude::*;

verus! {

/// The map that a list of entries stands for; of two entries with one key
/// the later counts.
pub open spec fn to_map<K, V>(s: Seq<(K, V)>) -> Map<K, V>
    decreases s.len(),
{
    if s.len() == 0 {
        Map::empty()
    } else {
        to_map(s.drop_last()).insert(s.last().0, s.last().1)
    }
}

/// Whether no key occurs twice.
pub open spec fn distinct<K, V>(s: Seq<(K, V)>) -> bool {
    forall|i: int, j: int| 0 <= i < j < s.len() ==> s[i].0 != s[j].0
}

/// Whether `key` occurs in no entry.
pub open spec fn absent<K, V>(s: Seq<(K, V)>, key: K) -> bool {
    forall|i: int| 0 <= i < s.len() ==> (#[trigger] s[i]).0 != key
}

/// The map holds exactly the keys of the entries.
pub proof fn lemma_keys<K, V>(s: Seq<(K, V)>, key: K)
    ensures
        absent(s, key) <==> !to_map(s).contains_key(key),
        to_map(s).dom().finite(),
    decreases s.len(),
{
    if s.len() > 0 {
        let rest = s.drop_last();
        lemma_keys(rest, key);
        if absent(s, key) {
            assert forall|i: int| 0 <= i < rest.len() implies (#[trigger] rest[i]).0 != key by {
                assert(rest[i] == s[i]);
            }
        } else {
            let i = choose|i: int| 0 <= i < s.len() && (#[trigger] s[i]).0 == key;
            if i < s.len() - 1 {
                assert(rest[i] == s[i]);
            }
        }
        if !absent(rest, key) {
            let i = choose|i: int| 0 <= i < rest.len() && (#[trigger] rest[i]).0 == key;
            assert(s[i] == rest[i]);
        }
    }
}

/// Where no key occurs twice, the map gives each key the value of its entry.
pub proof fn lemma_entry<K, V>(s: Seq<(K, V)>, i: int)
    requires
        distinct(s),
        0 <= i < s.len(),
    ensures
        to_map(s).contains_key(s[i].0),
        to_map(s)[s[i].0] == s[i].1,
    decreases s.len(),
{
    let rest = s.drop_last();
    if i < s.len() - 1 {
        assert(distinct(rest)) by {
            assert forall|a: int, b: int| 0 <= a < b < rest.len() implies rest[a].0 != rest[b].0 by {
                assert(rest[a] == s[a] && rest[b] == s[b]);
            }
        }
        lemma_entry(rest, i);
        assert(rest[i] == s[i]);
        assert(s[i].0 != s.last().0);
    }
}

/// An entry put behind the others is an insertion into the map.
pub proof fn lemma_push<K, V>(s: Seq<(K, V)>, key: K, value: V)
    ensures
        to_map(s.push((key, value))) == to_map(s).insert(key, value),
        distinct(s) && absent(s, key) ==> distinct(s.push((key, value))),
{
    assert(s.push((key, value)).drop_last() =~= s);
}

/// A new value in an entry is an insertion into the map under its key.
pub proof fn lemma_update<K, V>(s: Seq<(K, V)>, i: int, value: V)
    requires
        distinct(s),
        0 <= i < s.len(),
    ensures
        to_map(s.update(i, (s[i].0, value))) == to_map(s).insert(s[i].0, value),
        distinct(s.update(i, (s[i].0, value))),
    decreases s.len(),
{
    let t = s.update(i, (s[i].0, value));
    let rest = s.drop_last();
    assert(distinct(rest)) by {
        assert forall|a: int, b: int| 0 <= a < b < rest.len() implies rest[a].0 != rest[b].0 by {
            assert(rest[a] == s[a] && rest[b] == s[b]);
        }
    }
    if i == s.len() - 1 {
        assert(t.drop_last() =~= rest);
        assert(to_map(t) =~= to_map(s).insert(s[i].0, value));
    } else {
        lemma_update(rest, i, value);
        assert(rest[i] == s[i]);
        assert(t.drop_last() =~= rest.update(i, (s[i].0, value)));
        assert(s[i].0 != s.last().0);
        assert(to_map(t) =~= to_map(s).insert(s[i].0, value));
    }
}

/// An entry taken out is a removal of its key from the map, where no key
/// occurs twice.
pub proof fn lemma_remove<K, V>(s: Seq<(K, V)>, i: int)
    requires
        distinct(s),
        0 <= i < s.len(),
    ensures
        to_map(s.remove(i)) == to_map(s).remove(s[i].0),
        distinct(s.remove(i)),
    decreases s.len(),
{
    let t = s.remove(i);
    let rest = s.drop_last();
    assert(distinct(rest)) by {
        assert forall|a: int, b: int| 0 <= a < b < rest.len() implies rest[a].0 != rest[b].0 by {
            assert(rest[a] == s[a] && rest[b] == s[b]);
        }
    }
    assert(distinct(t)) by {
        assert forall|a: int, b: int| 0 <= a < b < t.len() implies t[a].0 != t[b].0 by {
            let a0 = if a < i { a } else { a + 1 };
            let b0 = if b < i { b } else { b + 1 };
            assert(t[a] == s[a0] && t[b] == s[b0]);
        }
    }
    if i == s.len() - 1 {
        assert(t =~= rest);
        lemma_keys(rest, s[i].0);
        assert(absent(rest, s[i].0)) by {
            assert forall|a: int| 0 <= a < rest.len() implies (#[trigger] rest[a]).0 != s[i].0 by {
                assert(rest[a] == s[a]);
            }
        }
        assert(to_map(t) =~= to_map(s).remove(s[i].0));
    } else {
        lemma_remove(rest, i);
        assert(rest[i] == s[i]);
        assert(t.drop_last() =~= rest.remove(i));
        assert(t.last() == s.last());
        assert(s[i].0 != s.last().0);
        assert(to_map(t) =~= to_map(s).remove(s[i].0));
    }
}

/// Where no key occurs twice, the map has as many keys as there are entries.
pub proof fn lemma_len<K, V>(s: Seq<(K, V)>)
    requires
        distinct(s),
    ensures
        to_map(s).dom().finite(),
        to_map(s).dom().len() == s.len(),
    decreases s.len(),
{
    if s.len() > 0 {
        let rest = s.drop_last();
        assert(distinct(rest)) by {
            assert forall|a: int, b: int| 0 <= a < b < rest.len() implies rest[a].0 != rest[b].0 by {
                assert(rest[a] == s[a] && rest[b] == s[b]);
            }
        }
        lemma_len(rest);
        lemma_keys(rest, s.last().0);
        assert(absent(rest, s.last().0)) by {
            assert forall|a: int| 0 <= a < rest.len() implies (#[trigger] rest[a]).0
                != s.last().0 by {
                assert(rest[a] == s[a]);
            }
        }
    }
}

} // verus!
