//! Lists of key and value pairs read as finite maps.
//!
//! The engine keeps its tables as vectors of entries. These definitions and
//! lemmas say which map such a list stands for and how pushing, replacing and
//! removing an entry changes that map.

use vstd::prelude::*;

verus! {

/// The map a list of pairs stands for. Where a key occurs twice, the later
/// pair counts.
pub open spec fn to_map<K, V>(s: Seq<(K, V)>) -> Map<K, V>
    decreases s.len(),
{
    if s.len() == 0 {
        Map::empty()
    } else {
        to_map(s.drop_last()).insert(s.last().0, s.last().1)
    }
}

/// Whether no key occurs twice in the list.
pub open spec fn distinct_keys<K, V>(s: Seq<(K, V)>) -> bool {
    forall|i: int, j: int| 0 <= i < j < s.len() ==> (#[trigger] s[i]).0 != (#[trigger] s[j]).0
}

/// Whether some pair of the list has the key `k`.
pub open spec fn has_key<K, V>(s: Seq<(K, V)>, k: K) -> bool {
    exists|i: int| 0 <= i < s.len() && (#[trigger] s[i]).0 == k
}

/// The map has exactly the keys of the list.
pub proof fn lemma_to_map_dom<K, V>(s: Seq<(K, V)>, k: K)
    ensures
        to_map(s).contains_key(k) <==> has_key(s, k),
    decreases s.len(),
{
    if s.len() > 0 {
        let front = s.drop_last();
        lemma_to_map_dom(front, k);
        if has_key(front, k) {
            let i = choose|i: int| 0 <= i < front.len() && (#[trigger] front[i]).0 == k;
            assert(s[i] == front[i]);
        }
        if has_key(s, k) {
            let i = choose|i: int| 0 <= i < s.len() && (#[trigger] s[i]).0 == k;
            if i < s.len() - 1 {
                assert(front[i] == s[i]);
            }
        }
    }
}

/// The map is finite.
pub proof fn lemma_to_map_finite<K, V>(s: Seq<(K, V)>)
    ensures
        to_map(s).dom().finite(),
    decreases s.len(),
{
    if s.len() > 0 {
        lemma_to_map_finite(s.drop_last());
    }
}

/// Where keys are distinct, the map gives each key the value it stands
/// beside.
pub proof fn lemma_to_map_value<K, V>(s: Seq<(K, V)>, i: int)
    requires
        distinct_keys(s),
        0 <= i < s.len(),
    ensures
        to_map(s).contains_key(s[i].0),
        to_map(s)[s[i].0] == s[i].1,
    decreases s.len(),
{
    let front = s.drop_last();
    if i < s.len() - 1 {
        assert(distinct_keys(front)) by {
            assert forall|a: int, b: int| 0 <= a < b < front.len() implies (#[trigger] front[a]).0
                != (#[trigger] front[b]).0 by {
                assert(front[a] == s[a] && front[b] == s[b]);
            }
        }
        lemma_to_map_value(front, i);
        assert(front[i] == s[i]);
        assert(s[i].0 != s[s.len() - 1].0);
    }
}

/// Pushing a pair inserts it into the map.
pub proof fn lemma_to_map_push<K, V>(s: Seq<(K, V)>, k: K, v: V)
    ensures
        to_map(s.push((k, v))) == to_map(s).insert(k, v),
        distinct_keys(s) && !has_key(s, k) ==> distinct_keys(s.push((k, v))),
{
    let t = s.push((k, v));
    assert(t.drop_last() =~= s);
    if distinct_keys(s) && !has_key(s, k) {
        assert forall|a: int, b: int| 0 <= a < b < t.len() implies (#[trigger] t[a]).0 != (
        #[trigger] t[b]).0 by {
            if b < s.len() {
                assert(t[a] == s[a] && t[b] == s[b]);
            } else {
                assert(t[a] == s[a]);
            }
        }
    }
}

/// Replacing the value beside a key replaces it in the map.
pub proof fn lemma_to_map_update<K, V>(s: Seq<(K, V)>, i: int, v: V)
    requires
        distinct_keys(s),
        0 <= i < s.len(),
    ensures
        distinct_keys(s.update(i, (s[i].0, v))),
        to_map(s.update(i, (s[i].0, v))) == to_map(s).insert(s[i].0, v),
{
    let k = s[i].0;
    let t = s.update(i, (k, v));
    assert(distinct_keys(t)) by {
        assert forall|a: int, b: int| 0 <= a < b < t.len() implies (#[trigger] t[a]).0 != (
        #[trigger] t[b]).0 by {
            assert(t[a].0 == s[a].0 && t[b].0 == s[b].0);
        }
    }
    let m = to_map(s).insert(k, v);
    assert forall|q: K| to_map(t).contains_key(q) <==> m.contains_key(q) by {
        lemma_to_map_dom(t, q);
        lemma_to_map_dom(s, q);
        if has_key(t, q) {
            let j = choose|j: int| 0 <= j < t.len() && (#[trigger] t[j]).0 == q;
            assert(s[j].0 == q);
        }
        if has_key(s, q) {
            let j = choose|j: int| 0 <= j < s.len() && (#[trigger] s[j]).0 == q;
            assert(t[j].0 == q);
        }
        if q == k {
            assert(t[i].0 == q);
        }
    }
    assert forall|q: K| to_map(t).contains_key(q) implies to_map(t)[q] == m[q] by {
        lemma_to_map_dom(t, q);
        let j = choose|j: int| 0 <= j < t.len() && (#[trigger] t[j]).0 == q;
        lemma_to_map_value(t, j);
        if j != i {
            assert(t[j] == s[j]);
            lemma_to_map_value(s, j);
            if j < i {
                assert(s[j].0 != s[i].0);
            } else {
                assert(s[i].0 != s[j].0);
            }
        }
    }
    assert(to_map(t) =~= m);
}

/// Removing a pair removes its key from the map.
pub proof fn lemma_to_map_remove<K, V>(s: Seq<(K, V)>, i: int)
    requires
        distinct_keys(s),
        0 <= i < s.len(),
    ensures
        distinct_keys(s.remove(i)),
        !has_key(s.remove(i), s[i].0),
        to_map(s.remove(i)) == to_map(s).remove(s[i].0),
{
    let k = s[i].0;
    let t = s.remove(i);
    assert(forall|a: int| 0 <= a < t.len() ==> #[trigger] t[a] == s[if a < i { a } else { a + 1 }]);
    assert(distinct_keys(t)) by {
        assert forall|a: int, b: int| 0 <= a < b < t.len() implies (#[trigger] t[a]).0 != (
        #[trigger] t[b]).0 by {
            let a2 = if a < i { a } else { a + 1 };
            let b2 = if b < i { b } else { b + 1 };
            assert(t[a] == s[a2] && t[b] == s[b2]);
            assert(s[a2].0 != s[b2].0);
        }
    }
    assert(!has_key(t, k)) by {
        if has_key(t, k) {
            let a = choose|a: int| 0 <= a < t.len() && (#[trigger] t[a]).0 == k;
            let a2 = if a < i { a } else { a + 1 };
            assert(t[a] == s[a2]);
            if a2 < i {
                assert(s[a2].0 != s[i].0);
            } else {
                assert(s[i].0 != s[a2].0);
            }
        }
    }
    let m = to_map(s).remove(k);
    assert forall|q: K| to_map(t).contains_key(q) <==> m.contains_key(q) by {
        lemma_to_map_dom(t, q);
        lemma_to_map_dom(s, q);
        if has_key(t, q) {
            let a = choose|a: int| 0 <= a < t.len() && (#[trigger] t[a]).0 == q;
            let a2 = if a < i { a } else { a + 1 };
            assert(t[a] == s[a2]);
            assert(s[a2].0 == q);
        }
        if has_key(s, q) && q != k {
            let j = choose|j: int| 0 <= j < s.len() && (#[trigger] s[j]).0 == q;
            let a = if j < i { j } else { j - 1 };
            assert(t[a] == s[j]);
            assert(t[a].0 == q);
        }
    }
    assert forall|q: K| to_map(t).contains_key(q) implies to_map(t)[q] == m[q] by {
        lemma_to_map_dom(t, q);
        let a = choose|a: int| 0 <= a < t.len() && (#[trigger] t[a]).0 == q;
        let a2 = if a < i { a } else { a + 1 };
        assert(t[a] == s[a2]);
        lemma_to_map_value(t, a);
        lemma_to_map_value(s, a2);
    }
    assert(to_map(t) =~= m);
}

} // verus!
