//! Association lists: a sequence of `(key, value)` pairs read as a map in
//! which a later pair overrides an earlier one with the same key.
use vstd::prelude::*;

verus! {

/// The map that a list of pairs stands for: each pair is inserted in turn,
/// so the last pair with a given key decides its value.
pub open spec fn assoc_map<K, V>(s: Seq<(K, V)>) -> Map<K, V>
    decreases s.len(),
{
    if s.len() == 0 {
        Map::empty()
    } else {
        assoc_map(s.drop_last()).insert(s.last().0, s.last().1)
    }
}

/// No key occurs twice in the list.
pub open spec fn keys_distinct<K, V>(s: Seq<(K, V)>) -> bool {
    forall|i: int, j: int| 0 <= i < s.len() && 0 <= j < s.len() && i != j ==> s[i].0 != s[j].0
}

/// Some pair of the list has key `k`.
pub open spec fn has_key<K, V>(s: Seq<(K, V)>, k: K) -> bool {
    exists|i: int| 0 <= i < s.len() && s[i].0 == k
}

pub proof fn lemma_assoc_finite<K, V>(s: Seq<(K, V)>)
    ensures
        assoc_map(s).dom().finite(),
    decreases s.len(),
{
    if s.len() > 0 {
        lemma_assoc_finite(s.drop_last());
    }
}

pub proof fn lemma_assoc_contains<K, V>(s: Seq<(K, V)>, k: K)
    ensures
        assoc_map(s).contains_key(k) <==> has_key(s, k),
    decreases s.len(),
{
    if s.len() > 0 {
        let d = s.drop_last();
        lemma_assoc_contains(d, k);
        if has_key(d, k) {
            let i = choose|i: int| 0 <= i < d.len() && d[i].0 == k;
            assert(s[i].0 == k);
        }
        if has_key(s, k) && s.last().0 != k {
            let i = choose|i: int| 0 <= i < s.len() && s[i].0 == k;
            assert(d[i].0 == k);
        }
    }
}

/// In a list without repeated keys, the value of each pair is the map's value at its key.
pub proof fn lemma_assoc_index<K, V>(s: Seq<(K, V)>, i: int)
    requires
        keys_distinct(s),
        0 <= i < s.len(),
    ensures
        assoc_map(s).contains_key(s[i].0),
        assoc_map(s)[s[i].0] == s[i].1,
    decreases s.len(),
{
    if i < s.len() - 1 {
        let d = s.drop_last();
        assert(d[i] == s[i]);
        lemma_assoc_index(d, i);
    }
}

pub proof fn lemma_assoc_push<K, V>(s: Seq<(K, V)>, k: K, v: V)
    ensures
        assoc_map(s.push((k, v))) == assoc_map(s).insert(k, v),
{
    assert(s.push((k, v)).drop_last() =~= s);
}

pub proof fn lemma_distinct_push<K, V>(s: Seq<(K, V)>, k: K, v: V)
    requires
        keys_distinct(s),
        !has_key(s, k),
    ensures
        keys_distinct(s.push((k, v))),
{
    let t = s.push((k, v));
    assert forall|i: int, j: int| 0 <= i < t.len() && 0 <= j < t.len() && i != j implies t[i].0
        != t[j].0 by {
        if i == s.len() {
            assert(s[j].0 == t[j].0);
        } else if j == s.len() {
            assert(s[i].0 == t[i].0);
        }
    }
}

/// Replacing the value of a pair replaces the map's value at its key.
pub proof fn lemma_assoc_update<K, V>(s: Seq<(K, V)>, i: int, v: V)
    requires
        keys_distinct(s),
        0 <= i < s.len(),
    ensures
        assoc_map(s.update(i, (s[i].0, v))) == assoc_map(s).insert(s[i].0, v),
        keys_distinct(s.update(i, (s[i].0, v))),
    decreases s.len(),
{
    let t = s.update(i, (s[i].0, v));
    let d = s.drop_last();
    if i == s.len() - 1 {
        assert(t.drop_last() =~= d);
        assert(assoc_map(t) =~= assoc_map(s).insert(s[i].0, v));
    } else {
        assert(t.drop_last() =~= d.update(i, (d[i].0, v)));
        lemma_assoc_update(d, i, v);
        assert(assoc_map(t) =~= assoc_map(s).insert(s[i].0, v));
    }
    assert forall|a: int, b: int| 0 <= a < t.len() && 0 <= b < t.len() && a != b implies t[a].0
        != t[b].0 by {
        assert(t[a].0 == s[a].0);
        assert(t[b].0 == s[b].0);
    }
}

/// Taking a pair out of the list takes its key out of the map.
pub proof fn lemma_assoc_remove<K, V>(s: Seq<(K, V)>, i: int)
    requires
        keys_distinct(s),
        0 <= i < s.len(),
    ensures
        assoc_map(s.remove(i)) == assoc_map(s).remove(s[i].0),
        keys_distinct(s.remove(i)),
    decreases s.len(),
{
    let t = s.remove(i);
    let d = s.drop_last();
    assert forall|a: int, b: int| 0 <= a < t.len() && 0 <= b < t.len() && a != b implies t[a].0
        != t[b].0 by {
        let a2 = if a < i { a } else { a + 1 };
        let b2 = if b < i { b } else { b + 1 };
        assert(t[a] == s[a2]);
        assert(t[b] == s[b2]);
    }
    if i == s.len() - 1 {
        assert(t =~= d);
        lemma_assoc_contains(d, s[i].0);
        if has_key(d, s[i].0) {
            let j = choose|j: int| 0 <= j < d.len() && d[j].0 == s[i].0;
            assert(s[j].0 == s[i].0);
        }
        assert(assoc_map(t) =~= assoc_map(s).remove(s[i].0));
    } else {
        assert(t.drop_last() =~= d.remove(i));
        assert(t.last() == s.last());
        lemma_assoc_remove(d, i);
        assert(s.last().0 != s[i].0);
        assert(assoc_map(t) =~= assoc_map(s).remove(s[i].0));
    }
}

/// Without repeated keys, the map has as many keys as the list has pairs.
pub proof fn lemma_assoc_len<K, V>(s: Seq<(K, V)>)
    requires
        keys_distinct(s),
    ensures
        assoc_map(s).dom().finite(),
        assoc_map(s).dom().len() == s.len(),
    decreases s.len(),
{
    lemma_assoc_finite(s);
    if s.len() > 0 {
        let d = s.drop_last();
        assert(keys_distinct(d)) by {
            assert forall|a: int, b: int|
                0 <= a < d.len() && 0 <= b < d.len() && a != b implies d[a].0 != d[b].0 by {
                assert(d[a] == s[a]);
                assert(d[b] == s[b]);
            }
        }
        lemma_assoc_len(d);
        lemma_assoc_contains(d, s.last().0);
        if has_key(d, s.last().0) {
            let j = choose|j: int| 0 <= j < d.len() && d[j].0 == s.last().0;
            assert(s[j].0 == s.last().0);
        }
    }
}

pub proof fn lemma_distinct_prefix<K, V>(s: Seq<(K, V)>, n: int)
    requires
        keys_distinct(s),
        0 <= n <= s.len(),
    ensures
        keys_distinct(s.take(n)),
{
    let t = s.take(n);
    assert forall|a: int, b: int| 0 <= a < t.len() && 0 <= b < t.len() && a != b implies t[a].0
        != t[b].0 by {
        assert(t[a] == s[a]);
        assert(t[b] == s[b]);
    }
}

/// The sum of the values of a finite map of weights.
pub open spec fn map_sum<K>(m: Map<K, u16>) -> int
    decreases m.dom().len(),
    when m.dom().finite()
{
    if m.dom().len() == 0 {
        0
    } else {
        let k = m.dom().choose();
        m[k] as int + map_sum(m.remove(k))
    }
}

/// The sum of the values of a list of weighted pairs.
pub open spec fn seq_sum<K>(s: Seq<(K, u16)>) -> int
    decreases s.len(),
{
    if s.len() == 0 {
        0
    } else {
        seq_sum(s.drop_last()) + s.last().1 as int
    }
}

pub proof fn lemma_seq_sum_nonneg<K>(s: Seq<(K, u16)>)
    ensures
        seq_sum(s) >= 0,
    decreases s.len(),
{
    if s.len() > 0 {
        lemma_seq_sum_nonneg(s.drop_last());
    }
}

/// The sum of a finite map does not depend on which key is taken out first.
pub proof fn lemma_map_sum_remove<K>(m: Map<K, u16>, c: K)
    requires
        m.dom().finite(),
        m.contains_key(c),
    ensures
        map_sum(m) == m[c] as int + map_sum(m.remove(c)),
    decreases m.dom().len(),
{
    assert(m.dom().len() > 0) by {
        if m.dom().len() == 0 {
            assert(m.dom() =~= Set::empty());
        }
    }
    let d = m.dom().choose();
    if d != c {
        assert(m.remove(d).dom().len() < m.dom().len());
        lemma_map_sum_remove(m.remove(d), c);
        lemma_map_sum_remove(m.remove(c), d);
        assert(m.remove(d).remove(c) =~= m.remove(c).remove(d));
    }
}

pub proof fn lemma_map_sum_insert<K>(m: Map<K, u16>, k: K, v: u16)
    requires
        m.dom().finite(),
        !m.contains_key(k),
    ensures
        map_sum(m.insert(k, v)) == map_sum(m) + v,
{
    lemma_map_sum_remove(m.insert(k, v), k);
    assert(m.insert(k, v).remove(k) =~= m);
}

pub proof fn lemma_map_sum_nonneg<K>(m: Map<K, u16>)
    requires
        m.dom().finite(),
    ensures
        map_sum(m) >= 0,
    decreases m.dom().len(),
{
    if m.dom().len() > 0 {
        let k = m.dom().choose();
        lemma_map_sum_nonneg(m.remove(k));
    }
}

/// A weight of a finite map is at most the sum of its weights.
pub proof fn lemma_map_sum_bounds<K>(m: Map<K, u16>, k: K)
    requires
        m.dom().finite(),
        m.contains_key(k),
    ensures
        m[k] <= map_sum(m),
{
    lemma_map_sum_remove(m, k);
    lemma_map_sum_nonneg(m.remove(k));
}

/// Without repeated keys, the list and the map it stands for have the same sum.
pub proof fn lemma_seq_sum_is_map_sum<K>(s: Seq<(K, u16)>)
    requires
        keys_distinct(s),
    ensures
        assoc_map(s).dom().finite(),
        seq_sum(s) == map_sum(assoc_map(s)),
    decreases s.len(),
{
    lemma_assoc_finite(s);
    if s.len() > 0 {
        let d = s.drop_last();
        assert(keys_distinct(d)) by {
            assert forall|a: int, b: int|
                0 <= a < d.len() && 0 <= b < d.len() && a != b implies d[a].0 != d[b].0 by {
                assert(d[a] == s[a]);
                assert(d[b] == s[b]);
            }
        }
        lemma_seq_sum_is_map_sum(d);
        lemma_assoc_contains(d, s.last().0);
        if has_key(d, s.last().0) {
            let j = choose|j: int| 0 <= j < d.len() && d[j].0 == s.last().0;
            assert(s[j].0 == s.last().0);
        }
        lemma_map_sum_insert(assoc_map(d), s.last().0, s.last().1);
    }
}

/// Changing every value of a list the same way changes every value of its map that way.
pub proof fn lemma_assoc_pointwise<K, V, W>(s: Seq<(K, V)>, t: Seq<(K, W)>, f: spec_fn(V) -> W)
    requires
        s.len() == t.len(),
        forall|m: int| 0 <= m < s.len() ==> (#[trigger] t[m]).0 == s[m].0 && t[m].1 == f(s[m].1),
    ensures
        assoc_map(t) == assoc_map(s).map_values(f),
    decreases s.len(),
{
    if s.len() > 0 {
        let (ds, dt) = (s.drop_last(), t.drop_last());
        assert forall|m: int| 0 <= m < ds.len() implies (#[trigger] dt[m]).0 == ds[m].0 && dt[m].1
            == f(ds[m].1) by {
            assert(dt[m] == t[m]);
            assert(ds[m] == s[m]);
        }
        lemma_assoc_pointwise(ds, dt, f);
        assert(t.last() == t[t.len() - 1]);
        assert(assoc_map(t) =~= assoc_map(s).map_values(f));
    } else {
        assert(assoc_map(t) =~= assoc_map(s).map_values(f));
    }
}

/// Lists of equal weights have equal sums, whatever their keys.
pub proof fn lemma_seq_sum_same<K, L>(s: Seq<(K, u16)>, t: Seq<(L, u16)>)
    requires
        s.len() == t.len(),
        forall|m: int| 0 <= m < s.len() ==> (#[trigger] s[m]).1 == t[m].1,
    ensures
        seq_sum(s) == seq_sum(t),
    decreases s.len(),
{
    if s.len() > 0 {
        let (ds, dt) = (s.drop_last(), t.drop_last());
        assert forall|m: int| 0 <= m < ds.len() implies (#[trigger] ds[m]).1 == dt[m].1 by {
            assert(ds[m] == s[m]);
            assert(dt[m] == t[m]);
        }
        lemma_seq_sum_same(ds, dt);
    }
}

/// A prefix sums to no more than the whole list.
pub proof fn lemma_seq_sum_prefix<K>(s: Seq<(K, u16)>, n: int)
    requires
        0 <= n <= s.len(),
    ensures
        seq_sum(s.take(n)) <= seq_sum(s),
    decreases s.len(),
{
    if n < s.len() {
        lemma_seq_sum_prefix(s.drop_last(), n);
        assert(s.drop_last().take(n) =~= s.take(n));
    } else {
        assert(s.take(n) =~= s);
    }
}

/// Setting a key of a finite map changes its sum by the change of that value.
pub proof fn lemma_map_sum_insert_any<K>(m: Map<K, u16>, k: K, v: u16)
    requires
        m.dom().finite(),
    ensures
        map_sum(m.insert(k, v)) == map_sum(m) - (if m.contains_key(k) {
            m[k] as int
        } else {
            0
        }) + v,
{
    if m.contains_key(k) {
        lemma_map_sum_remove(m, k);
        lemma_map_sum_insert(m.remove(k), k, v);
        assert(m.remove(k).insert(k, v) =~= m.insert(k, v));
    } else {
        lemma_map_sum_insert(m, k, v);
    }
}

/// A list sums to at least the map it stands for (pairs overridden by a
/// later one with the same key count in the list only).
pub proof fn lemma_map_sum_at_most_seq_sum<K>(s: Seq<(K, u16)>)
    ensures
        assoc_map(s).dom().finite(),
        map_sum(assoc_map(s)) <= seq_sum(s),
    decreases s.len(),
{
    lemma_assoc_finite(s);
    if s.len() > 0 {
        let d = s.drop_last();
        lemma_map_sum_at_most_seq_sum(d);
        lemma_map_sum_insert_any(assoc_map(d), s.last().0, s.last().1);
        if assoc_map(d).contains_key(s.last().0) {
            lemma_map_sum_bounds(assoc_map(d), s.last().0);
            assert(assoc_map(d)[s.last().0] >= 0);
        }
    }
}


/// Putting a pair with a new key anywhere in a list of distinct keys adds
/// that key to the map, and keeps the keys distinct.
pub proof fn lemma_assoc_insert_at<K, V>(s: Seq<(K, V)>, p: int, k: K, v: V)
    requires
        keys_distinct(s),
        !has_key(s, k),
        0 <= p <= s.len(),
    ensures
        keys_distinct(s.insert(p, (k, v))),
        assoc_map(s.insert(p, (k, v))) == assoc_map(s).insert(k, v),
{
    let t = s.insert(p, (k, v));
    assert forall|i: int, j: int| 0 <= i < t.len() && 0 <= j < t.len() && i != j implies t[i].0 != t[j].0 by {
        let si = if i < p { i } else { i - 1 };
        let sj = if j < p { j } else { j - 1 };
        if i != p && j != p {
            assert(t[i] == s[si] && t[j] == s[sj]);
        } else if i == p {
            assert(t[j] == s[sj]);
        } else {
            assert(t[i] == s[si]);
        }
    }
    let (mt, ms) = (assoc_map(t), assoc_map(s).insert(k, v));
    assert forall|x: K| mt.contains_key(x) <==> ms.contains_key(x) by {
        lemma_assoc_contains(t, x);
        lemma_assoc_contains(s, x);
        if has_key(t, x) && x != k {
            let j = choose|j: int| 0 <= j < t.len() && t[j].0 == x;
            let sj = if j < p { j } else { j - 1 };
            assert(t[j] == s[sj]);
        }
        if has_key(s, x) {
            let i = choose|i: int| 0 <= i < s.len() && s[i].0 == x;
            let ti = if i < p { i } else { i + 1 };
            assert(t[ti] == s[i]);
        }
        if x == k {
            assert(t[p].0 == k);
        }
    }
    assert forall|x: K| #[trigger] mt.contains_key(x) implies mt[x] == ms[x] by {
        if x == k {
            lemma_assoc_index(t, p);
        } else {
            lemma_assoc_contains(s, x);
            let i = choose|i: int| 0 <= i < s.len() && s[i].0 == x;
            let ti = if i < p { i } else { i + 1 };
            assert(t[ti] == s[i]);
            lemma_assoc_index(t, ti);
            lemma_assoc_index(s, i);
        }
    }
    assert(mt =~= ms);
}

} // verus!
