//! A map from names (byte strings) to values, kept as a list of entries.
//!
//! Where a key occurs more than once, its first entry counts; `insert`
//! replaces the value of a key that is present and appends one that is not,
//! so the maps that this library builds hold each key once.

use vstd::prelude::*;

verus! {

#[derive(Clone, Debug)]
pub struct NameMap<V> {
    pub entries: Vec<(Vec<u8>, V)>,
}

/// The index of the first entry with key `k`, or -1.
pub open spec fn find_key<V>(s: Seq<(Vec<u8>, V)>, k: Seq<u8>) -> int
    decreases s.len(),
{
    if s.len() == 0 {
        -1
    } else {
        let f = find_key(s.drop_last(), k);
        if f >= 0 {
            f
        } else if s.last().0@ == k {
            s.len() - 1
        } else {
            -1
        }
    }
}

/// The map that a list of entries stands for, each value seen through `f`.
pub open spec fn entries_view<V, W>(s: Seq<(Vec<u8>, V)>, f: spec_fn(V) -> W) -> Map<Seq<u8>, W> {
    Map::new(|k: Seq<u8>| find_key(s, k) >= 0, |k: Seq<u8>| f(s[find_key(s, k)].1))
}

/// The keys of a map view are finite: no more than there are entries.
pub proof fn lemma_view_finite<V, W>(s: Seq<(Vec<u8>, V)>, f: spec_fn(V) -> W)
    ensures
        entries_view(s, f).dom().finite(),
        entries_view(s, f).dom().len() <= s.len(),
{
    let keys = s.map_values(|e: (Vec<u8>, V)| e.0@);
    vstd::seq_lib::seq_to_set_is_finite(keys);
    keys.lemma_cardinality_of_set();
    let dom = entries_view(s, f).dom();
    assert forall|k: Seq<u8>| dom.contains(k) implies keys.to_set().contains(k) by {
        lemma_find_key(s, k);
        let i = find_key(s, k);
        assert(keys[i] == k);
    }
    vstd::set_lib::lemma_len_subset(dom, keys.to_set());
}

/// The entries after inserting `v` under `k`.
pub open spec fn spec_insert<V>(s: Seq<(Vec<u8>, V)>, k: Vec<u8>, v: V) -> Seq<(Vec<u8>, V)> {
    let i = find_key(s, k@);
    if i >= 0 {
        s.update(i, (k, v))
    } else {
        s.push((k, v))
    }
}

/// The value of the first entry with key `k`.
pub open spec fn spec_lookup<V>(s: Seq<(Vec<u8>, V)>, k: Seq<u8>) -> Option<V> {
    let i = find_key(s, k);
    if i >= 0 {
        Some(s[i].1)
    } else {
        None
    }
}

pub proof fn lemma_find_key<V>(s: Seq<(Vec<u8>, V)>, k: Seq<u8>)
    ensures
        -1 <= find_key(s, k) < s.len(),
        find_key(s, k) >= 0 ==> s[find_key(s, k)].0@ == k,
        find_key(s, k) >= 0 ==> forall|j: int| 0 <= j < find_key(s, k) ==> (#[trigger] s[j]).0@ != k,
        find_key(s, k) < 0 ==> forall|j: int| 0 <= j < s.len() ==> (#[trigger] s[j]).0@ != k,
    decreases s.len(),
{
    if s.len() > 0 {
        lemma_find_key(s.drop_last(), k);
        assert forall|j: int| 0 <= j < s.len() - 1 implies s.drop_last()[j] == s[j] by {}
    }
}

/// `find_key` is the first index whose key is `k`.
pub proof fn lemma_find_key_unique<V>(s: Seq<(Vec<u8>, V)>, k: Seq<u8>, i: int)
    requires
        0 <= i < s.len(),
        s[i].0@ == k,
        forall|j: int| 0 <= j < i ==> (#[trigger] s[j]).0@ != k,
    ensures
        find_key(s, k) == i,
{
    lemma_find_key(s, k);
    let f = find_key(s, k);
    if f < 0 {
        assert(s[i].0@ != k);
    } else if f < i {
        assert(s[f].0@ != k);
    } else if f > i {
        assert(s[i].0@ != k);
    }
}

pub proof fn lemma_insert_find<V>(s: Seq<(Vec<u8>, V)>, k: Vec<u8>, v: V, key: Seq<u8>)
    ensures
        key == k@ ==> find_key(spec_insert(s, k, v), key) >= 0 && spec_insert(s, k, v)[find_key(
            spec_insert(s, k, v),
            key,
        )].1 == v,
        key != k@ ==> find_key(spec_insert(s, k, v), key) == find_key(s, key),
{
    let t = spec_insert(s, k, v);
    let i = find_key(s, k@);
    lemma_find_key(s, k@);
    lemma_find_key(s, key);
    lemma_find_key(t, key);
    if key == k@ {
        if i >= 0 {
            lemma_find_key_unique(t, key, i);
        } else {
            assert forall|j: int| 0 <= j < s.len() implies (#[trigger] t[j]).0@ != key by {
                assert(t[j] == s[j]);
            }
            lemma_find_key_unique(t, key, s.len() as int);
        }
    } else {
        let f = find_key(s, key);
        if f >= 0 {
            assert forall|j: int| 0 <= j < f implies (#[trigger] t[j]).0@ != key by {
                if j != i {
                    assert(t[j] == s[j]);
                }
            }
            if f == i {
                assert(s[f].0@ == key);
            }
            assert(t[f] == s[f]);
            lemma_find_key_unique(t, key, f);
        } else {
            let g = find_key(t, key);
            if g >= 0 {
                if g < s.len() && g != i {
                    assert(t[g] == s[g]);
                }
            }
        }
    }
}

/// Inserting into the entries inserts into the map they stand for.
pub proof fn lemma_insert_view<V, W>(s: Seq<(Vec<u8>, V)>, k: Vec<u8>, v: V, f: spec_fn(V) -> W)
    ensures
        entries_view(spec_insert(s, k, v), f) == entries_view(s, f).insert(k@, f(v)),
{
    let t = spec_insert(s, k, v);
    assert forall|key: Seq<u8>| #[trigger] entries_view(t, f).contains_key(key) == entries_view(
        s,
        f,
    ).insert(k@, f(v)).contains_key(key) by {
        lemma_insert_find(s, k, v, key);
    }
    assert forall|key: Seq<u8>| #[trigger] entries_view(t, f).contains_key(key) implies entries_view(
        t,
        f,
    )[key] == entries_view(s, f).insert(k@, f(v))[key] by {
        lemma_insert_find(s, k, v, key);
        lemma_find_key(s, key);
        if key != k@ {
            let i = find_key(s, k@);
            let g = find_key(s, key);
            lemma_find_key(s, k@);
            if i >= 0 && g == i {
                assert(s[g].0@ == key);
            }
            if g < s.len() && g != i {
                assert(t[g] == s[g]);
            }
        }
    }
    assert(entries_view(t, f) =~= entries_view(s, f).insert(k@, f(v)));
}

pub proof fn lemma_empty_view<V, W>(s: Seq<(Vec<u8>, V)>, f: spec_fn(V) -> W)
    requires
        s.len() == 0,
    ensures
        entries_view(s, f) == Map::<Seq<u8>, W>::empty(),
{
    assert(entries_view(s, f) =~= Map::<Seq<u8>, W>::empty());
}

/// Whether the first entry of key `k` comes before index `i`.
pub open spec fn first_before<V>(s: Seq<(Vec<u8>, V)>, i: int, k: Seq<u8>) -> bool {
    0 <= find_key(s, k) < i
}

/// Going over the entries in order: the keys first seen before `i + 1` are
/// those first seen before `i`, and the key of entry `i` where that entry is
/// its first.
pub proof fn lemma_first_before_step<V>(s: Seq<(Vec<u8>, V)>, i: int)
    requires
        0 <= i < s.len(),
    ensures
        0 <= find_key(s, s[i].0@) <= i,
        forall|k: Seq<u8>| #[trigger]
            first_before(s, i + 1, k) == (first_before(s, i, k) || (find_key(s, s[i].0@) == i && k
                == s[i].0@)),
{
    lemma_find_key(s, s[i].0@);
    assert forall|k: Seq<u8>| #[trigger]
        first_before(s, i + 1, k) == (first_before(s, i, k) || (find_key(s, s[i].0@) == i && k
            == s[i].0@)) by {
        lemma_find_key(s, k);
    }
}

/// After the last entry, the keys first seen are all the keys.
pub proof fn lemma_first_before_all<V>(s: Seq<(Vec<u8>, V)>)
    ensures
        forall|k: Seq<u8>| #[trigger] first_before(s, s.len() as int, k) == (find_key(s, k) >= 0),
{
    assert forall|k: Seq<u8>| #[trigger] first_before(s, s.len() as int, k) == (find_key(s, k)
        >= 0) by {
        lemma_find_key(s, k);
    }
}

/// Whether two byte strings are equal.
pub fn bytes_eq(a: &[u8], b: &[u8]) -> (r: bool)
    ensures
        r == (a@ == b@),
{
    if a.len() != b.len() {
        return false;
    }
    let mut i: usize = 0;
    while i < a.len()
        invariant
            a.len() == b.len(),
            i <= a.len(),
            forall|j: int| 0 <= j < i ==> a@[j] == b@[j],
        decreases a.len() - i,
    {
        if a[i] != b[i] {
            return false;
        }
        i = i + 1;
    }
    assert(a@ =~= b@);
    true
}

/// The index of the first entry with key `key`, if any.
pub fn entries_find<V>(entries: &Vec<(Vec<u8>, V)>, key: &[u8]) -> (r: Option<usize>)
    ensures
        match r {
            Some(i) => find_key(entries@, key@) == i && i < entries@.len(),
            None => find_key(entries@, key@) < 0,
        },
{
    let mut i: usize = 0;
    while i < entries.len()
        invariant
            i <= entries.len(),
            forall|j: int| 0 <= j < i ==> (#[trigger] entries@[j]).0@ != key@,
        decreases entries.len() - i,
    {
        if bytes_eq(entries[i].0.as_slice(), key) {
            proof {
                lemma_find_key_unique(entries@, key@, i as int);
            }
            return Some(i);
        }
        i = i + 1;
    }
    proof {
        lemma_find_key(entries@, key@);
        if find_key(entries@, key@) >= 0 {
            let f = find_key(entries@, key@);
            assert(entries@[f].0@ == key@);
        }
    }
    None
}

/// The value of the first entry with key `key`, if any.
pub fn entries_get<'a, V>(entries: &'a Vec<(Vec<u8>, V)>, key: &[u8]) -> (r: Option<&'a V>)
    ensures
        match r {
            Some(v) => spec_lookup(entries@, key@) == Some(*v),
            None => spec_lookup(entries@, key@) is None,
        },
{
    match entries_find(entries, key) {
        Some(i) => Some(&entries[i].1),
        None => None,
    }
}

/// Put `value` under `key`, replacing the value that was there.
pub fn entries_insert<V>(entries: &mut Vec<(Vec<u8>, V)>, key: Vec<u8>, value: V)
    ensures
        final(entries)@ == spec_insert(old(entries)@, key, value),
{
    match entries_find(entries, key.as_slice()) {
        Some(i) => {
            entries.set(i, (key, value));
        },
        None => {
            entries.push((key, value));
        },
    }
}

impl<V> NameMap<V> {
    pub fn new() -> (r: Self)
        ensures
            r.entries@.len() == 0,
    {
        NameMap { entries: Vec::new() }
    }

    /// The value under `key`, if any.
    pub fn get(&self, key: &[u8]) -> (r: Option<&V>)
        ensures
            match r {
                Some(v) => spec_lookup(self.entries@, key@) == Some(*v),
                None => spec_lookup(self.entries@, key@) is None,
            },
    {
        entries_get(&self.entries, key)
    }

    /// Put `value` under `key`, replacing the value that was there.
    pub fn insert(&mut self, key: Vec<u8>, value: V)
        ensures
            final(self).entries@ == spec_insert(old(self).entries@, key, value),
    {
        entries_insert(&mut self.entries, key, value);
    }
}

} // verus!
