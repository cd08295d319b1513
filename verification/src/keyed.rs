//! Lists of (key, value) pairs used as maps: each key once, and inserting
//! an existing key replaces its value in place.
use vstd::prelude::*;
use crate::text::str_eq;

verus! {

/// Where key `k` stands in `s`.
pub open spec fn key_pos<V>(s: Seq<(Seq<char>, V)>, k: Seq<char>) -> Option<int>
    decreases s.len(),
{
    if s.len() == 0 {
        None
    } else if s.last().0 == k {
        Some(s.len() - 1)
    } else {
        key_pos(s.drop_last(), k)
    }
}

/// `s` with `k` mapped to `v` (like a map insert).
pub open spec fn keyed_insert<V>(s: Seq<(Seq<char>, V)>, k: Seq<char>, v: V) -> Seq<(Seq<char>, V)> {
    match key_pos(s, k) {
        Some(i) => s.update(i, (k, v)),
        None => s.push((k, v)),
    }
}

/// The value mapped to `k`.
pub open spec fn keyed_get<V>(s: Seq<(Seq<char>, V)>, k: Seq<char>) -> Option<V> {
    match key_pos(s, k) {
        Some(i) => Some(s[i].1),
        None => None,
    }
}

/// The keys of a list as text.
pub open spec fn entries_view<V>(v: Seq<(String, V)>) -> Seq<(Seq<char>, V)> {
    Seq::new(v.len(), |i: int| (v[i].0@, v[i].1))
}

/// Maps `k` to `v` (see [`keyed_insert`]).
pub fn insert_keyed<V>(m: &mut Vec<(String, V)>, k: String, v: V)
    ensures
        entries_view(final(m)@) == keyed_insert(entries_view(old(m)@), k@, v),
{
    let ghost s = entries_view(m@);
    let mut i = m.len();
    assert(s.subrange(0, i as int) =~= s);
    while i > 0
        invariant
            i <= m@.len(),
            s == entries_view(m@),
            s == entries_view(old(m)@),
            key_pos(s, k@) == key_pos(s.subrange(0, i as int), k@),
        decreases i,
    {
        assert(s.subrange(0, i as int).drop_last() =~= s.subrange(0, i - 1));
        if str_eq(m[i - 1].0.as_str(), k.as_str()) {
            assert(key_pos(s.subrange(0, i as int), k@) == Some(i - 1));
            let ghost kv = k@;
            m.set(i - 1, (k, v));
            assert(entries_view(m@) =~= s.update(i - 1, (kv, v)));
            return;
        }
        i = i - 1;
    }
    let ghost kv = k@;
    m.push((k, v));
    assert(entries_view(m@) =~= s.push((kv, v)));
}

/// The position of key `k`, if present.
pub fn find_keyed<V>(m: &Vec<(String, V)>, k: &str) -> (r: Option<usize>)
    ensures
        match r {
            Some(i) => key_pos(entries_view(m@), k@) == Some(i as int) && i < m@.len(),
            None => key_pos(entries_view(m@), k@) is None,
        },
{
    let ghost s = entries_view(m@);
    let mut i = m.len();
    assert(s.subrange(0, i as int) =~= s);
    while i > 0
        invariant
            i <= m@.len(),
            s == entries_view(m@),
            key_pos(s, k@) == key_pos(s.subrange(0, i as int), k@),
        decreases i,
    {
        assert(s.subrange(0, i as int).drop_last() =~= s.subrange(0, i - 1));
        if str_eq(m[i - 1].0.as_str(), k) {
            return Some(i - 1);
        }
        i = i - 1;
    }
    None
}


/// `s` without key `k`.
pub open spec fn keyed_remove<V>(s: Seq<(Seq<char>, V)>, k: Seq<char>) -> Seq<(Seq<char>, V)> {
    match key_pos(s, k) {
        Some(i) => s.remove(i),
        None => s,
    }
}

/// Removes key `k`, returning its value if it was there.
pub fn remove_keyed<V>(m: &mut Vec<(String, V)>, k: &str) -> (r: Option<V>)
    ensures
        entries_view(final(m)@) == keyed_remove(entries_view(old(m)@), k@),
        r == keyed_get(entries_view(old(m)@), k@),
{
    let ghost s = entries_view(m@);
    match find_keyed(m, k) {
        Some(i) => {
            let (_, v) = m.remove(i);
            assert(entries_view(m@) =~= s.remove(i as int));
            Some(v)
        },
        None => None,
    }
}

/// Key `k` is no longer there after it is removed.
pub proof fn lemma_removed_absent<V>(s: Seq<(Seq<char>, V)>, k: Seq<char>)
    requires
        forall|i: int, j: int| 0 <= i < j < s.len() ==> s[i].0 != s[j].0,
    ensures
        key_pos(keyed_remove(s, k), k) is None,
{
    lemma_key_pos_found(s, k);
    match key_pos(s, k) {
        Some(i) => {
            let t = s.remove(i);
            lemma_key_pos_none_if_absent(t, k);
        },
        None => {},
    }
}

proof fn lemma_key_pos_found<V>(s: Seq<(Seq<char>, V)>, k: Seq<char>)
    ensures
        key_pos(s, k) matches Some(i) ==> 0 <= i < s.len() && s[i].0 == k,
        key_pos(s, k) is None ==> forall|j: int| 0 <= j < s.len() ==> s[j].0 != k,
    decreases s.len(),
{
    if s.len() > 0 {
        lemma_key_pos_found(s.drop_last(), k);
        if s.last().0 != k {
            assert forall|j: int| 0 <= j < s.len() - 1 implies s[j] == s.drop_last()[j] by {}
        }
    }
}

/// Where `key_pos` finds a key, that key stands.
pub(crate) proof fn lemma_key_pos_found_pub<V>(s: Seq<(Seq<char>, V)>, k: Seq<char>)
    ensures
        key_pos(s, k) matches Some(i) ==> 0 <= i < s.len() && s[i].0 == k,
{
    lemma_key_pos_found(s, k);
}

proof fn lemma_key_pos_none_if_absent<V>(s: Seq<(Seq<char>, V)>, k: Seq<char>)
    requires
        forall|j: int| 0 <= j < s.len() ==> s[j].0 != k,
    ensures
        key_pos(s, k) is None,
    decreases s.len(),
{
    if s.len() > 0 {
        assert forall|j: int| 0 <= j < s.drop_last().len() implies s.drop_last()[j].0 != k by {
            assert(s.drop_last()[j] == s[j]);
        }
        lemma_key_pos_none_if_absent(s.drop_last(), k);
    }
}

/// Inserting a key keeps keys unique.
pub proof fn lemma_insert_keeps_unique<V>(s: Seq<(Seq<char>, V)>, k: Seq<char>, v: V)
    requires
        forall|i: int, j: int| 0 <= i < j < s.len() ==> s[i].0 != s[j].0,
    ensures
        forall|i: int, j: int| 0 <= i < j < keyed_insert(s, k, v).len() ==> keyed_insert(s, k, v)[i].0 != keyed_insert(s, k, v)[j].0,
{
    lemma_key_pos_found(s, k);
}

/// After `k` is mapped to `v`, looking up `k` gives `v`.
pub proof fn lemma_get_after_insert<V>(s: Seq<(Seq<char>, V)>, k: Seq<char>, v: V)
    ensures
        keyed_get(keyed_insert(s, k, v), k) == Some(v),
{
    lemma_key_pos_found(s, k);
    match key_pos(s, k) {
        Some(i) => {
            lemma_same_keys_same_pos(s.update(i, (k, v)), s, k);
        },
        None => {
            assert(s.push((k, v)).drop_last() =~= s);
        },
    }
}

proof fn lemma_same_keys_same_pos<V>(s: Seq<(Seq<char>, V)>, t: Seq<(Seq<char>, V)>, k: Seq<char>)
    requires
        s.len() == t.len(),
        forall|i: int| 0 <= i < s.len() ==> #[trigger] s[i].0 == t[i].0,
    ensures
        key_pos(s, k) == key_pos(t, k),
    decreases s.len(),
{
    if s.len() > 0 {
        assert(s.last().0 == t.last().0);
        lemma_same_keys_same_pos(s.drop_last(), t.drop_last(), k);
    }
}

} // verus!
