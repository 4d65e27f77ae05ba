//! Entries keyed by a string, each key at most once: the map that a list of
//! `(key, value)` pairs stands for, and insertion that replaces a key's value.
use vstd::prelude::*;
use crate::text::str_eq;

verus! {

/// `s[i]` holds key `k`.
pub open spec fn holds_key<V>(s: Seq<(String, V)>, k: Seq<char>, i: int) -> bool {
    0 <= i < s.len() && s[i].0@ == k
}

/// No key occurs twice.
pub open spec fn keys_unique<V>(s: Seq<(String, V)>) -> bool {
    forall|i: int, j: int| 0 <= i < s.len() && 0 <= j < s.len() && i != j ==> s[i].0@ != s[j].0@
}

/// The entries as a map from key to value.
pub open spec fn keyed_map<V>(s: Seq<(String, V)>) -> Map<Seq<char>, V> {
    Map::new(
        |k: Seq<char>| exists|i: int| holds_key(s, k, i),
        |k: Seq<char>| s[choose|i: int| holds_key(s, k, i)].1,
    )
}

pub proof fn lemma_keyed_lookup<V>(s: Seq<(String, V)>, k: Seq<char>, i: int)
    requires
        keys_unique(s),
        holds_key(s, k, i),
    ensures
        keyed_map(s).contains_key(k),
        keyed_map(s)[k] == s[i].1,
{
    let j = choose|j: int| holds_key(s, k, j);
    assert(holds_key(s, k, j));
}

proof fn lemma_keyed_push<V>(s: Seq<(String, V)>, e: (String, V))
    requires
        keys_unique(s),
        !keyed_map(s).contains_key(e.0@),
    ensures
        keys_unique(s.push(e)),
        keyed_map(s.push(e)) =~= keyed_map(s).insert(e.0@, e.1),
{
    let t = s.push(e);
    assert forall|i: int| 0 <= i < s.len() implies s[i].0@ != e.0@ by {
        if s[i].0@ == e.0@ {
            assert(holds_key(s, e.0@, i));
        }
    }
    assert forall|k: Seq<char>| #[trigger] keyed_map(t).contains_key(k) == keyed_map(s).insert(e.0@, e.1).contains_key(
        k,
    ) by {
        if exists|i: int| holds_key(t, k, i) {
            let i = choose|i: int| holds_key(t, k, i);
            if i < s.len() {
                assert(holds_key(s, k, i));
            }
        }
        if exists|i: int| holds_key(s, k, i) {
            let i = choose|i: int| holds_key(s, k, i);
            assert(holds_key(t, k, i));
        }
        if k == e.0@ {
            assert(holds_key(t, k, s.len() as int));
        }
    }
    assert forall|k: Seq<char>| #[trigger] keyed_map(t).contains_key(k) implies keyed_map(t)[k] == keyed_map(s).insert(
        e.0@,
        e.1,
    )[k] by {
        let i = choose|i: int| holds_key(t, k, i);
        if k == e.0@ {
            lemma_keyed_lookup(t, k, s.len() as int);
        } else {
            assert(i < s.len());
            assert(holds_key(s, k, i));
            lemma_keyed_lookup(t, k, i);
            lemma_keyed_lookup(s, k, i);
        }
    }
}

proof fn lemma_keyed_update<V>(s: Seq<(String, V)>, i: int, e: (String, V))
    requires
        keys_unique(s),
        holds_key(s, e.0@, i),
    ensures
        keys_unique(s.update(i, e)),
        keyed_map(s.update(i, e)) =~= keyed_map(s).insert(e.0@, e.1),
{
    let t = s.update(i, e);
    assert forall|k: Seq<char>| #[trigger] keyed_map(t).contains_key(k) == keyed_map(s).insert(e.0@, e.1).contains_key(
        k,
    ) by {
        if exists|j: int| holds_key(t, k, j) {
            let j = choose|j: int| holds_key(t, k, j);
            if j != i {
                assert(holds_key(s, k, j));
            } else {
                assert(holds_key(s, k, i));
            }
        }
        if exists|j: int| holds_key(s, k, j) {
            let j = choose|j: int| holds_key(s, k, j);
            assert(holds_key(t, k, j));
        }
    }
    assert forall|k: Seq<char>| #[trigger] keyed_map(t).contains_key(k) implies keyed_map(t)[k] == keyed_map(s).insert(
        e.0@,
        e.1,
    )[k] by {
        let j = choose|j: int| holds_key(t, k, j);
        if k == e.0@ {
            assert(j == i);
            lemma_keyed_lookup(t, k, i);
        } else {
            assert(j != i);
            assert(holds_key(s, k, j));
            lemma_keyed_lookup(t, k, j);
            lemma_keyed_lookup(s, k, j);
        }
    }
}

/// The position of `key` among the entries, if present.
pub fn key_position<V>(entries: &Vec<(String, V)>, key: &str) -> (r: Option<usize>)
    ensures
        match r {
            Some(i) => holds_key(entries@, key@, i as int),
            None => !keyed_map(entries@).contains_key(key@),
        },
{
    let mut i: usize = 0;
    while i < entries.len()
        invariant
            i <= entries@.len(),
            forall|j: int| 0 <= j < i ==> entries@[j].0@ != key@,
        decreases entries@.len() - i,
    {
        if str_eq(entries[i].0.as_str(), key) {
            return Some(i);
        }
        i = i + 1;
    }
    None
}

/// Puts `value` under `key`: the value of an entry with that key is
/// replaced in place and handed back, or a new entry goes last.
pub fn keyed_insert<V>(entries: &mut Vec<(String, V)>, key: &str, value: V) -> (r: Option<V>)
    requires
        keys_unique(old(entries)@),
    ensures
        keys_unique(final(entries)@),
        keyed_map(final(entries)@) == keyed_map(old(entries)@).insert(key@, value),
        match r {
            Some(previous) => keyed_map(old(entries)@).contains_key(key@) && previous == keyed_map(old(entries)@)[key@],
            None => !keyed_map(old(entries)@).contains_key(key@),
        },
{
    let ghost s = entries@;
    match key_position(entries, key) {
        Some(i) => {
            proof {
                lemma_keyed_lookup(s, key@, i as int);
            }
            let entry = entries.remove(i);
            entries.insert(i, (entry.0, value));
            proof {
                assert(entries@ =~= s.update(i as int, entries@[i as int]));
                lemma_keyed_update(s, i as int, entries@[i as int]);
            }
            Some(entry.1)
        },
        None => {
            let k = key.to_owned();
            entries.push((k, value));
            proof {
                assert(entries@ =~= s.push(entries@.last()));
                lemma_keyed_push(s, entries@.last());
            }
            None
        },
    }
}

} // verus!
