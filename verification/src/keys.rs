//! Association lists keyed by strings: the first entry with a key wins, and
//! an upsert replaces that entry or appends a new one.
use vstd::prelude::*;

verus! {

/// Index of the first occurrence of `k` in `keys`.
pub open spec fn first_index(k: Seq<char>, keys: Seq<Seq<char>>) -> Option<int>
    decreases keys.len(),
{
    if keys.len() == 0 {
        None
    } else {
        match first_index(k, keys.drop_last()) {
            Some(j) => Some(j),
            None => if keys.last() == k {
                Some(keys.len() - 1)
            } else {
                None
            },
        }
    }
}

pub open spec fn keys_of<V>(s: Seq<(Seq<char>, V)>) -> Seq<Seq<char>> {
    s.map_values(|e: (Seq<char>, V)| e.0)
}

/// The value of the first entry with key `k`.
pub open spec fn lookup<V>(s: Seq<(Seq<char>, V)>, k: Seq<char>) -> Option<V> {
    match first_index(k, keys_of(s)) {
        Some(j) => Some(s[j].1),
        None => None,
    }
}

/// `s` with the first entry for `k` set to `v`, or with `(k, v)` appended.
pub open spec fn upsert<V>(s: Seq<(Seq<char>, V)>, k: Seq<char>, v: V) -> Seq<(Seq<char>, V)> {
    match first_index(k, keys_of(s)) {
        Some(j) => s.update(j, (k, v)),
        None => s.push((k, v)),
    }
}

pub proof fn lemma_first_index(k: Seq<char>, keys: Seq<Seq<char>>)
    ensures
        match first_index(k, keys) {
            Some(j) => 0 <= j < keys.len() && keys[j] == k && forall|i: int|
                0 <= i < j ==> #[trigger] keys[i] != k,
            None => forall|i: int| 0 <= i < keys.len() ==> #[trigger] keys[i] != k,
        },
    decreases keys.len(),
{
    if keys.len() > 0 {
        let prefix = keys.drop_last();
        lemma_first_index(k, prefix);
        assert(forall|i: int| 0 <= i < prefix.len() ==> prefix[i] == keys[i]);
    }
}

/// The first index is determined by where `k` first occurs.
pub proof fn lemma_first_index_unique(k: Seq<char>, keys: Seq<Seq<char>>, j: int)
    requires
        0 <= j < keys.len(),
        keys[j] == k,
        forall|i: int| 0 <= i < j ==> #[trigger] keys[i] != k,
    ensures
        first_index(k, keys) == Some(j),
{
    lemma_first_index(k, keys);
}

pub proof fn lemma_first_index_absent(k: Seq<char>, keys: Seq<Seq<char>>)
    requires
        forall|i: int| 0 <= i < keys.len() ==> #[trigger] keys[i] != k,
    ensures
        first_index(k, keys) is None,
{
    lemma_first_index(k, keys);
}

/// Looking up after an upsert: the new value for its key, the old lookup for any other key.
pub proof fn lemma_lookup_upsert<V>(s: Seq<(Seq<char>, V)>, k: Seq<char>, v: V, k2: Seq<char>)
    ensures
        lookup(upsert(s, k, v), k2) == if k2 == k {
            Some(v)
        } else {
            lookup(s, k2)
        },
{
    let t = upsert(s, k, v);
    lemma_first_index(k, keys_of(s));
    lemma_first_index(k2, keys_of(s));
    lemma_first_index(k2, keys_of(t));
    match first_index(k, keys_of(s)) {
        Some(j) => {
            assert(keys_of(t) =~= keys_of(s));
        },
        None => {
            assert(keys_of(t) =~= keys_of(s).push(k));
            if k2 != k {
                match first_index(k2, keys_of(s)) {
                    Some(j2) => {
                        lemma_first_index_unique(k2, keys_of(t), j2);
                    },
                    None => {
                        lemma_first_index_absent(k2, keys_of(t));
                    },
                }
            } else {
                lemma_first_index_unique(k, keys_of(t), s.len() as int);
            }
        },
    }
}

/// Looking up after appending an entry: an earlier entry for the key wins.
pub proof fn lemma_lookup_push<V>(s: Seq<(Seq<char>, V)>, e: (Seq<char>, V), k: Seq<char>)
    ensures
        lookup(s.push(e), k) == match lookup(s, k) {
            Some(x) => Some(x),
            None => if e.0 == k {
                Some(e.1)
            } else {
                None
            },
        },
{
    let t = s.push(e);
    assert(keys_of(t).drop_last() =~= keys_of(s));
    lemma_first_index(k, keys_of(s));
}

/// Position of the first entry whose key is `key`.
pub fn find_key<V>(key: &String, entries: &Vec<(String, V)>) -> (r: Option<usize>)
    ensures
        match r {
            Some(j) => j < entries.len() && first_index(
                key@,
                entries@.map_values(|e: (String, V)| e.0@),
            ) == Some(j as int),
            None => first_index(key@, entries@.map_values(|e: (String, V)| e.0@)) is None,
        },
{
    let ghost keys = entries@.map_values(|e: (String, V)| e.0@);
    let mut j: usize = 0;
    while j < entries.len()
        invariant
            j <= entries.len(),
            keys == entries@.map_values(|e: (String, V)| e.0@),
            forall|i: int| 0 <= i < j ==> #[trigger] keys[i] != key@,
        decreases entries.len() - j,
    {
        if entries[j].0 == *key {
            proof {
                lemma_first_index_unique(key@, keys, j as int);
            }
            return Some(j);
        }
        j = j + 1;
    }
    proof {
        lemma_first_index_absent(key@, keys);
    }
    None
}

} // verus!
