//! A map from names to values, held as two parallel vectors with unique keys.
use vstd::prelude::*;

verus! {

/// The characters of each string.
pub open spec fn keys_of(names: Seq<String>) -> Seq<Seq<char>> {
    names.map_values(|s: String| s@)
}

/// No key occurs twice.
pub open spec fn unique(keys: Seq<Seq<char>>) -> bool {
    forall|i: int, j: int| 0 <= i < keys.len() && 0 <= j < keys.len() && i != j ==> keys[i] != keys[j]
}

/// The position of `k` in `keys`.
pub open spec fn key_index(keys: Seq<Seq<char>>, k: Seq<char>) -> int {
    choose|i: int| 0 <= i < keys.len() && keys[i] == k
}

/// The map that pairs each key with the value at its position.
pub open spec fn table<V>(keys: Seq<Seq<char>>, vals: Seq<V>) -> Map<Seq<char>, V> {
    Map::new(|k: Seq<char>| keys.contains(k), |k: Seq<char>| vals[key_index(keys, k)])
}

/// The value at position `i` is the map's value for the key at `i`.
pub proof fn lemma_table_at<V>(keys: Seq<Seq<char>>, vals: Seq<V>, i: int)
    requires
        unique(keys),
        0 <= i < keys.len(),
    ensures
        table(keys, vals).contains_key(keys[i]),
        table(keys, vals)[keys[i]] == vals[i],
{
    assert(keys.contains(keys[i]));
    let j = key_index(keys, keys[i]);
    assert(0 <= j < keys.len() && keys[j] == keys[i]);
}

/// Appending a new key inserts it.
pub proof fn lemma_table_push<V>(keys: Seq<Seq<char>>, vals: Seq<V>, k: Seq<char>, v: V)
    requires
        unique(keys),
        !keys.contains(k),
        vals.len() == keys.len(),
    ensures
        unique(keys.push(k)),
        table(keys.push(k), vals.push(v)) == table(keys, vals).insert(k, v),
{
    let ks = keys.push(k);
    assert forall|i: int, j: int| 0 <= i < ks.len() && 0 <= j < ks.len() && i != j implies ks[i] != ks[j] by {
        if i == keys.len() {
            assert(keys.contains(ks[j]) || j == keys.len());
        } else if j == keys.len() {
            assert(keys.contains(ks[i]));
        }
    }
    let a = table(ks, vals.push(v));
    let b = table(keys, vals).insert(k, v);
    assert forall|q: Seq<char>| a.contains_key(q) <==> b.contains_key(q) by {
        if ks.contains(q) && q != k {
            let i = choose|i: int| 0 <= i < ks.len() && ks[i] == q;
            assert(keys[i] == q);
        }
        if keys.contains(q) {
            let i = choose|i: int| 0 <= i < keys.len() && keys[i] == q;
            assert(ks[i] == q);
        }
        assert(ks[keys.len() as int] == k);
    }
    assert forall|q: Seq<char>| #[trigger] a.contains_key(q) implies a[q] == b[q] by {
        if q == k {
            lemma_table_at(ks, vals.push(v), keys.len() as int);
        } else {
            let i = choose|i: int| 0 <= i < ks.len() && ks[i] == q;
            lemma_table_at(ks, vals.push(v), i);
            lemma_table_at(keys, vals, i);
        }
    }
    assert(a =~= b);
}

/// Replacing the value at `i` updates the key at `i`.
pub proof fn lemma_table_update<V>(keys: Seq<Seq<char>>, vals: Seq<V>, i: int, v: V)
    requires
        unique(keys),
        0 <= i < keys.len(),
        vals.len() == keys.len(),
    ensures
        table(keys, vals.update(i, v)) == table(keys, vals).insert(keys[i], v),
{
    let a = table(keys, vals.update(i, v));
    let b = table(keys, vals).insert(keys[i], v);
    assert(keys.contains(keys[i]));
    assert forall|q: Seq<char>| #[trigger] a.contains_key(q) implies a[q] == b[q] by {
        let j = choose|j: int| 0 <= j < keys.len() && keys[j] == q;
        lemma_table_at(keys, vals.update(i, v), j);
        lemma_table_at(keys, vals, j);
    }
    assert(a =~= b);
}

/// Removing position `i` removes the key at `i`.
pub proof fn lemma_table_remove<V>(keys: Seq<Seq<char>>, vals: Seq<V>, i: int)
    requires
        unique(keys),
        0 <= i < keys.len(),
        vals.len() == keys.len(),
    ensures
        unique(keys.remove(i)),
        table(keys.remove(i), vals.remove(i)) == table(keys, vals).remove(keys[i]),
{
    let ks = keys.remove(i);
    let vs = vals.remove(i);
    assert forall|x: int, y: int| 0 <= x < ks.len() && 0 <= y < ks.len() && x != y implies ks[x] != ks[y] by {
        let x2 = if x < i { x } else { x + 1 };
        let y2 = if y < i { y } else { y + 1 };
        assert(ks[x] == keys[x2] && ks[y] == keys[y2]);
    }
    let a = table(ks, vs);
    let b = table(keys, vals).remove(keys[i]);
    assert forall|q: Seq<char>| a.contains_key(q) <==> b.contains_key(q) by {
        if ks.contains(q) {
            let x = choose|x: int| 0 <= x < ks.len() && ks[x] == q;
            let x2 = if x < i { x } else { x + 1 };
            assert(keys[x2] == q);
            assert(keys.contains(q));
        }
        if keys.contains(q) && q != keys[i] {
            let x = choose|x: int| 0 <= x < keys.len() && keys[x] == q;
            let x1 = if x < i { x } else { x - 1 };
            assert(ks[x1] == q);
        }
    }
    assert forall|q: Seq<char>| #[trigger] a.contains_key(q) implies a[q] == b[q] by {
        let x = choose|x: int| 0 <= x < ks.len() && ks[x] == q;
        let x2 = if x < i { x } else { x + 1 };
        lemma_table_at(ks, vs, x);
        lemma_table_at(keys, vals, x2);
    }
    assert(a =~= b);
}

/// The keys of a vector of entries.
pub open spec fn entry_keys<V>(es: Seq<(String, V)>) -> Seq<Seq<char>> {
    es.map_values(|e: (String, V)| e.0@)
}

/// Finds the position of the entry whose key is `key`.
pub fn find_entry<V>(entries: &Vec<(String, V)>, key: &String) -> (r: Option<usize>)
    ensures
        match r {
            Some(i) => i < entries@.len() && entries@[i as int].0@ == key@,
            None => !entry_keys(entries@).contains(key@),
        },
{
    let mut i: usize = 0;
    while i < entries.len()
        invariant
            0 <= i <= entries@.len(),
            forall|j: int| 0 <= j < i ==> entries@[j].0@ != key@,
        decreases entries@.len() - i,
    {
        if entries[i].0 == *key {
            return Some(i);
        }
        i = i + 1;
    }
    proof {
        if entry_keys(entries@).contains(key@) {
            let j = choose|j: int| 0 <= j < entry_keys(entries@).len() && entry_keys(entries@)[j] == key@;
            assert(entries@[j].0@ == key@);
        }
    }
    None
}

} // verus!
