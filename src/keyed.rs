use vstd::prelude::*;

verus! {

/// The map that a sequence of records denotes, each record giving a key and a value.
pub open spec fn keyed<X, K, V>(s: Seq<X>, key: spec_fn(X) -> K, val: spec_fn(X) -> V) -> Map<K, V> {
    Map::new(
        |k: K| exists|j: int| 0 <= j < s.len() && key(s[j]) == k,
        |k: K| val(s[choose|j: int| 0 <= j < s.len() && key(s[j]) == k]),
    )
}

/// No two records of the sequence carry the same key.
pub open spec fn keys_unique<X, K>(s: Seq<X>, key: spec_fn(X) -> K) -> bool {
    forall|i: int, j: int|
        0 <= i < s.len() && 0 <= j < s.len() && key(s[i]) == key(s[j]) ==> i == j
}

/// With unique keys, the record at `j` is what the map holds for its key.
pub proof fn lemma_keyed_at<X, K, V>(s: Seq<X>, key: spec_fn(X) -> K, val: spec_fn(X) -> V, j: int)
    requires
        keys_unique(s, key),
        0 <= j < s.len(),
    ensures
        keyed(s, key, val).contains_key(key(s[j])),
        keyed(s, key, val)[key(s[j])] == val(s[j]),
{
    let k = key(s[j]);
    assert(0 <= j < s.len() && key(s[j]) == k);
    let i = choose|i: int| 0 <= i < s.len() && key(s[i]) == k;
    assert(i == j);
}

/// Appending a record with a fresh key adds that key to the map.
pub proof fn lemma_keyed_push<X, K, V>(s: Seq<X>, key: spec_fn(X) -> K, val: spec_fn(X) -> V, x: X)
    requires
        keys_unique(s, key),
        !keyed(s, key, val).contains_key(key(x)),
    ensures
        keys_unique(s.push(x), key),
        keyed(s.push(x), key, val) == keyed(s, key, val).insert(key(x), val(x)),
{
    let t = s.push(x);
    assert forall|i: int, j: int|
        0 <= i < t.len() && 0 <= j < t.len() && key(t[i]) == key(t[j]) implies i == j by {
        if i < s.len() && j == s.len() {
            assert(0 <= i < s.len() && key(s[i]) == key(x));
        } else if j < s.len() && i == s.len() {
            assert(0 <= j < s.len() && key(s[j]) == key(x));
        } else if i < s.len() && j < s.len() {
            assert(t[i] == s[i] && t[j] == s[j]);
        }
    }
    lemma_keyed_at(t, key, val, s.len() as int);
    let m = keyed(s, key, val);
    let n = keyed(t, key, val);
    let r = m.insert(key(x), val(x));
    assert forall|k: K| #[trigger] n.dom().contains(k) == r.dom().contains(k) && (n.dom().contains(k) ==> n[k] == r[k]) by {
        if k == key(x) {
        } else if m.contains_key(k) {
            let j = choose|j: int| 0 <= j < s.len() && key(s[j]) == k;
            lemma_keyed_at(s, key, val, j);
            assert(t[j] == s[j]);
            lemma_keyed_at(t, key, val, j);
        } else if n.contains_key(k) {
            let j = choose|j: int| 0 <= j < t.len() && key(t[j]) == k;
            assert(j < s.len());
            assert(0 <= j < s.len() && key(s[j]) == k);
        }
    }
    assert(n =~= r);
}

/// Replacing a record by one with the same key rebinds that key in the map.
pub proof fn lemma_keyed_update<X, K, V>(
    s: Seq<X>,
    key: spec_fn(X) -> K,
    val: spec_fn(X) -> V,
    j: int,
    x: X,
)
    requires
        keys_unique(s, key),
        0 <= j < s.len(),
        key(x) == key(s[j]),
    ensures
        keys_unique(s.update(j, x), key),
        keyed(s.update(j, x), key, val) == keyed(s, key, val).insert(key(x), val(x)),
{
    let t = s.update(j, x);
    assert forall|a: int, b: int|
        0 <= a < t.len() && 0 <= b < t.len() && key(t[a]) == key(t[b]) implies a == b by {
        if a != j && b != j {
            assert(t[a] == s[a] && t[b] == s[b]);
        } else if a != j {
            assert(t[a] == s[a]);
        } else if b != j {
            assert(t[b] == s[b]);
        }
    }
    lemma_keyed_at(t, key, val, j);
    let m = keyed(s, key, val);
    let n = keyed(t, key, val);
    let r = m.insert(key(x), val(x));
    assert forall|k: K| #[trigger] n.dom().contains(k) == r.dom().contains(k) && (n.dom().contains(k) ==> n[k] == r[k]) by {
        if k == key(x) {
        } else if m.contains_key(k) {
            let i = choose|i: int| 0 <= i < s.len() && key(s[i]) == k;
            lemma_keyed_at(s, key, val, i);
            assert(i != j);
            assert(t[i] == s[i]);
            lemma_keyed_at(t, key, val, i);
        } else if n.contains_key(k) {
            let i = choose|i: int| 0 <= i < t.len() && key(t[i]) == k;
            assert(i != j);
            assert(0 <= i < s.len() && key(s[i]) == k);
        }
    }
    assert(n =~= r);
}

} // verus!
