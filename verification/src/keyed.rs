use vstd::prelude::*;

verus! {

/// Whether some pair of `es` has the key `k`.
pub open spec fn has_key<K, X>(es: Seq<(K, X)>, k: K) -> bool {
    exists|i: int| 0 <= i < es.len() && (#[trigger] es[i]).0 == k
}

/// A position in `es` at which the key `k` stands, if there is one.
pub open spec fn index_of<K, X>(es: Seq<(K, X)>, k: K) -> int {
    choose|i: int| 0 <= i < es.len() && (#[trigger] es[i]).0 == k
}

/// No key stands at two positions of `es`.
pub open spec fn distinct_keys<K, X>(es: Seq<(K, X)>) -> bool {
    forall|i: int, j: int|
        0 <= i < j < es.len() ==> (#[trigger] es[i]).0 != (#[trigger] es[j]).0
}

/// The finite map that a sequence of key-value pairs stands for.
pub open spec fn to_map<K, X>(es: Seq<(K, X)>) -> Map<K, X> {
    Map::new(|k: K| has_key(es, k), |k: K| es[index_of(es, k)].1)
}

/// With distinct keys, the pair at position `i` is what the map holds for its key.
pub proof fn lemma_to_map_at<K, X>(es: Seq<(K, X)>, i: int)
    requires
        distinct_keys(es),
        0 <= i < es.len(),
    ensures
        has_key(es, es[i].0),
        index_of(es, es[i].0) == i,
        to_map(es).dom().contains(es[i].0),
        to_map(es)[es[i].0] == es[i].1,
{
    let j = index_of(es, es[i].0);
    assert(0 <= j < es.len() && es[j].0 == es[i].0);
    if j < i {
        assert(es[j].0 != es[i].0);
    }
    if i < j {
        assert(es[i].0 != es[j].0);
    }
}

/// An empty sequence stands for the empty map.
pub proof fn lemma_to_map_empty<K, X>(es: Seq<(K, X)>)
    requires
        es.len() == 0,
    ensures
        to_map(es) =~= Map::<K, X>::empty(),
        distinct_keys(es),
{
}

/// Putting a pair with a fresh key anywhere into the sequence inserts it into the map.
pub proof fn lemma_to_map_insert<K, X>(es: Seq<(K, X)>, p: int, k: K, x: X)
    requires
        distinct_keys(es),
        !has_key(es, k),
        0 <= p <= es.len(),
    ensures
        distinct_keys(es.insert(p, (k, x))),
        to_map(es.insert(p, (k, x))) =~= to_map(es).insert(k, x),
{
    let fs = es.insert(p, (k, x));
    assert forall|i: int, j: int| 0 <= i < j < fs.len() implies (#[trigger] fs[i]).0 != (
    #[trigger] fs[j]).0 by {
        let a = if i < p { i } else { i - 1 };
        let b = if j < p { j } else { j - 1 };
        if i == p {
            assert(fs[j] == es[b]);
        } else if j == p {
            assert(fs[i] == es[a]);
        } else {
            assert(fs[i] == es[a]);
            assert(fs[j] == es[b]);
        }
    }
    assert(fs[p] == (k, x));
    assert forall|q: K| #[trigger] has_key(fs, q) <==> (q == k || has_key(es, q)) by {
        if has_key(fs, q) {
            let i = index_of(fs, q);
            if i != p {
                let a = if i < p { i } else { i - 1 };
                assert(fs[i] == es[a]);
            }
        }
        if has_key(es, q) {
            let a = index_of(es, q);
            let i = if a < p { a } else { a + 1 };
            assert(fs[i] == es[a]);
        }
    }
    assert forall|q: K| has_key(fs, q) implies #[trigger] to_map(fs)[q] == to_map(es).insert(
        k,
        x,
    )[q] by {
        let i = index_of(fs, q);
        lemma_to_map_at(fs, i);
        if i != p {
            let a = if i < p { i } else { i - 1 };
            assert(fs[i] == es[a]);
            lemma_to_map_at(es, a);
        }
    }
}

/// Replacing the value at position `i` replaces what the map holds for that key.
pub proof fn lemma_to_map_update<K, X>(es: Seq<(K, X)>, i: int, x: X)
    requires
        distinct_keys(es),
        0 <= i < es.len(),
    ensures
        distinct_keys(es.update(i, (es[i].0, x))),
        to_map(es.update(i, (es[i].0, x))) =~= to_map(es).insert(es[i].0, x),
{
    let k = es[i].0;
    let fs = es.update(i, (k, x));
    assert forall|a: int, b: int| 0 <= a < b < fs.len() implies (#[trigger] fs[a]).0 != (
    #[trigger] fs[b]).0 by {
        assert(fs[a].0 == es[a].0);
        assert(fs[b].0 == es[b].0);
    }
    assert forall|q: K| #[trigger] has_key(fs, q) <==> (q == k || has_key(es, q)) by {
        if has_key(fs, q) {
            let j = index_of(fs, q);
            assert(es[j].0 == fs[j].0);
        }
        if has_key(es, q) {
            let j = index_of(es, q);
            assert(es[j].0 == fs[j].0);
        }
        assert(fs[i].0 == k);
    }
    assert forall|q: K| has_key(fs, q) implies #[trigger] to_map(fs)[q] == to_map(es).insert(
        k,
        x,
    )[q] by {
        let j = index_of(fs, q);
        lemma_to_map_at(fs, j);
        if j != i {
            assert(fs[j] == es[j]);
            lemma_to_map_at(es, j);
        }
    }
}

} // verus!
