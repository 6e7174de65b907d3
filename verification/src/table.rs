//! Rows of a table as a map from their keys.

use vstd::prelude::*;

verus! {

/// The place of a row with that key.
pub open spec fn row_at<K, V>(rows: Seq<V>, key: spec_fn(V) -> K, k: K) -> int {
    choose|i: int| 0 <= i < rows.len() && key(#[trigger] rows[i]) == k
}

pub open spec fn has_row<K, V>(rows: Seq<V>, key: spec_fn(V) -> K, k: K) -> bool {
    exists|i: int| 0 <= i < rows.len() && key(#[trigger] rows[i]) == k
}

/// Rows by their keys.
pub open spec fn table<K, V>(rows: Seq<V>, key: spec_fn(V) -> K) -> Map<K, V> {
    Map::new(|k: K| has_row(rows, key, k), |k: K| rows[row_at(rows, key, k)])
}

pub open spec fn keys_distinct<K, V>(rows: Seq<V>, key: spec_fn(V) -> K) -> bool {
    forall|i: int, j: int|
        0 <= i < j < rows.len() ==> key(#[trigger] rows[i]) != key(#[trigger] rows[j])
}

/// A row is found under its key.
pub proof fn lemma_row<K, V>(rows: Seq<V>, key: spec_fn(V) -> K, i: int)
    requires
        keys_distinct(rows, key),
        0 <= i < rows.len(),
    ensures
        table(rows, key).contains_key(key(rows[i])),
        table(rows, key)[key(rows[i])] == rows[i],
        row_at(rows, key, key(rows[i])) == i,
{
    let k = key(rows[i]);
    assert(has_row(rows, key, k));
    let j = row_at(rows, key, k);
    assert(0 <= j < rows.len() && key(rows[j]) == k);
    if j < i {
        assert(key(rows[j]) != key(rows[i]));
    }
    if i < j {
        assert(key(rows[i]) != key(rows[j]));
    }
}

/// What is found under a key is a row with that key.
pub proof fn lemma_found<K, V>(rows: Seq<V>, key: spec_fn(V) -> K, k: K)
    requires
        table(rows, key).contains_key(k),
    ensures
        0 <= row_at(rows, key, k) < rows.len(),
        key(rows[row_at(rows, key, k)]) == k,
        table(rows, key)[k] == rows[row_at(rows, key, k)],
{
    assert(has_row(rows, key, k));
}

/// Two lists of distinct rows that hold the same rows make the same table.
pub proof fn lemma_same_table<K, V>(a: Seq<V>, m: Map<K, V>, key: spec_fn(V) -> K)
    requires
        keys_distinct(a, key),
        forall|i: int|
            0 <= i < a.len() ==> m.contains_key(key(#[trigger] a[i])) && m[key(a[i])] == a[i],
        forall|k: K| #[trigger] m.contains_key(k) ==> has_row(a, key, k),
    ensures
        table(a, key) == m,
{
    assert forall|k: K| #[trigger] table(a, key).contains_key(k) implies m.contains_key(k)
        && table(a, key)[k] == m[k] by {
        lemma_found(a, key, k);
    }
    assert forall|k: K| #[trigger] m.contains_key(k) implies table(a, key).contains_key(k) by {
        assert(has_row(a, key, k));
    }
    assert(table(a, key) =~= m);
}

pub proof fn lemma_insert_row<K, V>(rows: Seq<V>, key: spec_fn(V) -> K, p: int, row: V)
    requires
        keys_distinct(rows, key),
        0 <= p <= rows.len(),
        !has_row(rows, key, key(row)),
    ensures
        keys_distinct(rows.insert(p, row), key),
        table(rows.insert(p, row), key) == table(rows, key).insert(key(row), row),
{
    let all = rows.insert(p, row);
    let m = table(rows, key).insert(key(row), row);
    assert forall|i: int, j: int| 0 <= i < j < all.len() implies key(#[trigger] all[i]) != key(
        #[trigger] all[j],
    ) by {
        let a = if i < p {
            i
        } else {
            i - 1
        };
        let b = if j < p {
            j
        } else {
            j - 1
        };
        if i == p {
            assert(all[j] == rows[b]);
        } else if j == p {
            assert(all[i] == rows[a]);
        } else {
            assert(all[i] == rows[a] && all[j] == rows[b]);
        }
    }
    assert forall|i: int| 0 <= i < all.len() implies m.contains_key(key(#[trigger] all[i]))
        && m[key(all[i])] == all[i] by {
        if i != p {
            let a = if i < p {
                i
            } else {
                i - 1
            };
            assert(all[i] == rows[a]);
            lemma_row(rows, key, a);
            assert(key(rows[a]) != key(row));
        }
    }
    assert forall|k: K| #[trigger] m.contains_key(k) implies has_row(all, key, k) by {
        if k == key(row) {
            assert(all[p] == row);
        } else {
            lemma_found(rows, key, k);
            let a = row_at(rows, key, k);
            let i = if a < p {
                a
            } else {
                a + 1
            };
            assert(all[i] == rows[a]);
        }
    }
    lemma_same_table(all, m, key);
}

pub proof fn lemma_remove_row<K, V>(rows: Seq<V>, key: spec_fn(V) -> K, p: int)
    requires
        keys_distinct(rows, key),
        0 <= p < rows.len(),
    ensures
        keys_distinct(rows.remove(p), key),
        table(rows.remove(p), key) == table(rows, key).remove(key(rows[p])),
        !has_row(rows.remove(p), key, key(rows[p])),
{
    let rest = rows.remove(p);
    let m = table(rows, key).remove(key(rows[p]));
    assert forall|i: int| 0 <= i < rest.len() implies m.contains_key(key(#[trigger] rest[i]))
        && m[key(rest[i])] == rest[i] && key(rest[i]) != key(rows[p]) by {
        let a = if i < p {
            i
        } else {
            i + 1
        };
        assert(rest[i] == rows[a]);
        lemma_row(rows, key, a);
        lemma_row(rows, key, p);
        if a < p {
            assert(key(rows[a]) != key(rows[p]));
        } else {
            assert(key(rows[p]) != key(rows[a]));
        }
    }
    assert forall|i: int, j: int| 0 <= i < j < rest.len() implies key(#[trigger] rest[i]) != key(
        #[trigger] rest[j],
    ) by {
        let a = if i < p {
            i
        } else {
            i + 1
        };
        let b = if j < p {
            j
        } else {
            j + 1
        };
        assert(rest[i] == rows[a] && rest[j] == rows[b]);
    }
    assert forall|k: K| #[trigger] m.contains_key(k) implies has_row(rest, key, k) by {
        lemma_found(rows, key, k);
        let a = row_at(rows, key, k);
        let i = if a < p {
            a
        } else {
            a - 1
        };
        assert(rest[i] == rows[a]);
    }
    lemma_same_table(rest, m, key);
}

} // verus!
