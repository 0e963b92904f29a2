//! Sequences of items read as lookup tables: each item is found under its key,
//! and a later item replaces an earlier one of the same key.

use vstd::prelude::*;

verus! {

/// The table of `items` under `key`.
pub open spec fn index_by<K, V>(items: Seq<V>, key: spec_fn(V) -> K) -> Map<K, V>
    decreases items.len(),
{
    if items.len() == 0 {
        Map::empty()
    } else {
        index_by(items.drop_last(), key).insert(key(items.last()), items.last())
    }
}

/// No two items have the same key.
pub open spec fn distinct_keys<K, V>(items: Seq<V>, key: spec_fn(V) -> K) -> bool {
    forall|i: int, j: int| 0 <= i < j < items.len() ==> key(items[i]) != key(items[j])
}

/// The table of a sequence with one more item.
pub proof fn lemma_index_by_push<K, V>(items: Seq<V>, key: spec_fn(V) -> K, item: V)
    ensures
        index_by(items.push(item), key) == index_by(items, key).insert(key(item), item),
{
    assert(items.push(item).drop_last() =~= items);
}

/// The table holds a key exactly if some item has it.
pub proof fn lemma_index_by_domain<K, V>(items: Seq<V>, key: spec_fn(V) -> K, k: K)
    ensures
        index_by(items, key).dom().contains(k) <==> exists|i: int|
            0 <= i < items.len() && key(#[trigger] items[i]) == k,
    decreases items.len(),
{
    if items.len() > 0 {
        let front = items.drop_last();
        lemma_index_by_domain(front, key, k);
        if index_by(items, key).dom().contains(k) {
            if key(items.last()) == k {
                assert(key(items[items.len() - 1]) == k);
            } else {
                let i = choose|i: int| 0 <= i < front.len() && key(#[trigger] front[i]) == k;
                assert(key(items[i]) == k);
            }
        }
        if exists|i: int| 0 <= i < items.len() && key(#[trigger] items[i]) == k {
            let i = choose|i: int| 0 <= i < items.len() && key(#[trigger] items[i]) == k;
            if i < front.len() {
                assert(key(front[i]) == k);
            }
        }
    }
}

/// Under its key the table holds the last item of that key.
pub proof fn lemma_index_by_last<K, V>(items: Seq<V>, key: spec_fn(V) -> K, i: int)
    requires
        0 <= i < items.len(),
        forall|j: int| i < j < items.len() ==> key(#[trigger] items[j]) != key(items[i]),
    ensures
        index_by(items, key).dom().contains(key(items[i])),
        index_by(items, key)[key(items[i])] == items[i],
    decreases items.len(),
{
    if i < items.len() - 1 {
        let front = items.drop_last();
        assert(key(items[items.len() - 1]) != key(items[i]));
        assert forall|j: int| i < j < front.len() implies key(#[trigger] front[j]) != key(
            front[i],
        ) by {
            assert(front[j] == items[j]);
        }
        lemma_index_by_last(front, key, i);
    }
}

/// Where the keys are distinct the table holds every item under its key.
pub proof fn lemma_index_by_distinct<K, V>(items: Seq<V>, key: spec_fn(V) -> K, i: int)
    requires
        distinct_keys(items, key),
        0 <= i < items.len(),
    ensures
        index_by(items, key).dom().contains(key(items[i])),
        index_by(items, key)[key(items[i])] == items[i],
{
    lemma_index_by_last(items, key, i);
}

/// Every item of the table is one of the sequence, under its own key.
pub proof fn lemma_index_by_value<K, V>(items: Seq<V>, key: spec_fn(V) -> K, k: K)
    requires
        index_by(items, key).dom().contains(k),
    ensures
        exists|i: int| 0 <= i < items.len() && #[trigger] items[i] == index_by(items, key)[k],
        key(index_by(items, key)[k]) == k,
    decreases items.len(),
{
    if items.len() > 0 {
        let front = items.drop_last();
        if key(items.last()) == k {
            assert(items[items.len() - 1] == index_by(items, key)[k]);
        } else {
            lemma_index_by_value(front, key, k);
            let i = choose|i: int| 0 <= i < front.len() && #[trigger] front[i] == index_by(front, key)[k];
            assert(items[i] == index_by(items, key)[k]);
        }
    }
}

/// Two sequences of distinct keys that hold the same items give the same
/// table.
pub proof fn lemma_index_by_same_items<K, V>(a: Seq<V>, b: Seq<V>, key: spec_fn(V) -> K)
    requires
        distinct_keys(a, key),
        distinct_keys(b, key),
        forall|i: int| 0 <= i < a.len() ==> b.contains(#[trigger] a[i]),
        forall|i: int| 0 <= i < b.len() ==> a.contains(#[trigger] b[i]),
    ensures
        index_by(a, key) == index_by(b, key),
{
    let ma = index_by(a, key);
    let mb = index_by(b, key);
    assert forall|k: K| #[trigger] ma.dom().contains(k) implies mb.dom().contains(k) && ma[k] == mb[k] by {
        lemma_index_by_value(a, key, k);
        let i = choose|i: int| 0 <= i < a.len() && #[trigger] a[i] == ma[k];
        assert(b.contains(a[i]));
        let j = choose|j: int| 0 <= j < b.len() && b[j] == a[i];
        lemma_index_by_distinct(b, key, j);
    }
    assert forall|k: K| #[trigger] mb.dom().contains(k) implies ma.dom().contains(k) by {
        lemma_index_by_value(b, key, k);
        let i = choose|i: int| 0 <= i < b.len() && #[trigger] b[i] == mb[k];
        assert(a.contains(b[i]));
        let j = choose|j: int| 0 <= j < a.len() && a[j] == b[i];
        lemma_index_by_distinct(a, key, j);
    }
    assert(ma =~= mb);
}

/// Taking an item out of a sequence of distinct keys takes its key out of the
/// table.
pub proof fn lemma_index_by_remove<K, V>(items: Seq<V>, key: spec_fn(V) -> K, i: int)
    requires
        distinct_keys(items, key),
        0 <= i < items.len(),
    ensures
        distinct_keys(items.remove(i), key),
        index_by(items.remove(i), key) == index_by(items, key).remove(key(items[i])),
{
    let rest = items.remove(i);
    assert forall|a: int, b: int| 0 <= a < b < rest.len() implies key(rest[a]) != key(rest[b]) by {
        let a0 = if a < i {
            a
        } else {
            a + 1
        };
        let b0 = if b < i {
            b
        } else {
            b + 1
        };
        assert(rest[a] == items[a0] && rest[b] == items[b0]);
    }
    let m = index_by(items, key).remove(key(items[i]));
    let r = index_by(rest, key);
    assert forall|k: K| #[trigger] r.dom().contains(k) implies m.dom().contains(k) && m[k] == r[k] by {
        lemma_index_by_value(rest, key, k);
        let a = choose|a: int| 0 <= a < rest.len() && #[trigger] rest[a] == r[k];
        let a0 = if a < i {
            a
        } else {
            a + 1
        };
        assert(rest[a] == items[a0]);
        lemma_index_by_distinct(items, key, a0);
    }
    assert forall|k: K| #[trigger] m.dom().contains(k) implies r.dom().contains(k) by {
        lemma_index_by_value(items, key, k);
        let a = choose|a: int| 0 <= a < items.len() && #[trigger] items[a] == index_by(items, key)[k];
        assert(a != i);
        let a1 = if a < i {
            a
        } else {
            a - 1
        };
        assert(rest[a1] == items[a]);
        lemma_index_by_distinct(rest, key, a1);
    }
    assert(m =~= r);
}

/// One more item of a new key keeps the keys distinct.
pub proof fn lemma_distinct_keys_push<K, V>(items: Seq<V>, key: spec_fn(V) -> K, item: V)
    requires
        distinct_keys(items, key),
        !index_by(items, key).dom().contains(key(item)),
    ensures
        distinct_keys(items.push(item), key),
{
    let next = items.push(item);
    assert forall|a: int, b: int| 0 <= a < b < next.len() implies key(next[a]) != key(next[b]) by {
        if b == items.len() {
            lemma_index_by_domain(items, key, key(item));
            assert(next[a] == items[a]);
        } else {
            assert(next[a] == items[a] && next[b] == items[b]);
        }
    }
}

} // verus!
