//! The recency sequence: what a cache holds, as mathematics.
//!
//! A cache's contents are a sequence of `(key, value)` entries ordered from the
//! most recently used entry (index 0) to the least recently used one (the last
//! index). No key occurs twice, and the sequence is never longer than the
//! cache's capacity. Every operation of the cache is described here as a
//! function from the sequence before the call to the sequence after it.
use vstd::prelude::*;

verus! {

/// The keys of the entries, in recency order.
pub open spec fn keys<K, V>(entries: Seq<(K, V)>) -> Seq<K> {
    entries.map_values(|e: (K, V)| e.0)
}

/// Whether some entry carries `key`.
pub open spec fn has_key<K, V>(entries: Seq<(K, V)>, key: K) -> bool {
    keys(entries).contains(key)
}

/// The index of the entry that carries `key`; meaningful when there is one.
pub open spec fn position<K, V>(entries: Seq<(K, V)>, key: K) -> int {
    keys(entries).index_of(key)
}

/// The value cached under `key`, if any.
pub open spec fn value_of<K, V>(entries: Seq<(K, V)>, key: K) -> Option<V> {
    if has_key(entries, key) {
        Some(entries[position(entries, key)].1)
    } else {
        None
    }
}

/// The contents seen as a plain mapping, forgetting recency.
pub open spec fn as_map<K, V>(entries: Seq<(K, V)>) -> Map<K, V> {
    Map::new(|k: K| has_key(entries, k), |k: K| entries[position(entries, k)].1)
}

/// What every cache's contents satisfy: distinct keys, and no more entries
/// than the capacity allows.
pub open spec fn valid<K, V>(entries: Seq<(K, V)>, capacity: nat) -> bool {
    &&& keys(entries).no_duplicates()
    &&& entries.len() <= capacity
}

/// The element at index `i` moved to the front, the others keeping their
/// order.
pub open spec fn promoted<T>(entries: Seq<T>, i: int) -> Seq<T> {
    seq![entries[i]] + entries.remove(i)
}

/// The contents after a lookup of `key` that refreshes its recency: a hit moves
/// the entry to the front, a miss changes nothing.
pub open spec fn touched<K, V>(entries: Seq<(K, V)>, key: K) -> Seq<(K, V)> {
    if has_key(entries, key) {
        promoted(entries, position(entries, key))
    } else {
        entries
    }
}

/// The entry that an insertion of `key` pushes out: the least recently used
/// one, and only when `key` is new and the cache is full.
pub open spec fn evicted_by_put<K, V>(entries: Seq<(K, V)>, capacity: nat, key: K) -> Option<
    (K, V),
> {
    if !has_key(entries, key) && entries.len() >= capacity && entries.len() > 0 {
        Some(entries.last())
    } else {
        None
    }
}

/// The contents after `key` is set to `value`. An existing entry is replaced
/// and moved to the front; a new one is put at the front, after the least
/// recently used entry has made room for it if the cache was full.
pub open spec fn after_put<K, V>(entries: Seq<(K, V)>, capacity: nat, key: K, value: V) -> Seq<
    (K, V),
> {
    if has_key(entries, key) {
        seq![(key, value)] + entries.remove(position(entries, key))
    } else if entries.len() >= capacity && entries.len() > 0 {
        seq![(key, value)] + entries.drop_last()
    } else {
        seq![(key, value)] + entries
    }
}

/// The contents after `key` is removed; unchanged when it was absent.
pub open spec fn after_remove<K, V>(entries: Seq<(K, V)>, key: K) -> Seq<(K, V)> {
    if has_key(entries, key) {
        entries.remove(position(entries, key))
    } else {
        entries
    }
}

/// With distinct keys, the entry at index `i` is the one that `position` finds
/// for its key.
pub proof fn lemma_position<K, V>(entries: Seq<(K, V)>, i: int)
    requires
        keys(entries).no_duplicates(),
        0 <= i < entries.len(),
    ensures
        has_key(entries, entries[i].0),
        position(entries, entries[i].0) == i,
        value_of(entries, entries[i].0) == Some(entries[i].1),
{
    assert(keys(entries)[i] == entries[i].0);
}

/// With distinct keys, the mapping view holds exactly the pairs that occur
/// as entries.
pub proof fn lemma_as_map_pairs<K, V>(entries: Seq<(K, V)>)
    requires
        keys(entries).no_duplicates(),
    ensures
        forall|k: K, v: V| #[trigger]
            as_map(entries).contains_pair(k, v) <==> entries.contains((k, v)),
        forall|k: K| #[trigger] as_map(entries).contains_key(k) <==> has_key(entries, k),
{
    assert forall|k: K, v: V| #[trigger] as_map(entries).contains_pair(k, v) <==> entries.contains(
        (k, v),
    ) by {
        if as_map(entries).contains_pair(k, v) {
            assert(entries[position(entries, k)] == (k, v));
        }
        if entries.contains((k, v)) {
            lemma_position(entries, entries.index_of((k, v)));
        }
    }
}

/// Two mappings with the same pairs are the same mapping.
proof fn lemma_same_pairs<K, V>(a: Map<K, V>, b: Map<K, V>)
    requires
        forall|k: K, v: V| a.contains_pair(k, v) <==> b.contains_pair(k, v),
    ensures
        a == b,
{
    assert forall|k: K| a.contains_key(k) <==> b.contains_key(k) by {
        if a.contains_key(k) {
            assert(a.contains_pair(k, a[k]));
        }
        if b.contains_key(k) {
            assert(b.contains_pair(k, b[k]));
        }
    }
    assert forall|k: K| a.contains_key(k) implies a[k] == b[k] by {
        assert(a.contains_pair(k, a[k]));
    }
}

/// Moving an entry to the front keeps the keys distinct and the mapping as it
/// was.
pub proof fn lemma_promoted<K, V>(entries: Seq<(K, V)>, i: int)
    requires
        keys(entries).no_duplicates(),
        0 <= i < entries.len(),
    ensures
        keys(promoted(entries, i)).no_duplicates(),
        promoted(entries, i).len() == entries.len(),
        promoted(entries, i)[0] == entries[i],
        as_map(promoted(entries, i)) == as_map(entries),
{
    let moved = promoted(entries, i);
    assert forall|a: int, b: int|
        0 <= a < moved.len() && 0 <= b < moved.len() && a != b implies keys(moved)[a] != keys(
        moved,
    )[b] by {
        let x: int = if a == 0 {
            i
        } else if a <= i {
            a - 1
        } else {
            a
        };
        let y: int = if b == 0 {
            i
        } else if b <= i {
            b - 1
        } else {
            b
        };
        assert(keys(entries)[x] != keys(entries)[y]);
    }
    lemma_as_map_pairs(entries);
    lemma_as_map_pairs(moved);
    assert forall|k: K, v: V| moved.contains((k, v)) <==> entries.contains((k, v)) by {
        if moved.contains((k, v)) {
            assert(moved[moved.index_of((k, v))] == (k, v));
        }
        if entries.contains((k, v)) {
            let j: int = entries.index_of((k, v));
            assert(moved[if j == i {
                0
            } else if j < i {
                j + 1
            } else {
                j
            }] == (k, v));
        }
    }
    lemma_same_pairs(as_map(moved), as_map(entries));
}

/// A refreshing lookup keeps the contents valid, keeps every key and value,
/// and on a hit leaves the entry that was looked up at the front.
pub proof fn lemma_touched<K, V>(entries: Seq<(K, V)>, capacity: nat, key: K)
    requires
        valid(entries, capacity),
    ensures
        valid(touched(entries, key), capacity),
        touched(entries, key).len() == entries.len(),
        as_map(touched(entries, key)) == as_map(entries),
        has_key(entries, key) ==> touched(entries, key)[0] == (
            key,
            value_of(entries, key).unwrap(),
        ),
{
    if has_key(entries, key) {
        lemma_promoted(entries, position(entries, key));
    }
}

/// An insertion keeps the contents valid, so the cache never holds more than
/// its capacity; it leaves the new entry at the front; and as a mapping it is
/// an insertion, after the removal of the evicted key if there is one.
pub proof fn lemma_after_put<K, V>(entries: Seq<(K, V)>, capacity: nat, key: K, value: V)
    requires
        valid(entries, capacity),
        capacity > 0,
    ensures
        valid(after_put(entries, capacity, key, value), capacity),
        after_put(entries, capacity, key, value)[0] == (key, value),
        value_of(after_put(entries, capacity, key, value), key) == Some(value),
        after_put(entries, capacity, key, value).len() == (if has_key(entries, key)
            || entries.len() == capacity {
            entries.len()
        } else {
            entries.len() + 1
        }),
        as_map(after_put(entries, capacity, key, value)) == (match evicted_by_put(
            entries,
            capacity,
            key,
        ) {
            Some(e) => as_map(entries).remove(e.0).insert(key, value),
            None => as_map(entries).insert(key, value),
        }),
{
    let put = after_put(entries, capacity, key, value);
    let n = entries.len() as int;
    let hit = has_key(entries, key);
    let i: int = position(entries, key);
    let full = !hit && n == capacity;
    // The entry at index `j > 0` of the result is the entry at index
    // `j - 1` before, or at index `j` if the replaced entry stood in front
    // of it.
    assert forall|j: int| 0 < j < put.len() implies #[trigger] put[j] == entries[if hit && j > i {
        j
    } else {
        j - 1
    }] && put[j].0 != key by {
        let from: int = if hit && j > i {
            j
        } else {
            j - 1
        };
        assert(keys(entries)[from] == entries[from].0);
    }
    assert forall|a: int, b: int|
        0 <= a < put.len() && 0 <= b < put.len() && a != b implies keys(put)[a] != keys(put)[b] by {
        if a > 0 && b > 0 {
            let x: int = if hit && a > i {
                a
            } else {
                a - 1
            };
            let y: int = if hit && b > i {
                b
            } else {
                b - 1
            };
            assert(keys(entries)[x] != keys(entries)[y]);
        }
    }
    lemma_position(put, 0);
    lemma_as_map_pairs(entries);
    lemma_as_map_pairs(put);
    let target = match evicted_by_put(entries, capacity, key) {
        Some(e) => as_map(entries).remove(e.0).insert(key, value),
        None => as_map(entries).insert(key, value),
    };
    assert forall|k: K, v: V| as_map(put).contains_pair(k, v) implies target.contains_pair(
        k,
        v,
    ) by {
        let j: int = put.index_of((k, v));
        if j > 0 {
            let from: int = if hit && j > i {
                j
            } else {
                j - 1
            };
            assert(entries[from] == (k, v));
            assert(as_map(entries).contains_pair(k, v));
            if full {
                assert(keys(entries)[from] != keys(entries)[n - 1]);
            }
        }
    }
    assert forall|k: K, v: V| target.contains_pair(k, v) implies as_map(put).contains_pair(
        k,
        v,
    ) by {
        if k != key {
            let j: int = entries.index_of((k, v));
            let to: int = if hit && j > i {
                j
            } else {
                j + 1
            };
            assert(put[to] == (k, v));
        }
    }
    lemma_same_pairs(as_map(put), target);
}

/// A removal keeps the contents valid, leaves the key absent, and as a
/// mapping it is a removal. Removing an absent key changes nothing.
pub proof fn lemma_after_remove<K, V>(entries: Seq<(K, V)>, capacity: nat, key: K)
    requires
        valid(entries, capacity),
    ensures
        valid(after_remove(entries, key), capacity),
        !has_key(after_remove(entries, key), key),
        as_map(after_remove(entries, key)) == as_map(entries).remove(key),
        after_remove(entries, key).len() == (if has_key(entries, key) {
            entries.len() - 1
        } else {
            entries.len() as int
        }),
        !has_key(entries, key) ==> after_remove(entries, key) == entries,
{
    let rest = after_remove(entries, key);
    lemma_as_map_pairs(entries);
    if has_key(entries, key) {
        let i: int = position(entries, key);
        assert forall|j: int| 0 <= j < rest.len() implies #[trigger] rest[j] == entries[if j < i {
            j
        } else {
            j + 1
        }] && rest[j].0 != key by {
            assert(keys(entries)[if j < i {
                j
            } else {
                j + 1
            }] != keys(entries)[i]);
        }
        assert forall|a: int, b: int|
            0 <= a < rest.len() && 0 <= b < rest.len() && a != b implies keys(rest)[a] != keys(
            rest,
        )[b] by {
            assert(keys(entries)[if a < i {
                a
            } else {
                a + 1
            }] != keys(entries)[if b < i {
                b
            } else {
                b + 1
            }]);
        }
        if has_key(rest, key) {
            assert(rest[position(rest, key)].0 == key);
        }
        lemma_as_map_pairs(rest);
        assert forall|k: K, v: V| as_map(rest).contains_pair(k, v) implies as_map(entries).remove(
            key,
        ).contains_pair(k, v) by {
            assert(rest[rest.index_of((k, v))] == (k, v));
            assert(as_map(entries).contains_pair(k, v));
        }
        assert forall|k: K, v: V|
            as_map(entries).remove(key).contains_pair(k, v) implies as_map(rest).contains_pair(
            k,
            v,
        ) by {
            let j: int = entries.index_of((k, v));
            assert(rest[if j < i {
                j
            } else {
                j - 1
            }] == (k, v));
        }
        lemma_same_pairs(as_map(rest), as_map(entries).remove(key));
    }
}

/// The contents after the insertions `ops`, made one after the other.
pub open spec fn after_puts<K, V>(entries: Seq<(K, V)>, capacity: nat, ops: Seq<(K, V)>) -> Seq<
    (K, V),
>
    decreases ops.len(),
{
    if ops.len() == 0 {
        entries
    } else {
        after_put(
            after_puts(entries, capacity, ops.drop_last()),
            capacity,
            ops.last().0,
            ops.last().1,
        )
    }
}

/// Whatever is inserted, and however often, the contents stay valid after
/// every single insertion: the cache never holds more than its capacity.
pub proof fn lemma_after_puts_valid<K, V>(entries: Seq<(K, V)>, capacity: nat, ops: Seq<(K, V)>)
    requires
        valid(entries, capacity),
        capacity > 0,
    ensures
        forall|n: int|
            0 <= n <= ops.len() ==> valid(
                #[trigger] after_puts(entries, capacity, ops.take(n)),
                capacity,
            ),
        valid(after_puts(entries, capacity, ops), capacity),
    decreases ops.len(),
{
    if ops.len() > 0 {
        let shorter = ops.drop_last();
        lemma_after_puts_valid(entries, capacity, shorter);
        lemma_after_put(
            after_puts(entries, capacity, shorter),
            capacity,
            ops.last().0,
            ops.last().1,
        );
        assert forall|n: int| 0 <= n <= ops.len() implies valid(
            #[trigger] after_puts(entries, capacity, ops.take(n)),
            capacity,
        ) by {
            if n < ops.len() {
                assert(ops.take(n) =~= shorter.take(n));
            } else {
                assert(ops.take(n) =~= ops);
            }
        }
    }
}

/// Filling an empty cache with distinct keys, no more of them than it can
/// hold, leaves them in the reverse of the order in which they came.
pub proof fn lemma_fill<K, V>(fill: Seq<(K, V)>, capacity: nat)
    requires
        keys(fill).no_duplicates(),
        fill.len() <= capacity,
    ensures
        after_puts(Seq::<(K, V)>::empty(), capacity, fill) == Seq::new(
            fill.len(),
            |i: int| fill[fill.len() - 1 - i],
        ),
    decreases fill.len(),
{
    if fill.len() > 0 {
        let shorter = fill.drop_last();
        let n = shorter.len() as int;
        let before = after_puts(Seq::<(K, V)>::empty(), capacity, shorter);
        assert forall|a: int, b: int| 0 <= a < n && 0 <= b < n && a != b implies keys(shorter)[a]
            != keys(shorter)[b] by {
            assert(keys(fill)[a] != keys(fill)[b]);
        }
        lemma_fill(shorter, capacity);
        if has_key(before, fill.last().0) {
            let j: int = position(before, fill.last().0);
            assert(keys(fill)[n - 1 - j] != keys(fill)[n]);
        }
    }
}

/// Fill an empty cache of capacity two or more with distinct keys, look the
/// first of them up, and insert a key that is new: the entry that leaves is
/// the second one inserted, not the first, which the lookup refreshed.
pub proof fn lemma_refreshed_entry_stays<K, V>(fill: Seq<(K, V)>, key: K, value: V)
    requires
        fill.len() >= 2,
        keys(fill).no_duplicates(),
        !has_key(fill, key),
    ensures
        ({
            let capacity = fill.len();
            let full = after_puts(Seq::<(K, V)>::empty(), capacity, fill);
            let read = touched(full, fill[0].0);
            &&& value_of(full, fill[0].0) == Some(fill[0].1)
            &&& evicted_by_put(read, capacity, key) == Some(fill[1])
            &&& has_key(after_put(read, capacity, key, value), fill[0].0)
            &&& !has_key(after_put(read, capacity, key, value), fill[1].0)
        }),
{
    let capacity = fill.len();
    let n = fill.len() as int;
    let full = after_puts(Seq::<(K, V)>::empty(), capacity, fill);
    lemma_fill(fill, capacity);
    lemma_after_puts_valid(Seq::<(K, V)>::empty(), capacity, fill);
    lemma_position(full, n - 1);
    let read = touched(full, fill[0].0);
    lemma_touched(full, capacity, fill[0].0);
    if has_key(read, key) {
        assert(as_map(read).contains_key(key));
        let j: int = position(full, key);
        assert(keys(fill)[n - 1 - j] == key);
    }
    let put = after_put(read, capacity, key, value);
    assert(keys(put)[1] == fill[0].0);
    if has_key(put, fill[1].0) {
        let j: int = position(put, fill[1].0);
        if j == 0 {
            assert(keys(fill)[1] == key);
        } else {
            assert(keys(read)[j - 1] == keys(read)[n - 1]);
        }
    }
}

/// Setting a key twice in a row leaves what setting it once to the second
/// value leaves; the second call finds the first value and evicts nothing.
pub proof fn lemma_put_again<K, V>(entries: Seq<(K, V)>, capacity: nat, key: K, first: V, second: V)
    requires
        valid(entries, capacity),
        capacity > 0,
    ensures
        ({
            let once = after_put(entries, capacity, key, first);
            &&& value_of(once, key) == Some(first)
            &&& evicted_by_put(once, capacity, key) is None
            &&& after_put(once, capacity, key, second) == after_put(entries, capacity, key, second)
            &&& after_put(once, capacity, key, second).len() == once.len()
        }),
{
    let once = after_put(entries, capacity, key, first);
    lemma_after_put(entries, capacity, key, first);
    lemma_position(once, 0);
}

/// After a key that was present has been removed, the next insertion finds
/// room: it evicts nothing.
pub proof fn lemma_remove_makes_room<K, V>(entries: Seq<(K, V)>, capacity: nat, gone: K, key: K)
    requires
        valid(entries, capacity),
        has_key(entries, gone),
    ensures
        evicted_by_put(after_remove(entries, gone), capacity, key) is None,
        value_of(after_remove(entries, gone), gone) is None,
{
    lemma_after_remove(entries, capacity, gone);
}

} // verus!
