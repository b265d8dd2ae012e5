//! What holds of the store across operations, proved from the model of
//! `crate::model`, over which every operation of `crate::cache` is specified.

use vstd::prelude::*;
use vstd::seq_lib::{to_multiset_contains, to_multiset_len, to_multiset_remove};
use crate::entry::EntryView;
use crate::model::{
    after_put, after_put_is_well_formed, distinct_keys, filter_has_key, filter_of_distinct,
    filter_unfolds_at_front, filters_of_absent_key, filters_of_present_key, filters_split,
    has_key, index_of, lookup, moved_to_front, not_keyed, not_prefixed, prefixed, refreshed,
    stamped, touched, touched_is_well_formed, well_formed, with_prefix, without_key,
    without_key_is_well_formed, without_prefix, Item, Items,
};
use crate::time::Timestamp;

verus! {

/// The store after the writes of `writes`, applied to `s` one after the
/// other, each a key with the entry written under it.
pub open spec fn after_puts(s: Items, capacity: nat, writes: Items) -> Items
    decreases writes.len(),
{
    if writes.len() == 0 {
        s
    } else {
        after_put(
            after_puts(s, capacity, writes.drop_last()),
            capacity,
            writes.last().0,
            writes.last().1,
        )
    }
}

/// The size never exceeds the capacity: whatever is written, in whatever
/// order, the store is well formed after each write.
pub proof fn writes_keep_within_capacity(s: Items, capacity: nat, writes: Items)
    requires
        well_formed(s, capacity),
    ensures
        forall|n: int|
            0 <= n <= writes.len() ==> well_formed(
                #[trigger] after_puts(s, capacity, writes.take(n)),
                capacity,
            ),
        forall|n: int|
            0 <= n <= writes.len() ==> (#[trigger] after_puts(s, capacity, writes.take(n))).len()
                <= capacity,
    decreases writes.len(),
{
    assert forall|n: int| 0 <= n <= writes.len() implies well_formed(
        #[trigger] after_puts(s, capacity, writes.take(n)),
        capacity,
    ) by {
        if n == 0 {
            assert(writes.take(0).len() == 0);
        } else if n < writes.len() {
            writes_keep_within_capacity(s, capacity, writes.drop_last());
            assert(writes.drop_last().take(n) =~= writes.take(n));
        } else {
            writes_keep_within_capacity(s, capacity, writes.drop_last());
            let m = writes.len() - 1;
            assert(writes.take(n) =~= writes);
            assert(writes.drop_last().take(m) =~= writes.drop_last());
            after_put_is_well_formed(
                after_puts(s, capacity, writes.drop_last()),
                capacity,
                writes.last().0,
                writes.last().1,
            );
        }
    }
}

/// A full store stays full: a write to a store that holds as many entries as
/// it may leaves it with as many.
pub proof fn full_store_stays_full(s: Items, capacity: nat, k: Seq<char>, e: EntryView)
    requires
        well_formed(s, capacity),
        s.len() == capacity,
    ensures
        after_put(s, capacity, k, e).len() == capacity,
{
    without_key_is_well_formed(s, capacity, k);
}

/// A new key written to a full store evicts exactly one entry, the least
/// recently used one: its key is gone, and every other entry is still there
/// with what it held.
pub proof fn new_key_in_full_store_evicts_one(s: Items, capacity: nat, k: Seq<char>, e: EntryView)
    requires
        well_formed(s, capacity),
        s.len() == capacity,
        !has_key(s, k),
    ensures
        after_put(s, capacity, k, e).len() == capacity,
        lookup(after_put(s, capacity, k, e), k) == Some(e),
        !has_key(after_put(s, capacity, k, e), s.last().0),
        forall|i: int|
            0 <= i < s.len() - 1 ==> lookup(after_put(s, capacity, k, e), (#[trigger] s[i]).0)
                == Some(s[i].1),
{
    let after = after_put(s, capacity, k, e);
    after_put_is_well_formed(s, capacity, k, e);
    assert(after =~= seq![(k, e)] + s.drop_last());
    filters_of_present_key(after, k, 0);
    if has_key(after, s.last().0) {
        let j = choose|j: int| 0 <= j < after.len() && (#[trigger] after[j]).0 == s.last().0;
        if j > 0 {
            assert(after[j] == s[j - 1]);
            assert(s[j - 1].0 != s[s.len() - 1].0);
        }
    }
    assert forall|i: int| 0 <= i < s.len() - 1 implies lookup(after, (#[trigger] s[i]).0) == Some(
        s[i].1,
    ) by {
        assert(after[i + 1] == s[i]);
        filters_of_present_key(after, s[i].0, i + 1);
    }
}

/// A read changes the order only: the size stays, every key holds what it
/// held before, and the key that was read is the most recently used one.
pub proof fn read_changes_order_only(s: Items, capacity: nat, k: Seq<char>, other: Seq<char>)
    requires
        well_formed(s, capacity),
    ensures
        touched(s, k).len() == s.len(),
        has_key(touched(s, k), other) == has_key(s, other),
        lookup(touched(s, k), other) == lookup(s, other),
        has_key(s, k) ==> touched(s, k)[0] == s[index_of(s, k)],
{
    touched_is_well_formed(s, capacity, k);
    if has_key(s, k) {
        let i = index_of(s, k);
        filters_of_present_key(s, k, i);
        let t = touched(s, k);
        assert(t == moved_to_front(s, i));
        if has_key(s, other) {
            let j = index_of(s, other);
            let at = if j == i {
                0
            } else if j < i {
                j + 1
            } else {
                j
            };
            assert(t[at] == s[j]);
            filters_of_present_key(t, other, at);
            filters_of_present_key(s, other, j);
        } else if has_key(t, other) {
            let at = choose|at: int| 0 <= at < t.len() && (#[trigger] t[at]).0 == other;
            let j = if at == 0 {
                i
            } else if at <= i {
                at - 1
            } else {
                at
            };
            assert(t[at] == s[j]);
        }
    }
}

/// A read protects from eviction. In a full store of two entries or more, a
/// key that was just read survives the write of a new key with what it held,
/// and another resident key is evicted in its place.
pub proof fn read_key_survives_eviction(
    s: Items,
    capacity: nat,
    k: Seq<char>,
    new_key: Seq<char>,
    e: EntryView,
)
    requires
        well_formed(s, capacity),
        capacity >= 2,
        s.len() == capacity,
        has_key(s, k),
        !has_key(s, new_key),
    ensures
        ({
            let after = after_put(touched(s, k), capacity, new_key, e);
            let evicted = touched(s, k).last().0;
            &&& lookup(after, k) == lookup(s, k)
            &&& lookup(after, k) is Some
            &&& evicted != k
            &&& has_key(s, evicted)
            &&& !has_key(after, evicted)
            &&& after.len() == capacity
        }),
{
    let t = touched(s, k);
    let after = after_put(t, capacity, new_key, e);
    let evicted = t.last().0;
    touched_is_well_formed(s, capacity, k);
    read_changes_order_only(s, capacity, k, new_key);
    read_changes_order_only(s, capacity, k, k);
    read_changes_order_only(s, capacity, k, evicted);
    new_key_in_full_store_evicts_one(t, capacity, new_key, e);
    assert(t[0].0 == k);
    assert(t[0].0 != t[t.len() - 1].0);
    assert(has_key(t, evicted)) by {
        assert(t[t.len() - 1].0 == evicted);
    }
    filters_of_present_key(t, k, 0);
}

/// The least recently used entry of a store that was filled by writes under
/// distinct keys is the oldest write; the entries are the newest writes, as
/// many as the store may hold, the newest first.
pub proof fn distinct_writes_fill(capacity: nat, writes: Items)
    requires
        capacity >= 1,
        distinct_keys(writes),
    ensures
        ({
            let n = writes.len() as int;
            let kept = if n <= capacity {
                n
            } else {
                capacity as int
            };
            &&& after_puts(Seq::empty(), capacity, writes).len() == kept
            &&& after_puts(Seq::empty(), capacity, writes) == writes.subrange(n - kept, n).reverse()
        }),
    decreases writes.len(),
{
    let n = writes.len() as int;
    if n > 0 {
        let earlier = writes.drop_last();
        let w = writes.last();
        assert(distinct_keys(earlier)) by {
            assert forall|a: int, b: int| 0 <= a < b < earlier.len() implies (
            #[trigger] earlier[a]).0 != (#[trigger] earlier[b]).0 by {
                assert(writes[a].0 != writes[b].0);
            }
        }
        distinct_writes_fill(capacity, earlier);
        let before = after_puts(Seq::empty(), capacity, earlier);
        let m = n - 1;
        let kept_before = if m <= capacity {
            m
        } else {
            capacity as int
        };
        assert(before == earlier.subrange(m - kept_before, m).reverse());
        assert(!has_key(before, w.0)) by {
            if has_key(before, w.0) {
                let j = choose|j: int| 0 <= j < before.len() && (#[trigger] before[j]).0 == w.0;
                let i = m - kept_before + (kept_before - 1 - j);
                assert(before[j] == writes[i]);
                assert(writes[i].0 != writes[n - 1].0);
            }
        }
        let after = after_puts(Seq::empty(), capacity, writes);
        let kept = if n <= capacity {
            n
        } else {
            capacity as int
        };
        assert(after =~= writes.subrange(n - kept, n).reverse());
    } else {
        assert(writes.subrange(0, 0).reverse() =~= Seq::<Item>::empty());
    }
}

/// The store after reads of `keys`, applied to `s` one after the other.
pub open spec fn after_reads(s: Items, keys: Seq<Seq<char>>) -> Items
    decreases keys.len(),
{
    if keys.len() == 0 {
        s
    } else {
        touched(after_reads(s, keys.drop_last()), keys.last())
    }
}

/// `order` holds the writes of `writes`, each as often as `writes` holds it,
/// in an order of its own.
pub open spec fn same_writes(order: Items, writes: Items) -> bool {
    order.to_multiset() == writes.to_multiset()
}

/// Reads, however many and of whatever keys, change the order only: the
/// store stays well formed, keeps its size, and every key holds what it held.
pub proof fn reads_change_order_only(
    s: Items,
    capacity: nat,
    keys: Seq<Seq<char>>,
    k: Seq<char>,
)
    requires
        well_formed(s, capacity),
    ensures
        well_formed(after_reads(s, keys), capacity),
        after_reads(s, keys).len() == s.len(),
        lookup(after_reads(s, keys), k) == lookup(s, k),
    decreases keys.len(),
{
    if keys.len() > 0 {
        reads_change_order_only(s, capacity, keys.drop_last(), k);
        let before = after_reads(s, keys.drop_last());
        touched_is_well_formed(before, capacity, keys.last());
        read_changes_order_only(before, capacity, keys.last(), k);
    }
}

/// Writes under distinct keys stay under distinct keys in whatever order
/// they are applied, and every one of them is among those applied.
pub proof fn any_order_has_distinct_keys(writes: Items, order: Items)
    requires
        distinct_keys(writes),
        same_writes(order, writes),
    ensures
        distinct_keys(order),
        order.len() == writes.len(),
        forall|i: int| 0 <= i < writes.len() ==> order.contains(#[trigger] writes[i]),
{
    to_multiset_len(writes);
    to_multiset_len(order);
    assert forall|i: int| 0 <= i < writes.len() implies order.contains(#[trigger] writes[i]) by {
        assert(writes.contains(writes[i]));
        to_multiset_contains(writes, writes[i]);
        to_multiset_contains(order, writes[i]);
    }
    assert forall|a: int, b: int| 0 <= a < b < order.len() implies (#[trigger] order[a]).0 != (
    #[trigger] order[b]).0 by {
        if order[a].0 == order[b].0 {
            let x = order[a];
            let y = order[b];
            assert(order.contains(x));
            assert(order.contains(y));
            to_multiset_contains(order, x);
            to_multiset_contains(writes, x);
            to_multiset_contains(order, y);
            to_multiset_contains(writes, y);
            let i = choose|i: int| 0 <= i < writes.len() && writes[i] == x;
            let j = choose|j: int| 0 <= j < writes.len() && writes[j] == y;
            if i < j {
                assert(writes[i].0 != writes[j].0);
            } else if j < i {
                assert(writes[j].0 != writes[i].0);
            }
            assert(x == y);
            let rest = order.remove(a);
            assert(rest[b - 1] == x);
            assert(rest.contains(x));
            to_multiset_contains(rest, x);
            to_multiset_remove(order, a);
            let others = writes.remove(i);
            assert(!others.contains(x)) by {
                if others.contains(x) {
                    let m = choose|m: int| 0 <= m < others.len() && others[m] == x;
                    let m0 = if m < i {
                        m
                    } else {
                        m + 1
                    };
                    assert(others[m] == writes[m0]);
                    if m0 < i {
                        assert(writes[m0].0 != writes[i].0);
                    } else {
                        assert(writes[i].0 != writes[m0].0);
                    }
                }
            }
            to_multiset_contains(others, x);
            to_multiset_remove(writes, i);
            assert(order.to_multiset().remove(x).count(x) > 0);
            assert(writes.to_multiset().remove(x).count(x) == 0);
        }
    }
}

/// No write is lost. Writes under distinct keys, no more of them than the
/// store may hold, applied to an empty store in whatever order and followed
/// by whatever reads: every key that was written holds what was written under
/// it, and the store holds as many entries as there were writes.
pub proof fn distinct_writes_within_capacity_are_kept(
    capacity: nat,
    writes: Items,
    order: Items,
    reads: Seq<Seq<char>>,
    i: int,
)
    requires
        capacity >= 1,
        distinct_keys(writes),
        writes.len() <= capacity,
        same_writes(order, writes),
        0 <= i < writes.len(),
    ensures
        ({
            let written = after_puts(Seq::empty(), capacity, order);
            &&& lookup(written, writes[i].0) == Some(writes[i].1)
            &&& lookup(after_reads(written, reads), writes[i].0) == Some(writes[i].1)
            &&& after_reads(written, reads).len() == writes.len()
        }),
{
    let n = order.len() as int;
    let written = after_puts(Seq::empty(), capacity, order);
    any_order_has_distinct_keys(writes, order);
    distinct_writes_fill(capacity, order);
    assert(order.subrange(0, n) =~= order);
    assert(written == order.reverse());
    writes_keep_within_capacity(Seq::empty(), capacity, order);
    assert(order.take(n) =~= order);
    assert(well_formed(written, capacity));
    assert(order.contains(writes[i]));
    let j = choose|j: int| 0 <= j < order.len() && order[j] == writes[i];
    assert(written[n - 1 - j] == order[j]);
    filters_of_present_key(written, writes[i].0, n - 1 - j);
    reads_change_order_only(written, capacity, reads, writes[i].0);
}

/// The size after writes under distinct keys, applied to an empty store in
/// whatever order and followed by whatever reads, is the number of writes or
/// the capacity, whichever is smaller.
pub proof fn distinct_writes_fill_to_capacity(
    capacity: nat,
    writes: Items,
    order: Items,
    reads: Seq<Seq<char>>,
)
    requires
        capacity >= 1,
        distinct_keys(writes),
        same_writes(order, writes),
    ensures
        ({
            let written = after_puts(Seq::empty(), capacity, order);
            let smaller = if writes.len() <= capacity {
                writes.len()
            } else {
                capacity
            };
            &&& written.len() == smaller
            &&& after_reads(written, reads).len() == smaller
        }),
{
    let n = order.len() as int;
    let written = after_puts(Seq::empty(), capacity, order);
    any_order_has_distinct_keys(writes, order);
    distinct_writes_fill(capacity, order);
    writes_keep_within_capacity(Seq::empty(), capacity, order);
    assert(order.take(n) =~= order);
    reads_change_order_only(written, capacity, reads, Seq::empty());
}

/// With as many distinct keys written as the store may hold, a read of the
/// oldest key and then the write of one more new key, the oldest key is
/// still resident with its value, and the second oldest key was evicted.
pub proof fn oldest_key_survives_when_read(
    capacity: nat,
    writes: Items,
    new_key: Seq<char>,
    e: EntryView,
)
    requires
        capacity >= 2,
        writes.len() == capacity,
        distinct_keys(writes),
        !has_key(writes, new_key),
    ensures
        ({
            let filled = after_puts(Seq::empty(), capacity, writes);
            let after = after_put(touched(filled, writes[0].0), capacity, new_key, e);
            &&& lookup(after, writes[0].0) == Some(writes[0].1)
            &&& !has_key(after, writes[1].0)
            &&& lookup(after, new_key) == Some(e)
            &&& after.len() == capacity
        }),
{
    let n = writes.len() as int;
    let filled = after_puts(Seq::empty(), capacity, writes);
    let oldest = writes[0].0;
    distinct_writes_fill(capacity, writes);
    assert(writes.subrange(0, n) =~= writes);
    assert(filled == writes.reverse());
    writes_keep_within_capacity(Seq::empty(), capacity, writes);
    assert(writes.take(n) =~= writes);
    assert(well_formed(filled, capacity));
    assert(filled[n - 1] == writes[0]);
    assert(filled[n - 2] == writes[1]);
    filters_of_present_key(filled, oldest, n - 1);
    assert(!has_key(filled, new_key)) by {
        if has_key(filled, new_key) {
            let j = choose|j: int| 0 <= j < filled.len() && (#[trigger] filled[j]).0 == new_key;
            assert(filled[j] == writes[n - 1 - j]);
        }
    }
    let t = touched(filled, oldest);
    assert(t =~= seq![writes[0]] + filled.drop_last()) by {
        assert(filled.remove(n - 1) =~= filled.drop_last());
    }
    assert(t.last() == writes[1]);
    read_key_survives_eviction(filled, capacity, oldest, new_key, e);
    touched_is_well_formed(filled, capacity, oldest);
    read_changes_order_only(filled, capacity, oldest, new_key);
    new_key_in_full_store_evicts_one(t, capacity, new_key, e);
}

/// A second write under the same key replaces the first: there is one entry
/// of that key, it holds what was written last, and the size is what it was
/// after the first write.
pub proof fn second_write_replaces_first(
    s: Items,
    capacity: nat,
    k: Seq<char>,
    first: EntryView,
    second: EntryView,
)
    requires
        well_formed(s, capacity),
    ensures
        ({
            let once = after_put(s, capacity, k, first);
            let twice = after_put(once, capacity, k, second);
            &&& twice.len() == once.len()
            &&& lookup(twice, k) == Some(second)
            &&& twice == seq![(k, second)] + once.drop_first()
            &&& forall|i: int| 0 <= i < twice.len() && (#[trigger] twice[i]).0 == k ==> i == 0
        }),
{
    let once = after_put(s, capacity, k, first);
    let twice = after_put(once, capacity, k, second);
    after_put_is_well_formed(s, capacity, k, first);
    after_put_is_well_formed(once, capacity, k, second);
    assert(once[0] == (k, first));
    filters_of_present_key(once, k, 0);
    assert(once.remove(0) =~= once.drop_first());
    assert(twice[0] == (k, second));
    filters_of_present_key(twice, k, 0);
    assert forall|i: int| 0 <= i < twice.len() && (#[trigger] twice[i]).0 == k implies i == 0 by {
        if i > 0 {
            assert(twice[0].0 != twice[i].0);
        }
    }
}

/// Where the clock has advanced between two writes under the same key, the
/// entry carries a time strictly after that of the first write.
pub proof fn second_write_carries_later_time(
    s: Items,
    capacity: nat,
    k: Seq<char>,
    v1: Seq<char>,
    t1: Timestamp,
    v2: Seq<char>,
    t2: Timestamp,
)
    requires
        well_formed(s, capacity),
        t2.is_after(t1),
    ensures
        ({
            let once = after_put(s, capacity, k, stamped(v1, t1));
            let twice = after_put(once, capacity, k, stamped(v2, t2));
            &&& lookup(once, k) == Some(stamped(v1, t1))
            &&& lookup(twice, k) == Some(stamped(v2, t2))
            &&& lookup(twice, k)->0.time.is_after(lookup(once, k)->0.time)
        }),
{
    let once = after_put(s, capacity, k, stamped(v1, t1));
    after_put_is_well_formed(s, capacity, k, stamped(v1, t1));
    filters_of_present_key(once, k, 0);
    second_write_replaces_first(s, capacity, k, stamped(v1, t1), stamped(v2, t2));
}

/// The removal of a key that is not resident changes nothing.
pub proof fn removal_of_absent_key_changes_nothing(s: Items, capacity: nat, k: Seq<char>)
    requires
        well_formed(s, capacity),
        !has_key(s, k),
    ensures
        without_key(s, k) == s,
{
    filters_of_absent_key(s, k);
}

/// After the removal of a resident key, a read of it finds nothing, the size
/// is one less, and a second removal changes nothing.
pub proof fn removed_key_is_absent(s: Items, capacity: nat, k: Seq<char>)
    requires
        well_formed(s, capacity),
        has_key(s, k),
    ensures
        !has_key(without_key(s, k), k),
        lookup(without_key(s, k), k) is None,
        without_key(s, k).len() == s.len() - 1,
        without_key(without_key(s, k), k) == without_key(s, k),
{
    without_key_is_well_formed(s, capacity, k);
    filters_of_absent_key(without_key(s, k), k);
}

/// A removal leaves every other key with what it held.
pub proof fn removal_keeps_other_keys(s: Items, capacity: nat, k: Seq<char>, other: Seq<char>)
    requires
        well_formed(s, capacity),
        other != k,
    ensures
        lookup(without_key(s, k), other) == lookup(s, other),
{
    let pred = not_keyed(k);
    filter_has_key(s, pred, other);
    filter_of_distinct(s, pred);
    if has_key(s, other) {
        let i = index_of(s, other);
        filters_of_present_key(s, other, i);
        assert(pred(s[i]));
    } else if has_key(without_key(s, k), other) {
        let i = choose|i: int| 0 <= i < s.len() && (#[trigger] s[i]).0 == other && pred(s[i]);
        assert(has_key(s, other));
    }
}

/// A bulk removal takes out exactly the keys that begin with the prefix:
/// none of them is resident afterwards, every other key holds what it held,
/// and the number taken out and the number left add up to the size before.
pub proof fn bulk_removal_takes_exactly_the_prefix(
    s: Items,
    capacity: nat,
    p: Seq<char>,
    k: Seq<char>,
)
    requires
        well_formed(s, capacity),
    ensures
        well_formed(without_prefix(s, p), capacity),
        with_prefix(s, p).len() + without_prefix(s, p).len() == s.len(),
        p.is_prefix_of(k) ==> !has_key(without_prefix(s, p), k),
        !p.is_prefix_of(k) ==> lookup(without_prefix(s, p), k) == lookup(s, k),
{
    let pred = not_prefixed(p);
    s.lemma_filter_len(pred);
    filters_split(s, prefixed(p), pred);
    filter_has_key(s, pred, k);
    filter_of_distinct(s, pred);
    if !p.is_prefix_of(k) {
        if has_key(s, k) {
            let i = index_of(s, k);
            filters_of_present_key(s, k, i);
            assert(pred(s[i]));
        } else if has_key(without_prefix(s, p), k) {
            let i = choose|i: int| 0 <= i < s.len() && (#[trigger] s[i]).0 == k && pred(s[i]);
            assert(has_key(s, k));
        }
    }
}

/// A second bulk removal of the same prefix finds nothing to take out and
/// changes nothing.
pub proof fn bulk_removal_is_idempotent(s: Items, p: Seq<char>)
    ensures
        with_prefix(without_prefix(s, p), p).len() == 0,
        without_prefix(without_prefix(s, p), p) == without_prefix(s, p),
    decreases s.len(),
{
    let once = without_prefix(s, p);
    if s.len() == 0 {
        s.lemma_filter_len(not_prefixed(p));
        once.lemma_filter_len(prefixed(p));
        once.lemma_filter_len(not_prefixed(p));
        assert(once.filter(not_prefixed(p)) =~= once);
    } else {
        let rest = s.drop_first();
        bulk_removal_is_idempotent(rest, p);
        let rest_once = without_prefix(rest, p);
        filter_unfolds_at_front(s, not_prefixed(p));
        if p.is_prefix_of(s[0].0) {
            assert(Seq::<Item>::empty() + rest_once =~= rest_once);
        } else {
            assert(once == seq![s[0]] + rest_once);
            assert(once.drop_first() =~= rest_once);
            filter_unfolds_at_front(once, not_prefixed(p));
            filter_unfolds_at_front(once, prefixed(p));
            assert(Seq::<Item>::empty() + with_prefix(rest_once, p) =~= with_prefix(rest_once, p));
        }
    }
}

/// A scan changes the order only: the store stays well formed, keeps its
/// size, and every key holds what it held before.
pub proof fn scan_keeps_entries(s: Items, capacity: nat, p: Seq<char>, k: Seq<char>)
    requires
        well_formed(s, capacity),
    ensures
        well_formed(refreshed(s, p), capacity),
        refreshed(s, p).len() == s.len(),
        lookup(refreshed(s, p), k) == lookup(s, k),
{
    let front = with_prefix(s, p);
    let back = without_prefix(s, p);
    let r = refreshed(s, p);
    filters_split(s, prefixed(p), not_prefixed(p));
    filter_of_distinct(s, prefixed(p));
    filter_of_distinct(s, not_prefixed(p));
    assert forall|a: int, b: int| 0 <= a < b < r.len() implies (#[trigger] r[a]).0 != (
    #[trigger] r[b]).0 by {
        if b < front.len() {
            assert(r[a] == front[a] && r[b] == front[b]);
        } else if a >= front.len() {
            assert(r[a] == back[a - front.len()] && r[b] == back[b - front.len()]);
        } else {
            assert(r[a] == front[a] && r[b] == back[b - front.len()]);
            s.lemma_filter_pred(prefixed(p), a);
            s.lemma_filter_pred(not_prefixed(p), b - front.len());
        }
    }
    filter_has_key(s, prefixed(p), k);
    filter_has_key(s, not_prefixed(p), k);
    if has_key(s, k) {
        let i = index_of(s, k);
        filters_of_present_key(s, k, i);
        if p.is_prefix_of(k) {
            assert(prefixed(p)(s[i]));
            assert(lookup(front, k) == Some(s[i].1));
            let j = index_of(front, k);
            assert(r[j] == front[j]);
            filters_of_present_key(r, k, j);
        } else {
            assert(not_prefixed(p)(s[i]));
            assert(lookup(back, k) == Some(s[i].1));
            let j = index_of(back, k);
            assert(r[front.len() + j] == back[j]);
            filters_of_present_key(r, k, front.len() + j);
        }
    } else if has_key(r, k) {
        let j = choose|j: int| 0 <= j < r.len() && (#[trigger] r[j]).0 == k;
        if j < front.len() {
            assert(r[j] == front[j]);
            assert(has_key(front, k));
        } else {
            assert(r[j] == back[j - front.len()]);
            assert(has_key(back, k));
        }
    }
}

} // verus!
