//! The mathematical model of the store: a sequence of entries, each a key
//! with its content, ordered from the most recently used entry to the least
//! recently used one. Every contract of `crate::cache` is stated over the
//! functions of this file.

use vstd::prelude::*;
use crate::entry::EntryView;
use crate::time::Timestamp;

verus! {

/// One resident entry: its key and its content.
pub type Item = (Seq<char>, EntryView);

/// All resident entries, most recently used first.
pub type Items = Seq<Item>;

/// The content of an entry written with `value` at `time`.
pub open spec fn stamped(value: Seq<char>, time: Timestamp) -> EntryView {
    EntryView { value, time }
}

/// Some entry of `s` has the key `k`.
pub open spec fn has_key(s: Items, k: Seq<char>) -> bool {
    exists|i: int| 0 <= i < s.len() && (#[trigger] s[i]).0 == k
}

/// No two entries of `s` share a key.
pub open spec fn distinct_keys(s: Items) -> bool {
    forall|i: int, j: int| 0 <= i < j < s.len() ==> (#[trigger] s[i]).0 != (#[trigger] s[j]).0
}

/// A position at which `s` holds the key `k`; the only one where the keys of
/// `s` are distinct.
pub open spec fn index_of(s: Items, k: Seq<char>) -> int {
    choose|i: int| 0 <= i < s.len() && (#[trigger] s[i]).0 == k
}

/// What `s` holds for the key `k`, if anything.
pub open spec fn lookup(s: Items, k: Seq<char>) -> Option<EntryView> {
    if has_key(s, k) {
        Some(s[index_of(s, k)].1)
    } else {
        None
    }
}

/// What a store of at most `capacity` entries may hold: at most that many
/// entries, under distinct keys.
pub open spec fn well_formed(s: Items, capacity: nat) -> bool {
    &&& capacity >= 1
    &&& s.len() <= capacity
    &&& distinct_keys(s)
}

/// The test "this entry has the key `k`".
pub open spec fn keyed(k: Seq<char>) -> spec_fn(Item) -> bool {
    |it: Item| it.0 == k
}

/// The test "this entry has another key than `k`".
pub open spec fn not_keyed(k: Seq<char>) -> spec_fn(Item) -> bool {
    |it: Item| it.0 != k
}

/// The test "the key of this entry begins with `p`".
pub open spec fn prefixed(p: Seq<char>) -> spec_fn(Item) -> bool {
    |it: Item| p.is_prefix_of(it.0)
}

/// The test "the key of this entry does not begin with `p`".
pub open spec fn not_prefixed(p: Seq<char>) -> spec_fn(Item) -> bool {
    |it: Item| !p.is_prefix_of(it.0)
}

/// `s` without the entry of key `k`, the others in their order.
pub open spec fn without_key(s: Items, k: Seq<char>) -> Items {
    s.filter(not_keyed(k))
}

/// `s` after a read of the key `k`: its entry, if there is one, has moved to
/// the front, and the others keep their order.
pub open spec fn touched(s: Items, k: Seq<char>) -> Items {
    s.filter(keyed(k)) + s.filter(not_keyed(k))
}

/// `s` after `e` was written under the key `k` in a store of at most
/// `capacity` entries. The written entry is the most recently used one. An
/// existing entry of that key is replaced; otherwise, where the store is
/// full, the least recently used entry makes room.
pub open spec fn after_put(s: Items, capacity: nat, k: Seq<char>, e: EntryView) -> Items {
    seq![(k, e)] + (if has_key(s, k) {
        without_key(s, k)
    } else if s.len() == capacity {
        s.drop_last()
    } else {
        s
    })
}

/// The size of the store after a write under the key `k`: unchanged where
/// the key is resident or the store is full, one more otherwise.
pub open spec fn put_size(s: Items, capacity: nat, k: Seq<char>) -> nat {
    if has_key(s, k) || s.len() == capacity {
        s.len()
    } else {
        s.len() + 1
    }
}

/// The entries of `s` whose key begins with `p`, in their order.
pub open spec fn with_prefix(s: Items, p: Seq<char>) -> Items {
    s.filter(prefixed(p))
}

/// The entries of `s` whose key does not begin with `p`, in their order.
pub open spec fn without_prefix(s: Items, p: Seq<char>) -> Items {
    s.filter(not_prefixed(p))
}

/// `s` after a scan of the prefix `p`: every entry whose key begins with `p`
/// has moved in front of every other entry, and both groups keep their order.
pub open spec fn refreshed(s: Items, p: Seq<char>) -> Items {
    with_prefix(s, p) + without_prefix(s, p)
}

/// `s` with the entry at `i` moved to the front.
pub open spec fn moved_to_front(s: Items, i: int) -> Items {
    seq![s[i]] + s.remove(i)
}

/// A filter looks at the first entry and then at the rest.
pub proof fn filter_unfolds_at_front(s: Items, pred: spec_fn(Item) -> bool)
    requires
        s.len() > 0,
    ensures
        s.filter(pred) == (if pred(s[0]) {
            seq![s[0]]
        } else {
            Seq::<Item>::empty()
        }) + s.drop_first().filter(pred),
{
    let head = seq![s[0]];
    assert(s =~= head + s.drop_first());
    Seq::filter_distributes_over_add(head, s.drop_first(), pred);
    assert(head.filter(pred) == if pred(s[0]) {
        head
    } else {
        Seq::<Item>::empty()
    }) by {
        reveal_with_fuel(Seq::filter, 2);
        assert(head.drop_last() =~= Seq::<Item>::empty());
        assert(Seq::<Item>::empty().push(s[0]) =~= head);
    }
}

/// Where no entry has the key `k`, the filters by that key leave everything
/// or nothing.
pub proof fn filters_of_absent_key(s: Items, k: Seq<char>)
    requires
        !has_key(s, k),
    ensures
        s.filter(keyed(k)) == Seq::<Item>::empty(),
        s.filter(not_keyed(k)) == s,
    decreases s.len(),
{
    if s.len() == 0 {
        reveal_with_fuel(Seq::filter, 1);
    } else {
        let rest = s.drop_first();
        assert(!has_key(rest, k)) by {
            if has_key(rest, k) {
                let j = choose|j: int| 0 <= j < rest.len() && (#[trigger] rest[j]).0 == k;
                assert(s[j + 1].0 == k);
            }
        }
        filters_of_absent_key(rest, k);
        filter_unfolds_at_front(s, keyed(k));
        filter_unfolds_at_front(s, not_keyed(k));
        assert(s[0].0 != k);
        assert(s =~= seq![s[0]] + rest);
    }
}

/// Where the keys are distinct and the entry at `i` has the key `k`, the
/// filters by that key single out that entry.
pub proof fn filters_of_present_key(s: Items, k: Seq<char>, i: int)
    requires
        distinct_keys(s),
        0 <= i < s.len(),
        s[i].0 == k,
    ensures
        has_key(s, k),
        index_of(s, k) == i,
        lookup(s, k) == Some(s[i].1),
        s.filter(keyed(k)) == seq![s[i]],
        s.filter(not_keyed(k)) == s.remove(i),
        touched(s, k) == moved_to_front(s, i),
    decreases s.len(),
{
    let rest = s.drop_first();
    filter_unfolds_at_front(s, keyed(k));
    filter_unfolds_at_front(s, not_keyed(k));
    assert(distinct_keys(rest)) by {
        assert forall|a: int, b: int| 0 <= a < b < rest.len() implies (#[trigger] rest[a]).0 != (
        #[trigger] rest[b]).0 by {
            assert(s[a + 1].0 != s[b + 1].0);
        }
    }
    if i == 0 {
        assert(!has_key(rest, k)) by {
            if has_key(rest, k) {
                let j = choose|j: int| 0 <= j < rest.len() && (#[trigger] rest[j]).0 == k;
                assert(s[0].0 != s[j + 1].0);
            }
        }
        filters_of_absent_key(rest, k);
        assert(s.remove(0) =~= rest);
        assert(seq![s[0]] + Seq::<Item>::empty() =~= seq![s[0]]);
        assert(Seq::<Item>::empty() + rest =~= rest);
    } else {
        assert(s[0].0 != s[i].0);
        assert(rest[i - 1] == s[i]);
        filters_of_present_key(rest, k, i - 1);
        assert(Seq::<Item>::empty() + seq![s[i]] =~= seq![s[i]]);
        assert(seq![s[0]] + rest.remove(i - 1) =~= s.remove(i));
    }
    let j = index_of(s, k);
    assert(0 <= j < s.len() && s[j].0 == k);
    if j < i {
        assert(s[j].0 != s[i].0);
    } else if i < j {
        assert(s[i].0 != s[j].0);
    }
}

/// An entry under a new key may be placed in front of distinct keys.
pub proof fn distinct_with_new_front(x: Item, s: Items)
    requires
        distinct_keys(s),
        !has_key(s, x.0),
    ensures
        distinct_keys(seq![x] + s),
{
    let t = seq![x] + s;
    assert forall|a: int, b: int| 0 <= a < b < t.len() implies (#[trigger] t[a]).0 != (
    #[trigger] t[b]).0 by {
        assert(t[b] == s[b - 1]);
        if a == 0 {
            assert(s[b - 1].0 != x.0);
        } else {
            assert(t[a] == s[a - 1]);
        }
    }
}

/// Taking one entry out of distinct keys leaves distinct keys, none of them
/// the key that was taken out.
pub proof fn distinct_after_remove(s: Items, i: int)
    requires
        distinct_keys(s),
        0 <= i < s.len(),
    ensures
        distinct_keys(s.remove(i)),
        !has_key(s.remove(i), s[i].0),
{
    let t = s.remove(i);
    assert forall|a: int| 0 <= a < t.len() implies (#[trigger] t[a]).0 != s[i].0 by {
        if a < i {
            assert(t[a] == s[a]);
            assert(s[a].0 != s[i].0);
        } else {
            assert(t[a] == s[a + 1]);
            assert(s[i].0 != s[a + 1].0);
        }
    }
    assert forall|a: int, b: int| 0 <= a < b < t.len() implies (#[trigger] t[a]).0 != (
    #[trigger] t[b]).0 by {
        let a0 = if a < i { a } else { a + 1 };
        let b0 = if b < i { b } else { b + 1 };
        assert(t[a] == s[a0] && t[b] == s[b0]);
        assert(s[a0].0 != s[b0].0);
    }
}

/// Dropping the last entry of distinct keys leaves distinct keys, and brings
/// in no key.
pub proof fn distinct_after_drop_last(s: Items, k: Seq<char>)
    requires
        distinct_keys(s),
        s.len() > 0,
    ensures
        distinct_keys(s.drop_last()),
        !has_key(s, k) ==> !has_key(s.drop_last(), k),
{
    let t = s.drop_last();
    assert forall|a: int, b: int| 0 <= a < b < t.len() implies (#[trigger] t[a]).0 != (
    #[trigger] t[b]).0 by {
        assert(t[a] == s[a] && t[b] == s[b]);
    }
    if has_key(t, k) {
        let j = choose|j: int| 0 <= j < t.len() && (#[trigger] t[j]).0 == k;
        assert(s[j].0 == k);
    }
}

/// A read keeps the store well formed and its size.
pub proof fn touched_is_well_formed(s: Items, capacity: nat, k: Seq<char>)
    requires
        well_formed(s, capacity),
    ensures
        well_formed(touched(s, k), capacity),
        touched(s, k).len() == s.len(),
        !has_key(s, k) ==> touched(s, k) == s,
{
    if has_key(s, k) {
        let i = index_of(s, k);
        filters_of_present_key(s, k, i);
        distinct_after_remove(s, i);
        distinct_with_new_front(s[i], s.remove(i));
    } else {
        filters_of_absent_key(s, k);
        assert(Seq::<Item>::empty() + s =~= s);
    }
}

/// A removal keeps the store well formed; it takes out one entry where the
/// key is resident and none where it is not.
pub proof fn without_key_is_well_formed(s: Items, capacity: nat, k: Seq<char>)
    requires
        well_formed(s, capacity),
    ensures
        well_formed(without_key(s, k), capacity),
        !has_key(without_key(s, k), k),
        has_key(s, k) ==> without_key(s, k).len() == s.len() - 1,
        !has_key(s, k) ==> without_key(s, k) == s,
{
    if has_key(s, k) {
        let i = index_of(s, k);
        filters_of_present_key(s, k, i);
        distinct_after_remove(s, i);
    } else {
        filters_of_absent_key(s, k);
    }
}

/// A write keeps the store well formed, whatever was written.
pub proof fn after_put_is_well_formed(s: Items, capacity: nat, k: Seq<char>, e: EntryView)
    requires
        well_formed(s, capacity),
    ensures
        well_formed(after_put(s, capacity, k, e), capacity),
{
    if has_key(s, k) {
        without_key_is_well_formed(s, capacity, k);
        distinct_with_new_front((k, e), without_key(s, k));
    } else if s.len() == capacity {
        distinct_after_drop_last(s, k);
        distinct_with_new_front((k, e), s.drop_last());
    } else {
        distinct_with_new_front((k, e), s);
    }
}

/// A filter holds a key exactly where the sequence holds it in an entry that
/// passes the test.
pub proof fn filter_has_key(s: Items, pred: spec_fn(Item) -> bool, k: Seq<char>)
    ensures
        has_key(s.filter(pred), k) <==> exists|i: int|
            0 <= i < s.len() && (#[trigger] s[i]).0 == k && pred(s[i]),
{
    let f = s.filter(pred);
    if has_key(f, k) {
        let j = choose|j: int| 0 <= j < f.len() && (#[trigger] f[j]).0 == k;
        s.lemma_filter_pred(pred, j);
        assert(f.contains(f[j]));
        s.lemma_filter_contains_rev(pred, f[j]);
        let i = choose|i: int| 0 <= i < s.len() && s[i] == f[j];
        assert(s[i].0 == k && pred(s[i]));
    }
    if exists|i: int| 0 <= i < s.len() && (#[trigger] s[i]).0 == k && pred(s[i]) {
        let i = choose|i: int| 0 <= i < s.len() && (#[trigger] s[i]).0 == k && pred(s[i]);
        s.lemma_filter_contains(pred, i);
        let j = choose|j: int| 0 <= j < f.len() && f[j] == s[i];
        assert(f[j].0 == k);
    }
}

/// A filter of distinct keys has distinct keys, and holds for each key that
/// it keeps what the sequence held.
pub proof fn filter_of_distinct(s: Items, pred: spec_fn(Item) -> bool)
    requires
        distinct_keys(s),
    ensures
        distinct_keys(s.filter(pred)),
        forall|i: int|
            0 <= i < s.len() && pred(#[trigger] s[i]) ==> lookup(s.filter(pred), s[i].0) == Some(
                s[i].1,
            ),
    decreases s.len(),
{
    let f = s.filter(pred);
    if s.len() == 0 {
        s.lemma_filter_len(pred);
    } else {
        let rest = s.drop_first();
        assert(distinct_keys(rest)) by {
            assert forall|a: int, b: int| 0 <= a < b < rest.len() implies (#[trigger] rest[a]).0
                != (#[trigger] rest[b]).0 by {
                assert(s[a + 1].0 != s[b + 1].0);
            }
        }
        filter_of_distinct(rest, pred);
        filter_unfolds_at_front(s, pred);
        if pred(s[0]) {
            filter_has_key(rest, pred, s[0].0);
            if has_key(rest.filter(pred), s[0].0) {
                let i = choose|i: int|
                    0 <= i < rest.len() && (#[trigger] rest[i]).0 == s[0].0 && pred(rest[i]);
                assert(s[0].0 != s[i + 1].0);
            }
            distinct_with_new_front(s[0], rest.filter(pred));
        } else {
            assert(Seq::<Item>::empty() + rest.filter(pred) =~= rest.filter(pred));
        }
    }
    assert forall|i: int| 0 <= i < s.len() && pred(#[trigger] s[i]) implies lookup(f, s[i].0)
        == Some(s[i].1) by {
        s.lemma_filter_contains(pred, i);
        let j = choose|j: int| 0 <= j < f.len() && f[j] == s[i];
        filters_of_present_key(f, s[i].0, j);
    }
}

/// The entries that pass a test and those that fail it are all the entries.
pub proof fn filters_split(s: Items, pass: spec_fn(Item) -> bool, fail: spec_fn(Item) -> bool)
    requires
        forall|it: Item| #[trigger] fail(it) == !pass(it),
    ensures
        s.filter(pass).len() + s.filter(fail).len() == s.len(),
    decreases s.len(),
{
    if s.len() == 0 {
        s.lemma_filter_len(pass);
        s.lemma_filter_len(fail);
    } else {
        filters_split(s.drop_first(), pass, fail);
        filter_unfolds_at_front(s, pass);
        filter_unfolds_at_front(s, fail);
    }
}

/// One step of a scan that walks `s` from its least recently used end: with
/// the entries behind `q` done, the entry at `q` either moves to the front or
/// stays where it is.
pub proof fn refresh_step(s: Items, p: Seq<char>, q: int)
    requires
        0 <= q < s.len(),
    ensures
        ({
            let n = s.len() as int;
            let done = with_prefix(s.subrange(q + 1, n), p) + s.subrange(0, q + 1)
                + without_prefix(s.subrange(q + 1, n), p);
            let next = with_prefix(s.subrange(q, n), p) + s.subrange(0, q) + without_prefix(
                s.subrange(q, n),
                p,
            );
            let at = with_prefix(s.subrange(q + 1, n), p).len() + q;
            &&& 0 <= at < done.len()
            &&& done[at] == s[q]
            &&& if p.is_prefix_of(s[q].0) {
                &&& moved_to_front(done, at) == next
                &&& with_prefix(s.subrange(q, n), p) == seq![s[q]] + with_prefix(
                    s.subrange(q + 1, n),
                    p,
                )
            } else {
                &&& done == next
                &&& with_prefix(s.subrange(q, n), p) == with_prefix(s.subrange(q + 1, n), p)
            }
        }),
{
    let n = s.len() as int;
    let tail = s.subrange(q, n);
    assert(tail.drop_first() =~= s.subrange(q + 1, n));
    assert(tail[0] == s[q]);
    filter_unfolds_at_front(tail, prefixed(p));
    filter_unfolds_at_front(tail, not_prefixed(p));
    let w = with_prefix(s.subrange(q + 1, n), p);
    let u = without_prefix(s.subrange(q + 1, n), p);
    let done = w + s.subrange(0, q + 1) + u;
    let at = w.len() + q;
    assert(done[at] == s.subrange(0, q + 1)[q]);
    if p.is_prefix_of(s[q].0) {
        assert(Seq::<Item>::empty() + u =~= u);
        assert(moved_to_front(done, at) =~= (seq![s[q]] + w) + s.subrange(0, q) + u);
    } else {
        assert(Seq::<Item>::empty() + w =~= w);
        assert(done =~= w + s.subrange(0, q) + (seq![s[q]] + u));
    }
}

/// One step of a bulk removal that walks `s` from its least recently used
/// end: with the entries behind `q` done, the entry at `q` either leaves or
/// stays.
pub proof fn removal_step(s: Items, p: Seq<char>, q: int)
    requires
        0 <= q < s.len(),
    ensures
        ({
            let n = s.len() as int;
            let done = s.subrange(0, q + 1) + without_prefix(s.subrange(q + 1, n), p);
            let next = s.subrange(0, q) + without_prefix(s.subrange(q, n), p);
            &&& q < done.len()
            &&& done[q] == s[q]
            &&& if p.is_prefix_of(s[q].0) {
                &&& done.remove(q) == next
                &&& with_prefix(s.subrange(q, n), p).len() == with_prefix(
                    s.subrange(q + 1, n),
                    p,
                ).len() + 1
            } else {
                &&& done == next
                &&& with_prefix(s.subrange(q, n), p) == with_prefix(s.subrange(q + 1, n), p)
            }
        }),
{
    let n = s.len() as int;
    let tail = s.subrange(q, n);
    assert(tail.drop_first() =~= s.subrange(q + 1, n));
    assert(tail[0] == s[q]);
    filter_unfolds_at_front(tail, prefixed(p));
    filter_unfolds_at_front(tail, not_prefixed(p));
    let u = without_prefix(s.subrange(q + 1, n), p);
    let done = s.subrange(0, q + 1) + u;
    assert(done[q] == s.subrange(0, q + 1)[q]);
    if p.is_prefix_of(s[q].0) {
        assert(Seq::<Item>::empty() + u =~= u);
        assert(done.remove(q) =~= s.subrange(0, q) + u);
    } else {
        assert(Seq::<Item>::empty() + with_prefix(s.subrange(q + 1, n), p) =~= with_prefix(
            s.subrange(q + 1, n),
            p,
        ));
        assert(done =~= s.subrange(0, q) + (seq![s[q]] + u));
    }
}

/// Before a walk from the least recently used end has begun, nothing is done.
pub proof fn walk_begins(s: Items, p: Seq<char>)
    ensures
        with_prefix(s.subrange(s.len() as int, s.len() as int), p) == Seq::<Item>::empty(),
        without_prefix(s.subrange(s.len() as int, s.len() as int), p) == Seq::<Item>::empty(),
        s.subrange(0, s.len() as int) == s,
        s.subrange(0, 0) == Seq::<Item>::empty(),
{
    let none = s.subrange(s.len() as int, s.len() as int);
    assert(none.filter(prefixed(p)) =~= Seq::<Item>::empty()) by {
        none.lemma_filter_len(prefixed(p));
    }
    assert(none.filter(not_prefixed(p)) =~= Seq::<Item>::empty()) by {
        none.lemma_filter_len(not_prefixed(p));
    }
    assert(s.subrange(0, s.len() as int) =~= s);
    assert(s.subrange(0, 0) =~= Seq::<Item>::empty());
}

} // verus!
