//! The bounded store: point reads, writes and removals, prefix-scoped scans
//! and removals, and eviction of the least recently used entry when a new key
//! arrives at a full store.

use vstd::prelude::*;
use crate::entry::Entry;
use crate::listing::{
    ascending, insert_sorted, keys_of, listing, lists_prefix,
};
use crate::model::{
    after_put, after_put_is_well_formed, distinct_keys, filters_of_present_key, filters_split,
    has_key, lookup, not_prefixed, prefixed, put_size, refresh_step, refreshed, removal_step,
    stamped, touched, touched_is_well_formed, walk_begins, well_formed, with_prefix, without_key,
    without_key_is_well_formed, without_prefix, Item, Items,
};
use crate::store::{
    contents, limit, lru_cap, lru_get, lru_keys, lru_len, lru_new, lru_pop, lru_put,
};
use crate::text::{precedes, starts_with};
use crate::time::{now, Timestamp};

verus! {

/// A mapping from keys to timestamped values that holds at most a fixed
/// number of entries and remembers in which order they were last used.
pub struct BoundedCache {
    inner: lru::LruCache<String, Entry>,
}

/// `item` is an entry of `s` at the position `from` or behind it, and its key
/// begins with `p`.
spec fn matches_from(item: Item, s: Items, p: Seq<char>, from: int) -> bool {
    exists|i: int| from <= i < s.len() && #[trigger] s[i] == item && p.is_prefix_of(s[i].0)
}

/// `found` lists, by ascending key, exactly the entries of `s` from the
/// position `from` on whose key begins with `p`.
spec fn lists_prefix_from(found: Items, s: Items, p: Seq<char>, from: int) -> bool {
    &&& ascending(found)
    &&& found.len() == with_prefix(s.subrange(from, s.len() as int), p).len()
    &&& forall|j: int| 0 <= j < found.len() ==> matches_from(#[trigger] found[j], s, p, from)
    &&& forall|i: int|
        from <= i < s.len() && p.is_prefix_of((#[trigger] s[i]).0) ==> has_key(found, s[i].0)
}

impl View for BoundedCache {
    type V = Items;

    /// The resident entries, most recently used first.
    closed spec fn view(&self) -> Items {
        contents(self.inner)
    }
}

impl BoundedCache {
    /// The largest number of entries the store will hold.
    pub closed spec fn capacity(&self) -> nat {
        limit(self.inner)
    }

    /// The invariant of the store: at most `capacity()` entries, under
    /// distinct keys.
    pub open spec fn wf(&self) -> bool {
        well_formed(self@, self.capacity())
    }

    /// An empty store that will hold at most `capacity` entries.
    pub fn new(capacity: usize) -> (cache: BoundedCache)
        requires
            capacity > 0,
        ensures
            cache.wf(),
            cache@ == Seq::<Item>::empty(),
            cache.capacity() == capacity,
    {
        BoundedCache { inner: lru_new(capacity) }
    }

    /// The number of resident entries.
    pub fn size(&self) -> (n: usize)
        ensures
            n == self@.len(),
    {
        lru_len(&self.inner)
    }

    /// The largest number of entries the store will hold.
    pub fn capacity_limit(&self) -> (n: usize)
        ensures
            n == self.capacity(),
    {
        lru_cap(&self.inner)
    }

    /// Writes `value` under `key` with the time of writing `time`, and makes
    /// the entry the most recently used one. A new key in a full store evicts
    /// the least recently used entry.
    pub fn put_at(&mut self, key: String, value: String, time: Timestamp)
        requires
            old(self).wf(),
        ensures
            final(self).wf(),
            final(self).capacity() == old(self).capacity(),
            final(self)@ == after_put(
                old(self)@,
                old(self).capacity(),
                key@,
                stamped(value@, time),
            ),
            final(self)@.len() == put_size(old(self)@, old(self).capacity(), key@),
    {
        let ghost s = self@;
        let ghost k = key@;
        let ghost e = stamped(value@, time);
        let replaced = lru_put(&mut self.inner, key, Entry::new(value, time));
        proof {
            if replaced is Some {
                let i = choose|i: int|
                    0 <= i < s.len() && (#[trigger] s[i]).0 == k && replaced->0@ == s[i].1
                        && self@ == seq![(k, e)] + s.remove(i);
                filters_of_present_key(s, k, i);
            } else {
                assert(!has_key(s, k));
            }
            after_put_is_well_formed(s, self.capacity(), k, e);
            without_key_is_well_formed(s, self.capacity(), k);
        }
    }

    /// Writes `value` under `key` with the current time.
    pub fn put(&mut self, key: String, value: String)
        requires
            old(self).wf(),
        ensures
            final(self).wf(),
            final(self).capacity() == old(self).capacity(),
            exists|time: Timestamp|
                final(self)@ == after_put(
                    old(self)@,
                    old(self).capacity(),
                    key@,
                    #[trigger] stamped(value@, time),
                ),
            final(self)@.len() == put_size(old(self)@, old(self).capacity(), key@),
    {
        let time = now();
        self.put_at(key, value, time);
    }

    /// Reads the entry of `key`, which becomes the most recently used one.
    /// Neither its value nor its time changes.
    pub fn get(&mut self, key: &str) -> (found: Option<Entry>)
        requires
            old(self).wf(),
        ensures
            final(self).wf(),
            final(self).capacity() == old(self).capacity(),
            final(self)@ == touched(old(self)@, key@),
            final(self)@.len() == old(self)@.len(),
            match found {
                Some(entry) => lookup(old(self)@, key@) == Some(entry@),
                None => !has_key(old(self)@, key@),
            },
    {
        let ghost s = self@;
        let found = match lru_get(&mut self.inner, key) {
            Some(entry) => Some(entry.duplicate()),
            None => None,
        };
        proof {
            if found is Some {
                let i = choose|i: int|
                    0 <= i < s.len() && (#[trigger] s[i]).0 == key@ && found->0@ == s[i].1
                        && self@ == seq![s[i]] + s.remove(i);
                filters_of_present_key(s, key@, i);
            } else {
                assert(!has_key(s, key@));
            }
            touched_is_well_formed(s, self.capacity(), key@);
        }
        found
    }

    /// Removes the entry of `key` and says whether there was one.
    pub fn delete(&mut self, key: &str) -> (removed: bool)
        requires
            old(self).wf(),
        ensures
            final(self).wf(),
            final(self).capacity() == old(self).capacity(),
            removed == has_key(old(self)@, key@),
            final(self)@ == without_key(old(self)@, key@),
            final(self)@.len() == old(self)@.len() - (if removed {
                1int
            } else {
                0int
            }),
    {
        let ghost s = self@;
        let removed = lru_pop(&mut self.inner, key);
        proof {
            if removed is Some {
                let i = choose|i: int|
                    0 <= i < s.len() && (#[trigger] s[i]).0 == key@ && removed->0@ == s[i].1
                        && self@ == s.remove(i);
                filters_of_present_key(s, key@, i);
            } else {
                assert(!has_key(s, key@));
            }
            without_key_is_well_formed(s, self.capacity(), key@);
        }
        removed.is_some()
    }

    /// Lists, by ascending key, the entries whose key begins with `prefix`;
    /// the empty prefix lists them all. Every listed entry counts as read:
    /// the listed entries become more recently used than all others, and
    /// keep their order among themselves.
    pub fn scan_entries(&mut self, prefix: &str) -> (found: Vec<(String, Entry)>)
        requires
            old(self).wf(),
        ensures
            final(self).wf(),
            final(self).capacity() == old(self).capacity(),
            final(self)@ == refreshed(old(self)@, prefix@),
            final(self)@.len() == old(self)@.len(),
            lists_prefix(keys_of(found@), old(self)@, prefix@),
            forall|j: int|
                0 <= j < found@.len() ==> lookup(old(self)@, (#[trigger] found@[j]).0@) == Some(
                    found@[j].1@,
                ),
    {
        let ghost s = self@;
        let ghost p = prefix@;
        let ghost n = s.len() as int;
        let ghost capacity = self.capacity();
        let keys = lru_keys(&self.inner);
        let mut found: Vec<(String, Entry)> = Vec::new();
        let mut q: usize = keys.len();
        proof {
            walk_begins(s, p);
            assert(self@ =~= Seq::<Item>::empty() + s + Seq::<Item>::empty());
        }
        while q > 0
            invariant
                self.wf(),
                self.capacity() == capacity,
                p == prefix@,
                n == s.len(),
                n == keys@.len(),
                0 <= q <= n,
                distinct_keys(s),
                forall|i: int| 0 <= i < n ==> (#[trigger] keys@[i])@ == s[i].0,
                self@ == with_prefix(s.subrange(q as int, n), p) + s.subrange(0, q as int)
                    + without_prefix(s.subrange(q as int, n), p),
                lists_prefix_from(listing(found@), s, p, q as int),
            decreases q,
        {
            q = q - 1;
            let key = &keys[q];
            let ghost listed = listing(found@);
            proof {
                refresh_step(s, p, q as int);
            }
            if starts_with(key.as_str(), prefix) {
                let ghost at = with_prefix(s.subrange(q + 1, n), p).len() + q;
                proof {
                    filters_of_present_key(self@, key@, at);
                }
                match self.get(key.as_str()) {
                    Some(entry) => {
                        proof {
                            assert(entry@ == s[q as int].1);
                            if has_key(listed, key@) {
                                let j = choose|j: int|
                                    0 <= j < listed.len() && (#[trigger] listed[j]).0 == key@;
                                assert(matches_from(listed[j], s, p, q + 1));
                                let i = choose|i: int|
                                    q + 1 <= i < s.len() && #[trigger] s[i] == listed[j]
                                        && p.is_prefix_of(s[i].0);
                                assert(s[q as int].0 != s[i].0);
                            }
                        }
                        insert_sorted(&mut found, key.clone(), entry);
                        proof {
                            let grown = listing(found@);
                            let x = s[q as int];
                            let pos = choose|pos: int|
                                0 <= pos <= listed.len() && grown == #[trigger] listed.insert(
                                    pos,
                                    x,
                                );
                            assert forall|j: int| 0 <= j < grown.len() implies matches_from(
                                #[trigger] grown[j],
                                s,
                                p,
                                q as int,
                            ) by {
                                if j == pos {
                                    assert(s[q as int] == grown[j]);
                                } else {
                                    let j0 = if j < pos { j } else { j - 1 };
                                    assert(grown[j] == listed[j0]);
                                    assert(matches_from(listed[j0], s, p, q + 1));
                                    let i = choose|i: int|
                                        q + 1 <= i < s.len() && #[trigger] s[i] == listed[j0]
                                            && p.is_prefix_of(s[i].0);
                                    assert(s[i] == grown[j]);
                                }
                            }
                            assert forall|i: int|
                                q <= i < s.len() && p.is_prefix_of(
                                    (#[trigger] s[i]).0,
                                ) implies has_key(grown, s[i].0) by {
                                if i == q {
                                    assert(grown[pos].0 == s[i].0);
                                } else {
                                    let j0 = choose|j: int|
                                        0 <= j < listed.len() && (#[trigger] listed[j]).0
                                            == s[i].0;
                                    let j = if j0 < pos { j0 } else { j0 + 1 };
                                    assert(grown[j] == listed[j0]);
                                }
                            }
                        }
                    },
                    None => {
                        assert(false);
                    },
                }
            } else {
                assert forall|j: int| 0 <= j < listed.len() implies matches_from(
                    #[trigger] listed[j],
                    s,
                    p,
                    q as int,
                ) by {
                    assert(matches_from(listed[j], s, p, q + 1));
                    let i = choose|i: int|
                        q + 1 <= i < s.len() && #[trigger] s[i] == listed[j] && p.is_prefix_of(
                            s[i].0,
                        );
                    assert(s[i] == listed[j]);
                }
            }
        }
        proof {
            walk_begins(s, p);
            filters_split(s, prefixed(p), not_prefixed(p));
            let listed = listing(found@);
            let keys = keys_of(found@);
            assert forall|j: int| 0 <= j < found@.len() implies p.is_prefix_of(
                #[trigger] keys[j],
            ) && has_key(s, keys[j]) && lookup(s, keys[j]) == Some(listed[j].1) by {
                assert(matches_from(listed[j], s, p, 0));
                let i = choose|i: int|
                    0 <= i < s.len() && #[trigger] s[i] == listed[j] && p.is_prefix_of(s[i].0);
                filters_of_present_key(s, listed[j].0, i);
            }
            assert forall|j: int| 0 <= j < found@.len() implies lookup(
                s,
                (#[trigger] found@[j]).0@,
            ) == Some(found@[j].1@) by {
                assert(lookup(s, keys[j]) == Some(listed[j].1));
            }
            assert forall|i: int, j: int| 0 <= i < j < keys.len() implies precedes(
                #[trigger] keys[i],
                #[trigger] keys[j],
            ) by {
                assert(precedes(listed[i].0, listed[j].0));
            }
            assert forall|i: int|
                0 <= i < s.len() && p.is_prefix_of((#[trigger] s[i]).0) implies keys.contains(
                s[i].0,
            ) by {
                let j = choose|j: int| 0 <= j < listed.len() && (#[trigger] listed[j]).0 == s[i].0;
                assert(keys[j] == s[i].0);
            }
        }
        found
    }

    /// Lists, by ascending key, the keys that begin with `prefix`, each with
    /// its value. The entries are read as by [`Self::scan_entries`].
    pub fn scan_by_prefix(&mut self, prefix: &str) -> (found: Vec<(String, String)>)
        requires
            old(self).wf(),
        ensures
            final(self).wf(),
            final(self).capacity() == old(self).capacity(),
            final(self)@ == refreshed(old(self)@, prefix@),
            final(self)@.len() == old(self)@.len(),
            lists_prefix(keys_of(found@), old(self)@, prefix@),
            forall|j: int|
                0 <= j < found@.len() ==> lookup(old(self)@, (#[trigger] found@[j]).0@) is Some
                    && lookup(old(self)@, found@[j].0@)->0.value == found@[j].1@,
    {
        let ghost s = self@;
        let entries = self.scan_entries(prefix);
        let ghost all = entries@;
        let mut found: Vec<(String, String)> = Vec::new();
        for pair in it: entries.into_iter()
            invariant
                it.seq() == all,
                found@.len() == it.index(),
                forall|j: int|
                    0 <= j < found@.len() ==> (#[trigger] found@[j]).0@ == all[j].0@
                        && found@[j].1@ == all[j].1.value@,
        {
            let (key, entry) = pair;
            found.push((key, entry.value));
        }
        proof {
            assert(keys_of(found@) =~= keys_of(all));
            assert forall|j: int| 0 <= j < found@.len() implies lookup(
                s,
                (#[trigger] found@[j]).0@,
            ) is Some && lookup(s, found@[j].0@)->0.value == found@[j].1@ by {
                assert(lookup(s, all[j].0@) == Some(all[j].1@));
            }
        }
        found
    }

    /// Removes every entry whose key begins with `prefix` and returns how
    /// many there were. The matching keys are collected first and removed
    /// afterwards; the other entries keep their order.
    pub fn delete_by_prefix(&mut self, prefix: &str) -> (count: usize)
        requires
            old(self).wf(),
        ensures
            final(self).wf(),
            final(self).capacity() == old(self).capacity(),
            final(self)@ == without_prefix(old(self)@, prefix@),
            count == with_prefix(old(self)@, prefix@).len(),
            final(self)@.len() + count == old(self)@.len(),
    {
        let ghost s = self@;
        let ghost p = prefix@;
        let ghost n = s.len() as int;
        let ghost capacity = self.capacity();
        let keys = lru_keys(&self.inner);
        let mut count: usize = 0;
        let mut q: usize = keys.len();
        proof {
            walk_begins(s, p);
            assert(self@ =~= s + Seq::<Item>::empty());
        }
        while q > 0
            invariant
                self.wf(),
                self.capacity() == capacity,
                p == prefix@,
                n == s.len(),
                n == keys@.len(),
                0 <= q <= n,
                forall|i: int| 0 <= i < n ==> (#[trigger] keys@[i])@ == s[i].0,
                self@ == s.subrange(0, q as int) + without_prefix(s.subrange(q as int, n), p),
                count == with_prefix(s.subrange(q as int, n), p).len(),
                count <= n - q,
                n <= usize::MAX,
            decreases q,
        {
            q = q - 1;
            let key = &keys[q];
            proof {
                removal_step(s, p, q as int);
            }
            if starts_with(key.as_str(), prefix) {
                proof {
                    filters_of_present_key(self@, key@, q as int);
                }
                self.delete(key.as_str());
                count = count + 1;
            }
        }
        proof {
            walk_begins(s, p);
            filters_split(s, prefixed(p), not_prefixed(p));
            assert(Seq::<Item>::empty() + without_prefix(s, p) =~= without_prefix(s, p));
        }
        count
    }
}

} // verus!
