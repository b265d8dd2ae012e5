//! The recency-ordered container of the store: `lru::LruCache`, as the
//! verified code is allowed to see it.
//!
//! Nothing in this file is proved. Each function makes one call into the
//! `lru` crate, and its contract restates what that crate's source does to
//! the entries. The invariants of the store (distinct keys, a size within the
//! limit) are not assumed here: `crate::cache` proves them from these
//! contracts.

use vstd::prelude::*;
use crate::entry::{Entry, EntryView};

verus! {

/// `lru::LruCache`, opaque to the verifier: what a value of it holds is
/// spoken of through [`contents`] and [`limit`] only.
#[verifier::external_type_specification]
#[verifier::external_body]
#[verifier::reject_recursive_types(K)]
#[verifier::reject_recursive_types(V)]
#[verifier::reject_recursive_types(S)]
pub struct ExLruCache<K, V, S>(lru::LruCache<K, V, S>);

/// `lru::DefaultHasher`, the hasher of an `LruCache` that names none. It is
/// only carried along as a type argument; nothing is said of it.
#[verifier::external_type_specification]
#[verifier::external_body]
pub struct ExDefaultHasher(lru::DefaultHasher);

/// The entries of an `LruCache`, each key with its value, from the most
/// recently used to the least recently used: the order in which
/// `LruCache::iter` visits them.
pub uninterp spec fn contents(cache: lru::LruCache<String, Entry>) -> Seq<(Seq<char>, EntryView)>;

/// The number of entries that an `LruCache` was made to hold at most: what
/// `LruCache::cap` reports.
pub uninterp spec fn limit(cache: lru::LruCache<String, Entry>) -> nat;

/// `LruCache::sparse`: an empty cache that holds at most `cap` entries. Unlike
/// `LruCache::new` it reserves no storage for them up front, so it accepts
/// every positive `cap`.
#[verifier::external_body]
pub(crate) fn lru_new(cap: usize) -> (cache: lru::LruCache<String, Entry>)
    requires
        cap > 0,
    ensures
        contents(cache) == Seq::<(Seq<char>, EntryView)>::empty(),
        limit(cache) == cap,
{
    lru::LruCache::sparse(std::num::NonZeroUsize::new(cap).unwrap())
}

/// `LruCache::len`: the number of entries.
#[verifier::external_body]
pub(crate) fn lru_len(cache: &lru::LruCache<String, Entry>) -> (n: usize)
    ensures
        n == contents(*cache).len(),
{
    cache.len()
}

/// `LruCache::cap`: the limit that the cache was made with.
#[verifier::external_body]
pub(crate) fn lru_cap(cache: &lru::LruCache<String, Entry>) -> (n: usize)
    ensures
        n == limit(*cache),
{
    cache.cap().get()
}

/// `LruCache::put`. Where an entry with this key exists, its value is
/// replaced, the entry moves to the front and the old value is returned.
/// Otherwise the new entry is placed at the front, after the last entry was
/// dropped if the cache was full, and `None` is returned.
#[verifier::external_body]
pub(crate) fn lru_put(cache: &mut lru::LruCache<String, Entry>, key: String, entry: Entry) -> (replaced:
    Option<Entry>)
    ensures
        limit(*final(cache)) == limit(*old(cache)),
        ({
            let before = contents(*old(cache));
            let after = contents(*final(cache));
            match replaced {
                Some(previous) => exists|i: int|
                    0 <= i < before.len() && (#[trigger] before[i]).0 == key@ && previous@
                        == before[i].1 && after == seq![(key@, entry@)] + before.remove(i),
                None => {
                    &&& forall|i: int| 0 <= i < before.len() ==> (#[trigger] before[i]).0 != key@
                    &&& after == seq![(key@, entry@)] + (if before.len() == limit(*old(cache)) {
                        before.drop_last()
                    } else {
                        before
                    })
                },
            }
        }),
{
    cache.put(key, entry)
}

/// `LruCache::get`. Where an entry with this key exists, it moves to the
/// front and its value is returned; otherwise nothing changes.
#[verifier::external_body]
pub(crate) fn lru_get<'a>(cache: &'a mut lru::LruCache<String, Entry>, key: &str) -> (found: Option<
    &'a Entry,
>)
    ensures
        limit(*final(cache)) == limit(*old(cache)),
        ({
            let before = contents(*old(cache));
            let after = contents(*final(cache));
            match found {
                Some(entry) => exists|i: int|
                    0 <= i < before.len() && (#[trigger] before[i]).0 == key@ && entry@
                        == before[i].1 && after == seq![before[i]] + before.remove(i),
                None => {
                    &&& forall|i: int| 0 <= i < before.len() ==> (#[trigger] before[i]).0 != key@
                    &&& after == before
                },
            }
        }),
{
    cache.get(key)
}

/// `LruCache::pop`. Where an entry with this key exists, it is taken out and
/// its value is returned; otherwise nothing changes.
#[verifier::external_body]
pub(crate) fn lru_pop(cache: &mut lru::LruCache<String, Entry>, key: &str) -> (removed: Option<Entry>)
    ensures
        limit(*final(cache)) == limit(*old(cache)),
        ({
            let before = contents(*old(cache));
            let after = contents(*final(cache));
            match removed {
                Some(entry) => exists|i: int|
                    0 <= i < before.len() && (#[trigger] before[i]).0 == key@ && entry@
                        == before[i].1 && after == before.remove(i),
                None => {
                    &&& forall|i: int| 0 <= i < before.len() ==> (#[trigger] before[i]).0 != key@
                    &&& after == before
                },
            }
        }),
{
    cache.pop(key)
}

/// `LruCache::iter`, with every key copied out: the keys of all entries, from
/// the most recently used to the least recently used.
#[verifier::external_body]
pub(crate) fn lru_keys(cache: &lru::LruCache<String, Entry>) -> (keys: Vec<String>)
    ensures
        keys@.len() == contents(*cache).len(),
        forall|i: int| 0 <= i < keys@.len() ==> (#[trigger] keys@[i])@ == contents(*cache)[i].0,
{
    cache.iter().map(|(key, _)| key.clone()).collect()
}

} // verus!
