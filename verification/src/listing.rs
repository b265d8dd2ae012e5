//! The result of a scan: entries listed by ascending key.

use vstd::prelude::*;
use crate::entry::Entry;
use crate::model::{has_key, with_prefix, Items};
use crate::text::{comes_before, precedes, precedes_total, precedes_transitive};

verus! {

/// The mathematical content of a list of keyed entries.
pub open spec fn listing(list: Seq<(String, Entry)>) -> Items {
    list.map_values(|pair: (String, Entry)| pair@)
}

/// The keys of `s` ascend strictly, in the order of [`precedes`].
pub open spec fn ascending(s: Items) -> bool {
    forall|i: int, j: int|
        0 <= i < j < s.len() ==> precedes((#[trigger] s[i]).0, (#[trigger] s[j]).0)
}

/// The keys of a list of keyed rows, in the order of the list.
pub open spec fn keys_of<T>(list: Seq<(String, T)>) -> Seq<Seq<char>> {
    list.map_values(|pair: (String, T)| pair.0@)
}

/// `keys` are, in strictly ascending order, exactly the keys of `s` that
/// begin with `p`.
pub open spec fn lists_prefix(keys: Seq<Seq<char>>, s: Items, p: Seq<char>) -> bool {
    &&& forall|i: int, j: int|
        0 <= i < j < keys.len() ==> precedes(#[trigger] keys[i], #[trigger] keys[j])
    &&& keys.len() == with_prefix(s, p).len()
    &&& forall|j: int|
        0 <= j < keys.len() ==> p.is_prefix_of(#[trigger] keys[j]) && has_key(s, keys[j])
    &&& forall|i: int|
        0 <= i < s.len() && p.is_prefix_of((#[trigger] s[i]).0) ==> keys.contains(s[i].0)
}

/// Puts the entry of a key that the list does not hold yet at its place among
/// the ascending keys.
pub(crate) fn insert_sorted(list: &mut Vec<(String, Entry)>, key: String, entry: Entry)
    requires
        ascending(listing(old(list)@)),
        !has_key(listing(old(list)@), key@),
    ensures
        ascending(listing(final(list)@)),
        exists|at: int|
            0 <= at <= old(list)@.len() && listing(final(list)@) == #[trigger] listing(
                old(list)@,
            ).insert(at, (key@, entry@)),
{
    let ghost before = listing(list@);
    let ghost k = key@;
    let ghost e = entry@;
    let mut lo: usize = 0;
    let mut hi: usize = list.len();
    while lo < hi
        invariant
            0 <= lo <= hi <= list.len(),
            before == listing(list@),
            k == key@,
            ascending(before),
            !has_key(before, k),
            forall|j: int| 0 <= j < lo ==> precedes((#[trigger] before[j]).0, k),
            forall|j: int| hi <= j < before.len() ==> precedes(k, (#[trigger] before[j]).0),
        decreases hi - lo,
    {
        let mid = lo + (hi - lo) / 2;
        assert(before[mid as int] == list@[mid as int]@);
        if comes_before(list[mid].0.as_str(), key.as_str()) {
            assert forall|j: int| 0 <= j < mid + 1 implies precedes((#[trigger] before[j]).0, k) by {
                if j < mid {
                    precedes_transitive(before[j].0, before[mid as int].0, k);
                }
            }
            lo = mid + 1;
        } else {
            proof {
                assert(before[mid as int].0 != k);
                precedes_total(before[mid as int].0, k);
            }
            assert forall|j: int| mid <= j < before.len() implies precedes(
                k,
                (#[trigger] before[j]).0,
            ) by {
                if mid < j {
                    precedes_transitive(k, before[mid as int].0, before[j].0);
                }
            }
            hi = mid;
        }
    }
    list.insert(lo, (key, entry));
    proof {
        let after = before.insert(lo as int, (k, e));
        assert(listing(list@) =~= after);
        assert forall|i: int, j: int| 0 <= i < j < after.len() implies precedes(
            (#[trigger] after[i]).0,
            (#[trigger] after[j]).0,
        ) by {
            let i0 = if i < lo { i } else { i - 1 };
            let j0 = if j < lo { j } else { j - 1 };
            if i != lo {
                assert(after[i] == before[i0]);
            }
            if j != lo {
                assert(after[j] == before[j0]);
            }
        }
    }
}

} // verus!
