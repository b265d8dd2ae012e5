//! What the store answers to each request of the protocol that fronts it.
//!
//! Every function here takes the store and the plain values of one request,
//! and returns the [`Reply`] to send. Receiving the request, holding the lock
//! around the call and encoding the reply are left to the caller.

use vstd::prelude::*;
use crate::cache::BoundedCache;
use crate::listing::{keys_of, lists_prefix};
use crate::model::{
    after_put, has_key, lookup, refreshed, stamped, touched, without_key, without_prefix,
};
use crate::time::Timestamp;

verus! {

/// The status report of the store.
#[derive(Clone, Debug)]
pub struct DBStatus {
    pub num_entries: usize,
    pub db_version: String,
}

/// A value together with the time at which it was written.
#[derive(Clone, Debug)]
pub struct InfoResponse {
    pub value: String,
    pub time: Timestamp,
}

/// The answer to one request.
#[derive(Clone, Debug)]
pub enum Reply {
    /// Success, with nothing to say.
    Done,
    /// Success, with a text to send as it is.
    Text(String),
    /// Success, with values by ascending key.
    Values(Vec<(String, String)>),
    /// Success, with one value and its time.
    Info(InfoResponse),
    /// Success, with values and their times by ascending key.
    Infos(Vec<(String, InfoResponse)>),
    /// Success, with the status report.
    Status(DBStatus),
    /// The key is not resident.
    NotFound,
}

impl Reply {
    /// The status code of the answer: 404 where the key is not resident, 200
    /// for everything else.
    pub fn status_code(&self) -> (code: u16)
        ensures
            code == (if self is NotFound {
                404u16
            } else {
                200u16
            }),
    {
        match self {
            Reply::NotFound => 404,
            _ => 200,
        }
    }
}

/// Stores `payload` under `key`, stamped with the current time.
pub fn write_handler(cache: &mut BoundedCache, key: String, payload: String) -> (reply: Reply)
    requires
        old(cache).wf(),
    ensures
        final(cache).wf(),
        final(cache).capacity() == old(cache).capacity(),
        reply is Done,
        exists|time: Timestamp|
            final(cache)@ == after_put(
                old(cache)@,
                old(cache).capacity(),
                key@,
                #[trigger] stamped(payload@, time),
            ),
{
    cache.put(key, payload);
    Reply::Done
}

/// Answers with the value of `key`, which counts as read.
pub fn read_handler(cache: &mut BoundedCache, key: &str) -> (reply: Reply)
    requires
        old(cache).wf(),
    ensures
        final(cache).wf(),
        final(cache).capacity() == old(cache).capacity(),
        final(cache)@ == touched(old(cache)@, key@),
        final(cache)@.len() == old(cache)@.len(),
        match lookup(old(cache)@, key@) {
            Some(entry) => reply matches Reply::Text(value) && value@ == entry.value,
            None => reply is NotFound,
        },
{
    match cache.get(key) {
        Some(entry) => Reply::Text(entry.value),
        None => Reply::NotFound,
    }
}

/// Answers with the values of all keys that begin with `id_prefix`, by
/// ascending key; all of them count as read.
pub fn read_all_handler(cache: &mut BoundedCache, id_prefix: &str) -> (reply: Reply)
    requires
        old(cache).wf(),
    ensures
        final(cache).wf(),
        final(cache).capacity() == old(cache).capacity(),
        final(cache)@ == refreshed(old(cache)@, id_prefix@),
        final(cache)@.len() == old(cache)@.len(),
        reply matches Reply::Values(found) && lists_prefix(
            keys_of(found@),
            old(cache)@,
            id_prefix@,
        ) && forall|j: int|
            0 <= j < found@.len() ==> lookup(old(cache)@, (#[trigger] found@[j]).0@) is Some
                && lookup(old(cache)@, found@[j].0@)->0.value == found@[j].1@,
{
    Reply::Values(cache.scan_by_prefix(id_prefix))
}

/// Removes `key` and says whether it was resident.
pub fn delete_handler(cache: &mut BoundedCache, key: &str) -> (reply: Reply)
    requires
        old(cache).wf(),
    ensures
        final(cache).wf(),
        final(cache).capacity() == old(cache).capacity(),
        final(cache)@ == without_key(old(cache)@, key@),
        has_key(old(cache)@, key@) ==> reply is Done,
        !has_key(old(cache)@, key@) ==> reply is NotFound,
{
    if cache.delete(key) {
        Reply::Done
    } else {
        Reply::NotFound
    }
}

/// Removes all keys that begin with `id_prefix`; succeeds however many there
/// were.
pub fn delete_all_handler(cache: &mut BoundedCache, id_prefix: &str) -> (reply: Reply)
    requires
        old(cache).wf(),
    ensures
        final(cache).wf(),
        final(cache).capacity() == old(cache).capacity(),
        final(cache)@ == without_prefix(old(cache)@, id_prefix@),
        reply is Done,
{
    cache.delete_by_prefix(id_prefix);
    Reply::Done
}

/// Answers the liveness probe with the text `OK`.
pub fn health_check() -> (reply: Reply)
    ensures
        reply matches Reply::Text(text) && text@ == "OK"@,
{
    Reply::Text("OK".to_string())
}

/// Reports the number of resident entries and the version handed in.
pub fn status(cache: &BoundedCache, db_version: String) -> (reply: Reply)
    ensures
        reply matches Reply::Status(report) && report.num_entries == cache@.len()
            && report.db_version@ == db_version@,
{
    Reply::Status(DBStatus { num_entries: cache.size(), db_version })
}

/// Answers with the value of `key` and the time of its last write; the key
/// counts as read.
pub fn info_handler(cache: &mut BoundedCache, key: &str) -> (reply: Reply)
    requires
        old(cache).wf(),
    ensures
        final(cache).wf(),
        final(cache).capacity() == old(cache).capacity(),
        final(cache)@ == touched(old(cache)@, key@),
        final(cache)@.len() == old(cache)@.len(),
        match lookup(old(cache)@, key@) {
            Some(entry) => reply matches Reply::Info(info) && info.value@ == entry.value
                && info.time == entry.time,
            None => reply is NotFound,
        },
{
    match cache.get(key) {
        Some(entry) => Reply::Info(InfoResponse { value: entry.value, time: entry.time }),
        None => Reply::NotFound,
    }
}

/// Answers with the values and times of all keys that begin with
/// `id_prefix`, by ascending key; all of them count as read.
pub fn all_infos_handler(cache: &mut BoundedCache, id_prefix: &str) -> (reply: Reply)
    requires
        old(cache).wf(),
    ensures
        final(cache).wf(),
        final(cache).capacity() == old(cache).capacity(),
        final(cache)@ == refreshed(old(cache)@, id_prefix@),
        final(cache)@.len() == old(cache)@.len(),
        reply matches Reply::Infos(found) && lists_prefix(
            keys_of(found@),
            old(cache)@,
            id_prefix@,
        ) && forall|j: int|
            0 <= j < found@.len() ==> lookup(old(cache)@, (#[trigger] found@[j]).0@) is Some
                && lookup(old(cache)@, found@[j].0@)->0.value == found@[j].1.value@ && lookup(
                old(cache)@,
                found@[j].0@,
            )->0.time == found@[j].1.time,
{
    let ghost s = cache@;
    let entries = cache.scan_entries(id_prefix);
    let ghost all = entries@;
    let mut found: Vec<(String, InfoResponse)> = Vec::new();
    for pair in it: entries.into_iter()
        invariant
            it.seq() == all,
            found@.len() == it.index(),
            forall|j: int|
                0 <= j < found@.len() ==> (#[trigger] found@[j]).0@ == all[j].0@
                    && found@[j].1.value@ == all[j].1.value@ && found@[j].1.time
                    == all[j].1.time,
    {
        let (key, entry) = pair;
        found.push((key, InfoResponse { value: entry.value, time: entry.time }));
    }
    proof {
        assert(keys_of(found@) =~= keys_of(all));
        assert forall|j: int| 0 <= j < found@.len() implies lookup(s, (#[trigger] found@[j]).0@)
            == Some(all[j].1@) by {
            assert(lookup(s, all[j].0@) == Some(all[j].1@));
        }
    }
    Reply::Infos(found)
}

} // verus!
