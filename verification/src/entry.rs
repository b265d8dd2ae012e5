//! What the store holds for one key.

use vstd::prelude::*;
use crate::time::Timestamp;

verus! {

/// The stored payload of one key together with the time of its last write.
#[derive(Clone, Debug)]
pub struct Entry {
    pub value: String,
    pub time: Timestamp,
}

/// The mathematical content of an [`Entry`].
pub struct EntryView {
    pub value: Seq<char>,
    pub time: Timestamp,
}

impl View for Entry {
    type V = EntryView;

    open spec fn view(&self) -> EntryView {
        EntryView { value: self.value@, time: self.time }
    }
}

impl Entry {
    pub fn new(value: String, time: Timestamp) -> (e: Entry)
        ensures
            e@ == (EntryView { value: value@, time }),
    {
        Entry { value, time }
    }

    /// An independent copy of the entry.
    pub fn duplicate(&self) -> (e: Entry)
        ensures
            e@ == self@,
    {
        Entry { value: self.value.clone(), time: self.time }
    }
}

} // verus!
