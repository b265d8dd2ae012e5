//! The settings a process needs before it can serve the store.

use vstd::prelude::*;

verus! {

/// The memory that the store is sized for, in bytes: 256 MiB.
pub const MEMORY_BUDGET: usize = 268_435_456;

/// The rough footprint of one entry, in bytes.
pub const BYTES_PER_ENTRY: usize = 128;

/// The number of entries the store is made to hold: as many as fit the
/// memory budget at the rough footprint of one entry.
pub const MAX_ELEMENTS: usize = MEMORY_BUDGET / BYTES_PER_ENTRY;

/// The number of entries that fit `budget` bytes at `per_entry` bytes each.
pub fn entries_for(budget: usize, per_entry: usize) -> (n: usize)
    requires
        per_entry > 0,
    ensures
        n == budget as int / per_entry as int,
{
    budget / per_entry
}

/// The address to listen on, given the arguments of the process with the
/// program's name first: the first argument proper if there is one, else
/// `127.0.0.1:3000`.
pub fn listen_address(args: &Vec<String>) -> (address: String)
    ensures
        address@ == (if args@.len() > 1 {
            args@[1]@
        } else {
            "127.0.0.1:3000"@
        }),
{
    if args.len() > 1 {
        args[1].clone()
    } else {
        "127.0.0.1:3000".to_string()
    }
}

} // verus!
