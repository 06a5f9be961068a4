//! Tracker identifiers: opaque 128-bit values. Callers must not rely on any
//! ordering among them.

use vstd::prelude::*;

verus! {

/// A unique identifier, as a pair of 64-bit halves.
pub type ID = (u64, u64);

/// An identifier source: fresh random identifiers for production runs, or a
/// deterministic counter for runs whose output must be reproducible.
pub enum IdGen {
    Random,
    Sequential(u64),
}

impl IdGen {
    /// The next identifier. A sequential source yields the counter value and
    /// steps it; nothing is promised of a random source's value.
    pub fn next(&mut self) -> (id: ID)
        ensures
            match *old(self) {
                IdGen::Sequential(c) => id == (0u64, c) && *final(self) == IdGen::Sequential(
                    if c == u64::MAX {
                        0u64
                    } else {
                        (c + 1) as u64
                    },
                ),
                IdGen::Random => *final(self) == *old(self),
            },
    {
        match self {
            IdGen::Random => new_id(),
            IdGen::Sequential(c) => {
                let id = (0u64, *c);
                *c = if *c == u64::MAX {
                    0
                } else {
                    *c + 1
                };
                id
            },
        }
    }
}

/// Relies on uuid::Uuid::new_v4 and Uuid::as_u64_pair: a freshly drawn random
/// 128-bit identifier, returned as its two halves.
#[verifier::external_body]
pub fn new_id() -> ID {
    uuid::Uuid::new_v4().as_u64_pair()
}

} // verus!
