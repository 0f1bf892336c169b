//! Verified core of a multi-tenant database-dump ingestion pipeline.
//!
//! The library parses decompressed dump streams into a table/row structure,
//! validates that a dump originates from the expected source configuration,
//! and models the transactional, checkpointed load of the accepted rows.
//! File discovery, environment loading and the destination-store connection
//! are thin I/O shells around this core and live outside the library.

pub mod load;
pub mod parse;
pub mod pipeline;
pub mod validate;
pub mod tables;

use vstd::prelude::*;

verus! {

/// Compares two byte slices for equality of their contents.
pub fn bytes_eq(a: &[u8], b: &[u8]) -> (r: bool)
    ensures
        r == (a@ == b@),
{
    if a.len() != b.len() {
        assert(a@ != b@) by {
            assert(a@.len() != b@.len());
        }
        return false;
    }
    let mut i: usize = 0;
    while i < a.len()
        invariant
            0 <= i <= a@.len(),
            a@.len() == b@.len(),
            forall|j: int| 0 <= j < i ==> a@[j] == b@[j],
        decreases a@.len() - i,
    {
        if a[i] != b[i] {
            return false;
        }
        i += 1;
    }
    assert(a@ =~= b@);
    true
}

} // verus!
