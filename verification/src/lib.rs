//! A safe cross-language string-exchange boundary.
//!
//! The library builds a greeting message from caller-supplied bytes: the
//! input is decoded as UTF-8 with a replacement mark substituted for every
//! malformed sequence, embedded in a fixed template, and handed back as an
//! owned, null-terminated buffer together with an explicit release
//! operation. A small arithmetic helper rounds out the surface.
//!
//! Failure to allocate the output buffer is not recoverable at this
//! layer and aborts the process, as the boundary's contract has it;
//! no other failure exists, and no call here ever panics.

use vstd::prelude::*;

pub mod boundary;
pub mod utf8;

verus! {

/// Sum of two machine words; the caller keeps the total in range.
pub fn add(left: u64, right: u64) -> (r: u64)
    requires
        left + right <= u64::MAX,
    ensures
        r == left + right,
{
    left + right
}

} // verus!
