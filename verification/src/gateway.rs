//! Seqlock protocol for reading an open bar without a lock (even/odd read).
//!
//! The writer bumps the sequence number before and after each write, so it is odd
//! while a write is under way. A reader copies the data between two reads of the number
//! and keeps the copy only when the number was even and did not change; it gives up
//! after a bounded number of attempts. The shared cell itself lives outside the library;
//! these are the decisions both sides make.

use vstd::prelude::*;

verus! {

/// How many times a reader tries before giving up.
pub const READ_ATTEMPTS: u32 = 64;

/// The sequence number after one bump (wrapping at 2^32).
pub open spec fn bumped(s: u32) -> u32 {
    ((s as int + 1) % 0x1_0000_0000) as u32
}

/// The number a writer stores when it starts or finishes a write.
pub fn next_seq(s: u32) -> (r: u32)
    ensures
        r == bumped(s),
{
    s.wrapping_add(1)
}

/// A write is under way while the number is odd: a reader waits.
pub fn is_writing(s: u32) -> (r: bool)
    ensures
        r == (s % 2 == 1),
{
    let low = s & 1;
    assert(low == s % 2) by (bit_vector)
        requires
            low == s & 1,
    ;
    low == 1
}

/// A copy taken between reads `before` and `after` of the number is consistent.
pub open spec fn copy_is_stable(before: u32, after: u32) -> bool {
    before % 2 == 0 && after == before
}

/// Whether a reader keeps the copy it took between reads `before` and `after`.
pub fn read_is_stable(before: u32, after: u32) -> (r: bool)
    ensures
        r == copy_is_stable(before, after),
{
    let low = before & 1;
    assert(low == before % 2) by (bit_vector)
        requires
            low == before & 1,
    ;
    low == 0 && after == before
}

/// A write bracket from a quiet (even) number: the number is odd while the write is
/// under way, so no reader keeps a copy then, and even again, but changed, once it is
/// done, so a reader that started before the write drops its copy.
pub proof fn lemma_write_bracket(s: u32, after: u32)
    requires
        s % 2 == 0,
    ensures
        bumped(s) % 2 == 1,
        !copy_is_stable(bumped(s), after),
        bumped(bumped(s)) % 2 == 0,
        bumped(bumped(s)) != s,
{
}

} // verus!
