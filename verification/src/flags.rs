//! The operations that a futex call can ask for, as they stand in its flags.

use vstd::prelude::*;

verus! {

/// Block until the word is woken.
pub const FUTEX_WAIT: u32 = 0;

/// Wake waiters on the word.
pub const FUTEX_WAKE: u32 = 1;

/// Tie a file descriptor to the word.
pub const FUTEX_FD: u32 = 2;

/// Wake some waiters and move others to a second word.
pub const FUTEX_REQUEUE: u32 = 3;

/// As `FUTEX_REQUEUE`, after comparing the word with a value.
pub const FUTEX_CMP_REQUEUE: u32 = 4;

/// Wake waiters on two words, after an operation on the second.
pub const FUTEX_WAKE_OP: u32 = 5;

/// The word lies in a mapping that is private to the process.
pub const FUTEX_PRIVATE_FLAG: u32 = 128;

} // verus!
