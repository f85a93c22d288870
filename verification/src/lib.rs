//! Kernel-side futex bookkeeping: key derivation, the bucket table of wait
//! queues, and the wait / wake / requeue decisions over it.
//!
//! The library owns no global state and suspends no task. Its caller keeps
//! the table, hands it to each operation, reads the futex word, and blocks
//! and unblocks tasks as the operations say.

use vstd::prelude::*;

pub mod flags;
pub mod futex;
pub mod laws;
pub mod requeue;
pub mod table;
pub mod waitwake;

pub use crate::futex::{FutexKey, FutexQ, FutexRobustList, FUTEX_HASH_SIZE};
pub use crate::requeue::futex_requeue;
pub use crate::table::FutexHashBuckets;
pub use crate::waitwake::{futex_wait, futex_wait_deadline, futex_wait_resumed, futex_wake};

verus! {

/// The futex table as it stands before the first futex operation: a table
/// of the default size in which nobody waits.
pub fn init_futex() -> (table: FutexHashBuckets)
    ensures
        table.wf(),
        table@.len() == FUTEX_HASH_SIZE,
        forall|i: int| 0 <= i < FUTEX_HASH_SIZE ==> table@[i] == Seq::<crate::futex::FutexQ>::empty(),
{
    FutexHashBuckets::new(FUTEX_HASH_SIZE)
}

} // verus!
