//! Waiting on a futex word, and waking its waiters.
//!
//! A wait is made of steps, because the task is suspended in the middle of
//! it. `futex_wait` checks the word and queues the task; the caller then
//! suspends the task; `futex_wait_resumed` tells the resumed task why it runs
//! again. After a spurious wake the caller starts over with `futex_wait`.

use vstd::prelude::*;
use crate::futex::{get_futex_key, spec_futex_key, FutexQ};
use crate::table::{
    dequeued, home, table_dequeue, table_enqueue, table_remove, FutexHashBuckets,
};

verus! {

/// Why a wait did not succeed.
#[derive(Clone, Copy, Debug, PartialEq, Eq, Structural)]
pub enum FutexError {
    /// The word cannot be read.
    BadAddress,
    /// The word did not hold the expected value.
    WouldBlock,
    /// The deadline passed while the task waited.
    Timeout,
    /// A signal became pending while the task waited.
    Interrupted,
}

/// What a task finds when it runs again after it was suspended in a wait.
#[derive(Clone, Copy, Debug, PartialEq, Eq, Structural)]
pub enum Resumed {
    /// A wake or a requeue took the entry of the wait out of its bucket.
    Woken,
    /// The entry was still queued, and the deadline has passed.
    TimedOut,
    /// The entry was still queued, and a signal is pending.
    Interrupted,
    /// The entry was still queued for no such reason: the wait starts over.
    Spurious,
}

impl Resumed {
    /// What the wait returns to its caller, or `None` where it starts over.
    pub open spec fn spec_outcome(self) -> Option<Result<usize, FutexError>> {
        match self {
            Resumed::Woken => Some(Ok(0usize)),
            Resumed::TimedOut => Some(Err(FutexError::Timeout)),
            Resumed::Interrupted => Some(Err(FutexError::Interrupted)),
            Resumed::Spurious => None,
        }
    }

    /// What the wait returns to its caller, or `None` where it starts over.
    pub fn outcome(&self) -> (result: Option<Result<usize, FutexError>>)
        ensures
            result == self.spec_outcome(),
    {
        match self {
            Resumed::Woken => Some(Ok(0)),
            Resumed::TimedOut => Some(Err(FutexError::Timeout)),
            Resumed::Interrupted => Some(Err(FutexError::Interrupted)),
            Resumed::Spurious => None,
        }
    }
}

/// What a resumed task finds: `found` says whether its entry was still
/// queued, `timed` whether the wait has a deadline, `timer_pending` whether
/// the timer of that deadline has yet to fire, and `signal_pending` whether
/// the process has a signal to handle.
pub open spec fn spec_resumed(
    found: bool,
    timed: bool,
    timer_pending: bool,
    signal_pending: bool,
) -> Resumed {
    if !found {
        Resumed::Woken
    } else if timed && !timer_pending {
        Resumed::TimedOut
    } else if signal_pending {
        Resumed::Interrupted
    } else {
        Resumed::Spurious
    }
}

/// The entry that a wait of `task` on the word at `vaddr` queues, in the
/// address space `mm`.
pub open spec fn wait_entry(vaddr: usize, mm: usize, task: u64) -> FutexQ {
    FutexQ { key: spec_futex_key(vaddr, mm), task, requeued: false }
}

/// The deadline of a wait that starts at `now` with the given timeout, both
/// in nanoseconds. A timeout of 0 asks for a wait without a deadline.
pub fn futex_wait_deadline(timeout: usize, now: u64) -> (deadline: Option<u128>)
    ensures
        timeout == 0 ==> deadline.is_none(),
        timeout != 0 ==> deadline == Some((now + timeout) as u128),
{
    if timeout != 0 {
        Some(now as u128 + timeout as u128)
    } else {
        None
    }
}

/// The first part of a wait by `task` on the word at `vaddr`: `uval` is what
/// the word holds now, or `None` where it cannot be read.
///
/// Where the word holds `val`, the task is queued at the tail of the bucket
/// of the word's key, and the caller has to suspend it. Otherwise the table
/// stays as it is.
pub fn futex_wait(
    table: &mut FutexHashBuckets,
    vaddr: usize,
    flags: u32,
    mm: usize,
    task: u64,
    val: u32,
    uval: Option<u32>,
) -> (result: Result<(), FutexError>)
    requires
        old(table).wf(),
    ensures
        final(table).wf(),
        uval.is_none() ==> result == Err::<(), FutexError>(FutexError::BadAddress),
        uval.is_some() && uval.unwrap() != val ==> result == Err::<(), FutexError>(
            FutexError::WouldBlock,
        ),
        uval == Some(val) ==> result.is_ok(),
        result.is_err() ==> final(table)@ == old(table)@,
        result.is_ok() ==> final(table)@ == table_enqueue(
            old(table)@,
            wait_entry(vaddr, mm, task),
        ),
{
    let key = get_futex_key(vaddr, flags, mm);
    match uval {
        None => Err(FutexError::BadAddress),
        Some(current) => {
            if current != val {
                Err(FutexError::WouldBlock)
            } else {
                table.enqueue(FutexQ::new(key, task));
                Ok(())
            }
        },
    }
}

/// The second part of a wait: `task` runs again after it was suspended on
/// the word at `vaddr`.
///
/// The entry that the wait queued leaves the bucket of the word's key if it
/// is still there. Where a wake or a requeue has taken it out, the task was
/// woken, even where a requeue has queued the task again in the same bucket.
/// `timed` says whether the wait has a deadline, `timer_pending` whether its
/// timer has yet to fire, `signal_pending` whether the process has a signal
/// to handle.
pub fn futex_wait_resumed(
    table: &mut FutexHashBuckets,
    vaddr: usize,
    flags: u32,
    mm: usize,
    task: u64,
    timed: bool,
    timer_pending: bool,
    signal_pending: bool,
) -> (resumed: Resumed)
    requires
        old(table).wf(),
    ensures
        final(table).wf(),
        final(table)@ == table_remove(old(table)@, wait_entry(vaddr, mm, task)),
        resumed == spec_resumed(
            old(table)@[home(old(table)@, spec_futex_key(vaddr, mm))].contains(
                wait_entry(vaddr, mm, task),
            ),
            timed,
            timer_pending,
            signal_pending,
        ),
{
    let key = get_futex_key(vaddr, flags, mm);
    let entry = FutexQ::new(key, task);
    let found = table.remove(&entry);
    if !found {
        Resumed::Woken
    } else if timed && !timer_pending {
        Resumed::TimedOut
    } else if signal_pending {
        Resumed::Interrupted
    } else {
        Resumed::Spurious
    }
}

/// Wakes up to `nr_wake` waiters on the word at `vaddr`: their entries leave
/// the table, first queued first, and are returned for the caller to unblock
/// their tasks. Waiters on other words stay queued. `bitset` selects nothing:
/// every waiter on the word can be woken.
pub fn futex_wake(
    table: &mut FutexHashBuckets,
    vaddr: usize,
    flags: u32,
    mm: usize,
    nr_wake: u32,
    bitset: u32,
) -> (woken: Vec<FutexQ>)
    requires
        old(table).wf(),
    ensures
        final(table).wf(),
        woken@ == dequeued(
            old(table)@[home(old(table)@, spec_futex_key(vaddr, mm))],
            spec_futex_key(vaddr, mm),
            nr_wake as nat,
        ),
        final(table)@ == table_dequeue(old(table)@, spec_futex_key(vaddr, mm), nr_wake as nat),
{
    let key = get_futex_key(vaddr, flags, mm);
    table.dequeue(&key, nr_wake)
}

} // verus!
