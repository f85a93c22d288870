//! Moving waiters from one futex word to another.

use vstd::prelude::*;
use crate::futex::{get_futex_key, spec_futex_key, FutexKey, FutexQ};
use crate::table::{
    dequeued, home, lemma_home_in_range, lemma_scan_len, remaining, table_append, table_dequeue,
    FutexHashBuckets,
};

verus! {

/// The waiters on `from` that a requeue wakes in the table `t`: the first
/// `nr_wake` of them.
pub open spec fn requeue_woken(t: Seq<Seq<FutexQ>>, from: FutexKey, nr_wake: nat) -> Seq<FutexQ> {
    dequeued(t[home(t, from)], from, nr_wake)
}

/// The waiters on `from` that a requeue moves: the first `nr_requeue` of
/// those that follow the woken ones.
pub open spec fn requeue_moved(
    t: Seq<Seq<FutexQ>>,
    from: FutexKey,
    nr_wake: nat,
    nr_requeue: nat,
) -> Seq<FutexQ> {
    dequeued(remaining(t[home(t, from)], from, nr_wake), from, nr_requeue)
}

/// The table that a requeue from `from` to `to` leaves: the woken and the
/// moved waiters are gone from the bucket of `from`, and the moved ones stand
/// at the tail of the bucket of `to`, in their order, as waiters on `to`.
pub open spec fn table_requeue(
    t: Seq<Seq<FutexQ>>,
    from: FutexKey,
    to: FutexKey,
    nr_wake: nat,
    nr_requeue: nat,
) -> Seq<Seq<FutexQ>> {
    table_append(
        table_dequeue(table_dequeue(t, from, nr_wake), from, nr_requeue),
        to,
        requeue_moved(t, from, nr_wake, nr_requeue),
    )
}

/// Wakes up to `nr_wake` waiters on the word at `vaddr1` and moves up to
/// `nr_requeue` of those that follow them to the word at `vaddr2`.
///
/// Returns the entries of the woken waiters, for the caller to unblock their
/// tasks, and the number of waiters woken or moved. The word at `vaddr1` is
/// compared with nothing, and priority inheritance is not done:
/// `compare_value` and `requeue_pi` change neither the table nor the result.
pub fn futex_requeue(
    table: &mut FutexHashBuckets,
    vaddr1: usize,
    flags1: u32,
    vaddr2: usize,
    flags2: u32,
    mm: usize,
    nr_wake: u32,
    nr_requeue: u32,
    compare_value: Option<u32>,
    requeue_pi: u32,
) -> (result: (Vec<FutexQ>, usize))
    requires
        old(table).wf(),
    ensures
        final(table).wf(),
        result.0@ == requeue_woken(old(table)@, spec_futex_key(vaddr1, mm), nr_wake as nat),
        result.1 == result.0@.len() + requeue_moved(
            old(table)@,
            spec_futex_key(vaddr1, mm),
            nr_wake as nat,
            nr_requeue as nat,
        ).len(),
        final(table)@ == table_requeue(
            old(table)@,
            spec_futex_key(vaddr1, mm),
            spec_futex_key(vaddr2, mm),
            nr_wake as nat,
            nr_requeue as nat,
        ),
{
    let key1 = get_futex_key(vaddr1, flags1, mm);
    let key2 = get_futex_key(vaddr2, flags2, mm);
    let ghost before = table@;
    let ghost queue = before[home(before, key1)];
    proof {
        lemma_home_in_range(before, key1);
        table.lemma_bucket_len(home(before, key1));
    }
    let woken = table.dequeue(&key1, nr_wake);
    let moved = table.dequeue(&key1, nr_requeue);
    proof {
        lemma_scan_len(queue, key1, nr_wake as nat);
        lemma_scan_len(remaining(queue, key1, nr_wake as nat), key1, nr_requeue as nat);
    }
    let count: usize = woken.len() + moved.len();
    table.append(&key2, &moved);
    (woken, count)
}

} // verus!
