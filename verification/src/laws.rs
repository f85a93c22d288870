//! What holds of every scan, wake, requeue and wait, stated over the order
//! in which the waiters on one key are queued.

use vstd::prelude::*;
use crate::futex::{FutexKey, FutexQ};
use crate::requeue::{requeue_moved, requeue_woken, table_requeue};
use crate::table::{
    dequeued, home, lemma_position, lemma_scan_members, position, rekeyed, remaining,
    table_dequeue, table_enqueue, table_remove,
};
use crate::waitwake::{spec_resumed, Resumed};

verus! {

/// The test that picks the waiters on `key`.
pub open spec fn waits_on(key: FutexKey) -> spec_fn(FutexQ) -> bool {
    |e: FutexQ| e.key == key
}

/// The waiters on `key` in the queue `q`, first queued first.
pub open spec fn waiters(q: Seq<FutexQ>, key: FutexKey) -> Seq<FutexQ> {
    q.filter(waits_on(key))
}

/// The smaller of a limit and a number of waiters.
pub open spec fn at_most(limit: nat, have: nat) -> nat {
    if limit <= have {
        limit
    } else {
        have
    }
}

/// A queue is its first entry followed by the rest, and so is what a test
/// picks from it.
proof fn lemma_filter_front(q: Seq<FutexQ>, p: spec_fn(FutexQ) -> bool)
    requires
        q.len() > 0,
    ensures
        q.filter(p) == (if p(q[0]) {
            seq![q[0]]
        } else {
            Seq::<FutexQ>::empty()
        }) + q.drop_first().filter(p),
{
    assert(q =~= seq![q[0]] + q.drop_first());
    q.drop_first().lemma_filter_prepend(q[0], p);
}

/// A scan for `key` leaves in place, and in order, every entry that the test
/// `p` picks, where `p` picks no waiter on `key`.
pub proof fn lemma_scan_keeps(q: Seq<FutexQ>, key: FutexKey, n: nat, p: spec_fn(FutexQ) -> bool)
    requires
        forall|e: FutexQ| #[trigger] p(e) ==> e.key != key,
    ensures
        remaining(q, key, n).filter(p) == q.filter(p),
    decreases q.len(),
{
    if n == 0 || q.len() == 0 {
    } else {
        let tail = q.drop_first();
        lemma_filter_front(q, p);
        if q[0].key == key {
            lemma_scan_keeps(tail, key, (n - 1) as nat, p);
            assert(!p(q[0]));
            assert(Seq::<FutexQ>::empty() + tail.filter(p) =~= tail.filter(p));
        } else {
            lemma_scan_keeps(tail, key, n, p);
            let rest = remaining(tail, key, n);
            rest.lemma_filter_prepend(q[0], p);
        }
    }
}

/// A scan for `key` with the limit `n` takes the first waiters on `key`, as
/// many as the limit allows, in the order in which they were queued; the
/// other waiters on `key` stay, in their order.
pub proof fn lemma_scan_fifo(q: Seq<FutexQ>, key: FutexKey, n: nat)
    ensures
        dequeued(q, key, n) == waiters(q, key).take(at_most(n, waiters(q, key).len()) as int),
        waiters(remaining(q, key, n), key) == waiters(q, key).skip(
            at_most(n, waiters(q, key).len()) as int,
        ),
    decreases q.len(),
{
    let p = waits_on(key);
    let w = waiters(q, key);
    let c = at_most(n, w.len()) as int;
    if q.len() == 0 {
        q.lemma_filter_len(p);
        assert(dequeued(q, key, n) =~= w.take(c));
        assert(waiters(remaining(q, key, n), key) =~= w.skip(c));
    } else if n == 0 {
        assert(dequeued(q, key, n) =~= w.take(c));
        assert(waiters(remaining(q, key, n), key) =~= w.skip(c));
    } else {
        let tail = q.drop_first();
        let wt = waiters(tail, key);
        lemma_filter_front(q, p);
        if q[0].key == key {
            let m = (n - 1) as nat;
            lemma_scan_fifo(tail, key, m);
            let ct = at_most(m, wt.len()) as int;
            assert(p(q[0]));
            assert(w == seq![q[0]] + wt);
            assert(c == ct + 1);
            assert(dequeued(q, key, n) =~= w.take(c));
            assert(waiters(remaining(q, key, n), key) =~= w.skip(c));
        } else {
            lemma_scan_fifo(tail, key, n);
            assert(!p(q[0]));
            assert(w =~= wt);
            let rest = remaining(tail, key, n);
            rest.lemma_filter_prepend(q[0], p);
            assert(waiters(remaining(q, key, n), key) =~= w.skip(c));
        }
    }
}

/// A wake on the key `a` neither wakes nor removes a waiter on another key
/// `b`, whether or not the two keys share a bucket: the waiters on `b` are
/// queued after the wake as they were before it, and none of the woken
/// entries waits on `b`.
pub proof fn law_wake_spares_other_keys(t: Seq<Seq<FutexQ>>, a: FutexKey, b: FutexKey, n: nat)
    requires
        t.len() > 0,
        a != b,
    ensures
        waiters(table_dequeue(t, a, n)[home(t, b)], b) == waiters(t[home(t, b)], b),
        forall|j: int|
            0 <= j < dequeued(t[home(t, a)], a, n).len() ==> (#[trigger] dequeued(
                t[home(t, a)],
                a,
                n,
            )[j]).key != b,
{
    lemma_scan_members(t[home(t, a)], a, n);
    if home(t, a) == home(t, b) {
        assert forall|e: FutexQ| #[trigger] waits_on(b)(e) implies e.key != a by {}
        lemma_scan_keeps(t[home(t, a)], a, n, waits_on(b));
    }
}

/// A wake with the limit `n` on a key that has at least `n` waiters wakes
/// exactly `n` of them, the first queued first, and leaves the others queued
/// in the order in which they were.
pub proof fn law_wake_is_fifo(t: Seq<Seq<FutexQ>>, key: FutexKey, n: nat)
    requires
        t.len() > 0,
        n <= waiters(t[home(t, key)], key).len(),
    ensures
        dequeued(t[home(t, key)], key, n).len() == n,
        dequeued(t[home(t, key)], key, n) == waiters(t[home(t, key)], key).take(n as int),
        waiters(table_dequeue(t, key, n)[home(t, key)], key) == waiters(t[home(t, key)], key).skip(
            n as int,
        ),
{
    lemma_scan_fifo(t[home(t, key)], key, n);
}

/// Entries that were given the key `key` are all waiters on `key`, and none
/// of them waits on another key.
pub proof fn lemma_rekeyed_waiters(moved: Seq<FutexQ>, key: FutexKey, other: FutexKey)
    ensures
        waiters(rekeyed(moved, key), key) == rekeyed(moved, key),
        other != key ==> waiters(rekeyed(moved, key), other) == Seq::<FutexQ>::empty(),
    decreases moved.len(),
{
    let r = rekeyed(moved, key);
    if moved.len() == 0 {
        r.lemma_filter_len(waits_on(key));
        r.lemma_filter_len(waits_on(other));
        assert(waiters(r, key) =~= r);
        assert(waiters(r, other) =~= Seq::<FutexQ>::empty());
    } else {
        let tail = moved.drop_first();
        lemma_rekeyed_waiters(tail, key, other);
        assert(r.drop_first() =~= rekeyed(tail, key));
        assert(r[0].key == key);
        lemma_filter_front(r, waits_on(key));
        lemma_filter_front(r, waits_on(other));
        assert(waits_on(key)(r[0]));
        assert(waiters(r, key) =~= r);
        if other != key {
            assert(!waits_on(other)(r[0]));
            assert(waiters(r, other) =~= Seq::<FutexQ>::empty());
        }
    }
}

/// A requeue from a key that has `k` waiters, with the limits `nr_wake` and
/// `nr_requeue`, wakes the first `min(nr_wake, k)` of them and moves the next
/// `min(nr_requeue, k - min(nr_wake, k))`, each group in the order in which
/// its waiters were queued.
pub proof fn law_requeue_counts(t: Seq<Seq<FutexQ>>, from: FutexKey, nr_wake: nat, nr_requeue: nat)
    requires
        t.len() > 0,
    ensures
        ({
            let w = waiters(t[home(t, from)], from);
            let woken = at_most(nr_wake, w.len());
            let moved = at_most(nr_requeue, (w.len() - woken) as nat);
            &&& requeue_woken(t, from, nr_wake) == w.take(woken as int)
            &&& requeue_woken(t, from, nr_wake).len() == woken
            &&& requeue_moved(t, from, nr_wake, nr_requeue) == w.subrange(
                woken as int,
                (woken + moved) as int,
            )
            &&& requeue_moved(t, from, nr_wake, nr_requeue).len() == moved
            &&& waiters(
                table_dequeue(table_dequeue(t, from, nr_wake), from, nr_requeue)[home(t, from)],
                from,
            ) == w.skip((woken + moved) as int)
        }),
{
    let q = t[home(t, from)];
    let w = waiters(q, from);
    let woken = at_most(nr_wake, w.len());
    let moved = at_most(nr_requeue, (w.len() - woken) as nat);
    let q1 = remaining(q, from, nr_wake);
    lemma_scan_fifo(q, from, nr_wake);
    lemma_scan_fifo(q1, from, nr_requeue);
    assert(requeue_moved(t, from, nr_wake, nr_requeue) =~= w.subrange(
        woken as int,
        (woken + moved) as int,
    ));
    assert(w.skip(woken as int).skip(moved as int) =~= w.skip((woken + moved) as int));
}

/// A requeue from the key `from` to another key `to` leaves queued on `from`,
/// in their order, the waiters that it neither woke nor moved, and queues the
/// moved ones on `to`, in their order, behind those that waited on `to`.
pub proof fn law_requeue_is_fifo(
    t: Seq<Seq<FutexQ>>,
    from: FutexKey,
    to: FutexKey,
    nr_wake: nat,
    nr_requeue: nat,
)
    requires
        t.len() > 0,
        from != to,
    ensures
        ({
            let w = waiters(t[home(t, from)], from);
            let woken = at_most(nr_wake, w.len());
            let moved = at_most(nr_requeue, (w.len() - woken) as nat);
            let after = table_requeue(t, from, to, nr_wake, nr_requeue);
            &&& waiters(after[home(t, from)], from) == w.skip((woken + moved) as int)
            &&& waiters(after[home(t, to)], to) == waiters(t[home(t, to)], to) + rekeyed(
                w.subrange(woken as int, (woken + moved) as int),
                to,
            )
        }),
{
    let h1 = home(t, from);
    let h2 = home(t, to);
    let q = t[h1];
    let q1 = remaining(q, from, nr_wake);
    let q2 = remaining(q1, from, nr_requeue);
    let t2 = table_dequeue(table_dequeue(t, from, nr_wake), from, nr_requeue);
    let carried = requeue_moved(t, from, nr_wake, nr_requeue);
    let after = table_requeue(t, from, to, nr_wake, nr_requeue);
    let added = rekeyed(carried, to);
    law_requeue_counts(t, from, nr_wake, nr_requeue);
    lemma_rekeyed_waiters(carried, to, from);
    assert(t2[h1] == q2);
    assert(after[h2] == t2[h2] + added);
    Seq::filter_distributes_over_add(t2[h2], added, waits_on(to));
    Seq::filter_distributes_over_add(t2[h2], added, waits_on(from));
    if h1 == h2 {
        assert forall|e: FutexQ| #[trigger] waits_on(to)(e) implies e.key != from by {}
        lemma_scan_keeps(q, from, nr_wake, waits_on(to));
        lemma_scan_keeps(q1, from, nr_requeue, waits_on(to));
        assert(waiters(q2, from) + Seq::<FutexQ>::empty() =~= waiters(q2, from));
    } else {
        assert(t2[h2] == t[h2]);
        assert(after[h1] == q2);
    }
}

/// A requeue neither wakes nor moves a waiter on a key `other` that is
/// neither of its two keys, whichever buckets the three keys fall into: the
/// waiters on `other` are queued after the requeue as they were before it.
pub proof fn law_requeue_spares_other_keys(
    t: Seq<Seq<FutexQ>>,
    from: FutexKey,
    to: FutexKey,
    other: FutexKey,
    nr_wake: nat,
    nr_requeue: nat,
)
    requires
        t.len() > 0,
        other != from,
        other != to,
    ensures
        waiters(table_requeue(t, from, to, nr_wake, nr_requeue)[home(t, other)], other) == waiters(
            t[home(t, other)],
            other,
        ),
{
    let h1 = home(t, from);
    let h2 = home(t, to);
    let h = home(t, other);
    let q = t[h1];
    let q1 = remaining(q, from, nr_wake);
    let t2 = table_dequeue(table_dequeue(t, from, nr_wake), from, nr_requeue);
    let carried = requeue_moved(t, from, nr_wake, nr_requeue);
    let added = rekeyed(carried, to);
    let after = table_requeue(t, from, to, nr_wake, nr_requeue);
    if h == h1 {
        assert forall|e: FutexQ| #[trigger] waits_on(other)(e) implies e.key != from by {}
        lemma_scan_keeps(q, from, nr_wake, waits_on(other));
        lemma_scan_keeps(q1, from, nr_requeue, waits_on(other));
    }
    assert(waiters(t2[h], other) == waiters(t[h], other));
    if h == h2 {
        lemma_rekeyed_waiters(carried, to, other);
        Seq::filter_distributes_over_add(t2[h], added, waits_on(other));
        assert(waiters(t2[h], other) + Seq::<FutexQ>::empty() =~= waiters(t2[h], other));
    }
}

/// A requeue from a key to the same key queues the tasks of the moved
/// waiters again on that key, in their order, behind the waiters that it
/// neither woke nor moved.
pub proof fn law_requeue_to_same_key(
    t: Seq<Seq<FutexQ>>,
    key: FutexKey,
    nr_wake: nat,
    nr_requeue: nat,
)
    requires
        t.len() > 0,
    ensures
        ({
            let w = waiters(t[home(t, key)], key);
            let woken = at_most(nr_wake, w.len());
            let moved = at_most(nr_requeue, (w.len() - woken) as nat);
            let after = table_requeue(t, key, key, nr_wake, nr_requeue);
            waiters(after[home(t, key)], key) == w.skip((woken + moved) as int) + rekeyed(
                w.subrange(woken as int, (woken + moved) as int),
                key,
            )
        }),
{
    let h = home(t, key);
    let t2 = table_dequeue(table_dequeue(t, key, nr_wake), key, nr_requeue);
    let carried = requeue_moved(t, key, nr_wake, nr_requeue);
    let added = rekeyed(carried, key);
    law_requeue_counts(t, key, nr_wake, nr_requeue);
    lemma_rekeyed_waiters(carried, key, key);
    Seq::filter_distributes_over_add(t2[h], added, waits_on(key));
}

/// A scan for the key of `entry`, with a limit above 0, of a queue in which
/// `entry` is the last entry and the only waiter on its key takes out that
/// entry and leaves the queue as it was before the entry came.
pub proof fn lemma_scan_sole_waiter(q: Seq<FutexQ>, entry: FutexQ, n: nat)
    requires
        n > 0,
        forall|j: int| 0 <= j < q.len() ==> (#[trigger] q[j]).key != entry.key,
    ensures
        dequeued(q.push(entry), entry.key, n) == seq![entry],
        remaining(q.push(entry), entry.key, n) == q,
    decreases q.len(),
{
    let full = q.push(entry);
    if q.len() == 0 {
        let none = full.drop_first();
        assert(none.len() == 0);
        assert(full[0] == entry);
        assert(dequeued(none, entry.key, (n - 1) as nat) =~= Seq::<FutexQ>::empty());
        assert(remaining(none, entry.key, (n - 1) as nat) =~= Seq::<FutexQ>::empty());
        assert(dequeued(full, entry.key, n) =~= seq![entry]);
        assert(remaining(full, entry.key, n) =~= q);
    } else {
        let tail = q.drop_first();
        assert(full[0] == q[0]);
        assert(full.drop_first() =~= tail.push(entry));
        assert forall|j: int| 0 <= j < tail.len() implies (#[trigger] tail[j]).key
            != entry.key by {
            assert(tail[j] == q[j + 1]);
        }
        lemma_scan_sole_waiter(tail, entry, n);
        assert(remaining(full, entry.key, n) =~= q);
    }
}

/// A task calls wait on a key that has no waiter, and a wake on that key
/// with the limit 1 follows. The wake takes out the entry of the task and
/// nothing else, so that the table is again as it was before the wait; the
/// task then finds that it was woken, whatever its timer and its signals
/// say, and leaves no entry behind.
pub proof fn law_wait_then_wake(
    t: Seq<Seq<FutexQ>>,
    key: FutexKey,
    task: u64,
    timed: bool,
    timer_pending: bool,
    signal_pending: bool,
)
    requires
        t.len() > 0,
        waiters(t[home(t, key)], key).len() == 0,
    ensures
        ({
            let entry = FutexQ { key, task, requeued: false };
            let waiting = table_enqueue(t, entry);
            let after = table_dequeue(waiting, key, 1);
            &&& dequeued(waiting[home(t, key)], key, 1) == seq![entry]
            &&& after == t
            &&& spec_resumed(
                after[home(t, key)].contains(entry),
                timed,
                timer_pending,
                signal_pending,
            ) == Resumed::Woken
            &&& table_remove(after, entry) == t
        }),
{
    let h = home(t, key);
    let q = t[h];
    let entry = FutexQ { key, task, requeued: false };
    let waiting = table_enqueue(t, entry);
    assert forall|j: int| 0 <= j < q.len() implies (#[trigger] q[j]).key != key by {
        if q[j].key == key {
            q.lemma_filter_contains(waits_on(key), j);
        }
    }
    lemma_scan_sole_waiter(q, entry, 1);
    assert(waiting[h] == q.push(entry));
    assert(table_dequeue(waiting, key, 1) =~= t);
    assert(!q.contains(entry));
    assert(table_remove(t, entry) =~= t);
}

/// A task waits with a deadline, having no entry of an earlier wait on the
/// key left in the bucket, and is not woken. Once the timer has fired it
/// finds that the wait timed out, and its entry is gone from the bucket.
pub proof fn law_timeout_leaves_no_entry(
    t: Seq<Seq<FutexQ>>,
    key: FutexKey,
    task: u64,
    signal_pending: bool,
)
    requires
        t.len() > 0,
        !t[home(t, key)].contains(FutexQ { key, task, requeued: false }),
    ensures
        ({
            let entry = FutexQ { key, task, requeued: false };
            let waiting = table_enqueue(t, entry);
            &&& spec_resumed(waiting[home(t, key)].contains(entry), true, false, signal_pending)
                == Resumed::TimedOut
            &&& table_remove(waiting, entry) == t
        }),
{
    let h = home(t, key);
    let q = t[h];
    let entry = FutexQ { key, task, requeued: false };
    let full = q.push(entry);
    lemma_position(full, entry);
    let p = position(full, entry);
    assert(full[q.len() as int] == entry);
    assert(full.contains(entry));
    assert(p == q.len()) by {
        if p < q.len() {
            assert(q[p] == full[p]);
            assert(q.contains(entry));
        }
    }
    assert(full.remove(p) =~= q);
    assert(table_remove(table_enqueue(t, entry), entry) =~= t);
}

/// The queue `q` holds `entry` once at most.
pub open spec fn at_most_once(q: Seq<FutexQ>, entry: FutexQ) -> bool {
    forall|a: int, b: int|
        0 <= a < q.len() && 0 <= b < q.len() && #[trigger] q[a] == entry && #[trigger] q[b]
            == entry ==> a == b
}

/// An entry that a queue holds once is gone from the queue when a scan has
/// taken it out, and what the scan leaves holds no entry twice that the
/// queue held once.
pub proof fn lemma_scan_takes_for_good(q: Seq<FutexQ>, key: FutexKey, n: nat, entry: FutexQ)
    requires
        at_most_once(q, entry),
    ensures
        at_most_once(remaining(q, key, n), entry),
        dequeued(q, key, n).contains(entry) ==> !remaining(q, key, n).contains(entry),
    decreases q.len(),
{
    if n == 0 || q.len() == 0 {
        assert(!dequeued(q, key, n).contains(entry));
    } else {
        let tail = q.drop_first();
        let m: nat = if q[0].key == key {
            (n - 1) as nat
        } else {
            n
        };
        let taken = dequeued(q, key, n);
        let left = remaining(q, key, n);
        let taken_tail = dequeued(tail, key, m);
        let left_tail = remaining(tail, key, m);
        assert forall|a: int, b: int|
            0 <= a < tail.len() && 0 <= b < tail.len() && #[trigger] tail[a] == entry
                && #[trigger] tail[b] == entry implies a == b by {
            assert(q[a + 1] == entry && q[b + 1] == entry);
        }
        lemma_scan_takes_for_good(tail, key, m, entry);
        lemma_scan_members(tail, key, m);
        // an entry of the tail stands in the queue one place further on
        assert forall|e: FutexQ| tail.contains(e) && q[0] == entry implies e != entry by {
            let k = choose|k: int| 0 <= k < tail.len() && tail[k] == e;
            assert(q[k + 1] == e);
            if e == entry {
                assert(q[0] == entry && q[k + 1] == entry);
            }
        }
        if q[0].key == key {
            assert(left == left_tail);
            if taken.contains(entry) {
                let j = choose|j: int| 0 <= j < taken.len() && taken[j] == entry;
                if j == 0 {
                    assert(q[0] == entry);
                    if left_tail.contains(entry) {
                        let b = choose|b: int| 0 <= b < left_tail.len() && left_tail[b] == entry;
                        assert(tail.contains(left_tail[b]));
                    }
                } else {
                    assert(taken_tail[j - 1] == entry);
                    assert(taken_tail.contains(entry));
                }
            }
        } else {
            assert(taken == taken_tail);
            assert(q[0] != entry || !taken.contains(entry)) by {
                if taken.contains(entry) {
                    let j = choose|j: int| 0 <= j < taken_tail.len() && taken_tail[j] == entry;
                    assert(taken_tail[j].key == key);
                }
            }
            assert forall|a: int, b: int|
                0 <= a < left.len() && 0 <= b < left.len() && #[trigger] left[a] == entry
                    && #[trigger] left[b] == entry implies a == b by {
                if a > 0 {
                    assert(left[a] == left_tail[a - 1]);
                    assert(tail.contains(left_tail[a - 1]));
                }
                if b > 0 {
                    assert(left[b] == left_tail[b - 1]);
                    assert(tail.contains(left_tail[b - 1]));
                }
                if a == 0 && b > 0 {
                    assert(q[0] == entry);
                }
                if b == 0 && a > 0 {
                    assert(q[0] == entry);
                }
            }
            if taken.contains(entry) && left.contains(entry) {
                let b = choose|b: int| 0 <= b < left.len() && left[b] == entry;
                assert(b > 0);
                assert(left[b] == left_tail[b - 1]);
                assert(left_tail.contains(entry));
            }
        }
    }
}

/// A waiter whose entry a wake has taken out finds that it was woken,
/// whatever its timer and its signals say, and the table stays as the wake
/// left it.
pub proof fn law_woken_waiter_succeeds(
    t: Seq<Seq<FutexQ>>,
    key: FutexKey,
    n: nat,
    task: u64,
    timed: bool,
    timer_pending: bool,
    signal_pending: bool,
)
    requires
        t.len() > 0,
        at_most_once(t[home(t, key)], FutexQ { key, task, requeued: false }),
        dequeued(t[home(t, key)], key, n).contains(FutexQ { key, task, requeued: false }),
    ensures
        ({
            let entry = FutexQ { key, task, requeued: false };
            let after = table_dequeue(t, key, n);
            &&& spec_resumed(
                after[home(t, key)].contains(entry),
                timed,
                timer_pending,
                signal_pending,
            ) == Resumed::Woken
            &&& table_remove(after, entry) == after
        }),
{
    let entry = FutexQ { key, task, requeued: false };
    let after = table_dequeue(t, key, n);
    lemma_scan_takes_for_good(t[home(t, key)], key, n, entry);
    assert(table_remove(after, entry) =~= after);
}

/// A waiter whose entry a requeue has moved finds that the wait succeeded,
/// whatever its timer and its signals say, and whichever key the requeue
/// moved it to: another key in another bucket, another key in the same
/// bucket, or the same key. The entry that the requeue queued for the task
/// stays where the requeue put it.
pub proof fn law_requeued_waiter_succeeds(
    t: Seq<Seq<FutexQ>>,
    from: FutexKey,
    to: FutexKey,
    nr_wake: nat,
    nr_requeue: nat,
    task: u64,
    timed: bool,
    timer_pending: bool,
    signal_pending: bool,
)
    requires
        t.len() > 0,
        at_most_once(t[home(t, from)], FutexQ { key: from, task, requeued: false }),
        requeue_moved(t, from, nr_wake, nr_requeue).contains(
            FutexQ { key: from, task, requeued: false },
        ),
    ensures
        ({
            let entry = FutexQ { key: from, task, requeued: false };
            let after = table_requeue(t, from, to, nr_wake, nr_requeue);
            &&& spec_resumed(
                after[home(t, from)].contains(entry),
                timed,
                timer_pending,
                signal_pending,
            ) == Resumed::Woken
            &&& table_remove(after, entry) == after
            &&& after[home(t, to)].contains(FutexQ { key: to, task, requeued: true })
        }),
{
    let entry = FutexQ { key: from, task, requeued: false };
    let h1 = home(t, from);
    let h2 = home(t, to);
    let q = t[h1];
    let q1 = remaining(q, from, nr_wake);
    let q2 = remaining(q1, from, nr_requeue);
    let t2 = table_dequeue(table_dequeue(t, from, nr_wake), from, nr_requeue);
    let carried = requeue_moved(t, from, nr_wake, nr_requeue);
    let added = rekeyed(carried, to);
    let after = table_requeue(t, from, to, nr_wake, nr_requeue);
    lemma_scan_takes_for_good(q, from, nr_wake, entry);
    lemma_scan_takes_for_good(q1, from, nr_requeue, entry);
    assert(t2[h1] == q2);
    assert(!q2.contains(entry));
    assert(after[h2] == t2[h2] + added);
    assert(!after[h1].contains(entry)) by {
        if after[h1].contains(entry) {
            let k = choose|k: int| 0 <= k < after[h1].len() && after[h1][k] == entry;
            if h1 == h2 {
                if k < q2.len() {
                    assert(q2[k] == entry);
                } else {
                    assert(added[k - q2.len()].requeued);
                }
            } else {
                assert(q2[k] == entry);
            }
        }
    }
    assert(table_remove(after, entry) =~= after);
    let c = choose|c: int| 0 <= c < carried.len() && carried[c] == entry;
    assert(added[c] == FutexQ { key: to, task, requeued: true });
    assert(after[h2][t2[h2].len() + c] == added[c]);
}

/// Whether `task` has an entry anywhere in the table `t`.
pub open spec fn waiting(t: Seq<Seq<FutexQ>>, task: u64) -> bool {
    exists|i: int, j: int|
        0 <= i < t.len() && 0 <= j < t[i].len() && (#[trigger] t[i][j]).task == task
}

/// No task has two entries in the queue `q`.
pub open spec fn one_entry_each_in(q: Seq<FutexQ>) -> bool {
    forall|a: int, b: int|
        0 <= a < q.len() && 0 <= b < q.len() && (#[trigger] q[a]).task == (#[trigger] q[b]).task
            ==> a == b
}

/// No task has two entries in the table `t`, in one bucket or in two.
pub open spec fn one_entry_each(t: Seq<Seq<FutexQ>>) -> bool {
    forall|i1: int, j1: int, i2: int, j2: int|
        0 <= i1 < t.len() && 0 <= j1 < t[i1].len() && 0 <= i2 < t.len() && 0 <= j2 < t[i2].len()
            && (#[trigger] t[i1][j1]).task == (#[trigger] t[i2][j2]).task ==> i1 == i2 && j1
            == j2
}

/// In a queue in which no task has two entries, a scan takes out and leaves
/// entries of different tasks, and no task has two entries in what it takes
/// or in what it leaves.
pub proof fn lemma_scan_one_entry_each(q: Seq<FutexQ>, key: FutexKey, n: nat)
    requires
        one_entry_each_in(q),
    ensures
        one_entry_each_in(dequeued(q, key, n)),
        one_entry_each_in(remaining(q, key, n)),
        forall|a: int, b: int|
            0 <= a < dequeued(q, key, n).len() && 0 <= b < remaining(q, key, n).len() ==> (
            #[trigger] dequeued(q, key, n)[a]).task != (#[trigger] remaining(q, key, n)[b]).task,
    decreases q.len(),
{
    if n == 0 || q.len() == 0 {
    } else {
        let tail = q.drop_first();
        let m: nat = if q[0].key == key {
            (n - 1) as nat
        } else {
            n
        };
        let taken = dequeued(q, key, n);
        let left = remaining(q, key, n);
        let taken_tail = dequeued(tail, key, m);
        let left_tail = remaining(tail, key, m);
        assert forall|a: int, b: int|
            0 <= a < tail.len() && 0 <= b < tail.len() && (#[trigger] tail[a]).task == (
            #[trigger] tail[b]).task implies a == b by {
            assert(tail[a] == q[a + 1]);
            assert(tail[b] == q[b + 1]);
        }
        lemma_scan_one_entry_each(tail, key, m);
        lemma_scan_members(tail, key, m);
        assert forall|e: FutexQ| tail.contains(e) implies e.task != q[0].task by {
            let k = choose|k: int| 0 <= k < tail.len() && tail[k] == e;
            assert(q[k + 1] == e);
        }
        if q[0].key == key {
            assert(left == left_tail);
            assert forall|a: int| 0 < a < taken.len() implies (#[trigger] taken[a])
                == taken_tail[a - 1] && tail.contains(taken[a]) by {}
            assert(taken[0] == q[0]);
            assert forall|b: int| 0 <= b < left.len() implies tail.contains(
                #[trigger] left[b],
            ) by {}
            assert forall|a: int, b: int|
                0 <= a < taken.len() && 0 <= b < taken.len() && (#[trigger] taken[a]).task == (
                #[trigger] taken[b]).task implies a == b by {
                if a > 0 && b > 0 {
                    assert(taken_tail[a - 1].task == taken_tail[b - 1].task);
                }
            }
            assert forall|a: int, b: int|
                0 <= a < taken.len() && 0 <= b < left.len() implies (#[trigger] taken[a]).task
                != (#[trigger] left[b]).task by {
                if a > 0 {
                    assert(taken_tail[a - 1].task != left_tail[b].task);
                }
            }
        } else {
            assert(taken == taken_tail);
            assert forall|b: int| 0 < b < left.len() implies (#[trigger] left[b]) == left_tail[b
                - 1] && tail.contains(left[b]) by {}
            assert(left[0] == q[0]);
            assert forall|a: int| 0 <= a < taken.len() implies tail.contains(
                #[trigger] taken[a],
            ) by {}
            assert forall|a: int, b: int|
                0 <= a < left.len() && 0 <= b < left.len() && (#[trigger] left[a]).task == (
                #[trigger] left[b]).task implies a == b by {
                if a > 0 && b > 0 {
                    assert(left_tail[a - 1].task == left_tail[b - 1].task);
                }
            }
            assert forall|a: int, b: int|
                0 <= a < taken.len() && 0 <= b < left.len() implies (#[trigger] taken[a]).task
                != (#[trigger] left[b]).task by {
                if b > 0 {
                    assert(taken_tail[a].task != left_tail[b - 1].task);
                }
            }
        }
    }
}

/// In a table in which no task has two entries, no task has two entries in
/// one bucket.
proof fn lemma_bucket_one_entry_each(t: Seq<Seq<FutexQ>>, h: int)
    requires
        one_entry_each(t),
        0 <= h < t.len(),
    ensures
        one_entry_each_in(t[h]),
{
    let q = t[h];
    assert forall|a: int, b: int|
        0 <= a < q.len() && 0 <= b < q.len() && (#[trigger] q[a]).task == (#[trigger] q[b]).task
        implies a == b by {
        assert(t[h][a].task == t[h][b].task);
    }
}

/// A table in which no task has two entries stays so when one bucket gives
/// way to a queue of entries that stood in that bucket, none of them twice.
proof fn lemma_shrunk_bucket(t: Seq<Seq<FutexQ>>, h: int, left: Seq<FutexQ>)
    requires
        one_entry_each(t),
        0 <= h < t.len(),
        one_entry_each_in(left),
        forall|b: int| 0 <= b < left.len() ==> t[h].contains(#[trigger] left[b]),
    ensures
        one_entry_each(t.update(h, left)),
{
    let u = t.update(h, left);
    assert forall|i1: int, j1: int, i2: int, j2: int|
        0 <= i1 < u.len() && 0 <= j1 < u[i1].len() && 0 <= i2 < u.len() && 0 <= j2 < u[i2].len()
            && (#[trigger] u[i1][j1]).task == (#[trigger] u[i2][j2]).task implies i1 == i2 && j1
        == j2 by {
        let k1 = if i1 == h {
            assert(t[h].contains(left[j1]));
            choose|k: int| 0 <= k < t[h].len() && t[h][k] == left[j1]
        } else {
            j1
        };
        let k2 = if i2 == h {
            assert(t[h].contains(left[j2]));
            choose|k: int| 0 <= k < t[h].len() && t[h][k] == left[j2]
        } else {
            j2
        };
        assert(t[i1][k1].task == t[i2][k2].task);
        if i1 == h && i2 == h {
            assert(left[j1].task == left[j2].task);
        }
    }
}

/// A task that is queued nowhere has one entry after it was queued, and so
/// has every other task, if none had two before.
pub proof fn law_enqueue_keeps_one_entry_each(t: Seq<Seq<FutexQ>>, entry: FutexQ)
    requires
        t.len() > 0,
        one_entry_each(t),
        !waiting(t, entry.task),
    ensures
        one_entry_each(table_enqueue(t, entry)),
{
    let h = home(t, entry.key);
    let u = table_enqueue(t, entry);
    assert forall|i1: int, j1: int, i2: int, j2: int|
        0 <= i1 < u.len() && 0 <= j1 < u[i1].len() && 0 <= i2 < u.len() && 0 <= j2 < u[i2].len()
            && (#[trigger] u[i1][j1]).task == (#[trigger] u[i2][j2]).task implies i1 == i2 && j1
        == j2 by {
        let new1 = i1 == h && j1 == t[h].len();
        let new2 = i2 == h && j2 == t[h].len();
        if !new1 {
            assert(u[i1][j1] == t[i1][j1]);
        }
        if !new2 {
            assert(u[i2][j2] == t[i2][j2]);
        }
        if new1 && !new2 {
            assert(t[i2][j2].task == entry.task);
        }
        if new2 && !new1 {
            assert(t[i1][j1].task == entry.task);
        }
    }
}

/// No wake gives a task a second entry.
pub proof fn law_wake_keeps_one_entry_each(t: Seq<Seq<FutexQ>>, key: FutexKey, n: nat)
    requires
        t.len() > 0,
        one_entry_each(t),
    ensures
        one_entry_each(table_dequeue(t, key, n)),
{
    let h = home(t, key);
    lemma_bucket_one_entry_each(t, h);
    lemma_scan_one_entry_each(t[h], key, n);
    lemma_scan_members(t[h], key, n);
    lemma_shrunk_bucket(t, h, remaining(t[h], key, n));
}

/// No resumed waiter gives a task a second entry when it takes out its own.
pub proof fn law_remove_keeps_one_entry_each(t: Seq<Seq<FutexQ>>, entry: FutexQ)
    requires
        t.len() > 0,
        one_entry_each(t),
    ensures
        one_entry_each(table_remove(t, entry)),
{
    let h = home(t, entry.key);
    let q = t[h];
    lemma_position(q, entry);
    if q.contains(entry) {
        let p = position(q, entry);
        let left = q.remove(p);
        lemma_bucket_one_entry_each(t, h);
        assert forall|b: int| 0 <= b < left.len() implies q.contains(#[trigger] left[b]) by {
            if b < p {
                assert(q[b] == left[b]);
            } else {
                assert(q[b + 1] == left[b]);
            }
        }
        assert forall|a: int, b: int|
            0 <= a < left.len() && 0 <= b < left.len() && (#[trigger] left[a]).task == (
            #[trigger] left[b]).task implies a == b by {
            let ka = if a < p {
                a
            } else {
                a + 1
            };
            let kb = if b < p {
                b
            } else {
                b + 1
            };
            assert(q[ka].task == q[kb].task);
        }
        lemma_shrunk_bucket(t, h, left);
    } else {
        assert(table_remove(t, entry) =~= t);
    }
}

/// No requeue gives a task a second entry: the moved waiters leave their
/// bucket before they are queued again.
pub proof fn law_requeue_keeps_one_entry_each(
    t: Seq<Seq<FutexQ>>,
    from: FutexKey,
    to: FutexKey,
    nr_wake: nat,
    nr_requeue: nat,
)
    requires
        t.len() > 0,
        one_entry_each(t),
    ensures
        one_entry_each(table_requeue(t, from, to, nr_wake, nr_requeue)),
{
    let h1 = home(t, from);
    let h2 = home(t, to);
    let q = t[h1];
    let q1 = remaining(q, from, nr_wake);
    let q2 = remaining(q1, from, nr_requeue);
    let t1 = table_dequeue(t, from, nr_wake);
    let t2 = table_dequeue(t1, from, nr_requeue);
    let carried = requeue_moved(t, from, nr_wake, nr_requeue);
    let added = rekeyed(carried, to);
    let u = table_requeue(t, from, to, nr_wake, nr_requeue);
    law_wake_keeps_one_entry_each(t, from, nr_wake);
    law_wake_keeps_one_entry_each(t1, from, nr_requeue);
    lemma_bucket_one_entry_each(t, h1);
    lemma_scan_one_entry_each(q, from, nr_wake);
    lemma_scan_one_entry_each(q1, from, nr_requeue);
    lemma_scan_members(q, from, nr_wake);
    lemma_scan_members(q1, from, nr_requeue);
    assert(t2[h1] == q2);
    assert(u == t2.update(h2, t2[h2] + added));
    let old_len = t2[h2].len() as int;
    // every moved entry stood in the bucket of `from` before the requeue
    assert forall|c: int| 0 <= c < carried.len() implies q.contains(#[trigger] carried[c]) by {
        assert(q1.contains(carried[c]));
        let k = choose|k: int| 0 <= k < q1.len() && q1[k] == carried[c];
        assert(q.contains(q1[k]));
    }
    // no entry that the two scans left belongs to the task of a moved entry
    assert forall|c: int, i: int, j: int|
        0 <= c < carried.len() && 0 <= i < t2.len() && 0 <= j < t2[i].len() implies (
        #[trigger] carried[c]).task != (#[trigger] t2[i][j]).task by {
        if i == h1 {
            assert(carried[c].task != q2[j].task);
        } else {
            assert(t2[i][j] == t[i][j]);
            let k = choose|k: int| 0 <= k < q.len() && q[k] == carried[c];
            assert(t[h1][k].task == carried[c].task);
            if carried[c].task == t[i][j].task {
                assert(t[h1][k].task == t[i][j].task);
            }
        }
    }
    assert forall|i1: int, j1: int, i2: int, j2: int|
        0 <= i1 < u.len() && 0 <= j1 < u[i1].len() && 0 <= i2 < u.len() && 0 <= j2 < u[i2].len()
            && (#[trigger] u[i1][j1]).task == (#[trigger] u[i2][j2]).task implies i1 == i2 && j1
        == j2 by {
        let new1 = i1 == h2 && j1 >= old_len;
        let new2 = i2 == h2 && j2 >= old_len;
        if new1 {
            assert(u[i1][j1].task == carried[j1 - old_len].task);
        } else {
            assert(u[i1][j1] == t2[i1][j1]);
        }
        if new2 {
            assert(u[i2][j2].task == carried[j2 - old_len].task);
        } else {
            assert(u[i2][j2] == t2[i2][j2]);
        }
        if new1 && new2 {
            assert(carried[j1 - old_len].task == carried[j2 - old_len].task);
        } else if new1 {
            assert(carried[j1 - old_len].task != t2[i2][j2].task);
        } else if new2 {
            assert(carried[j2 - old_len].task != t2[i1][j1].task);
        } else {
            assert(t2[i1][j1].task == t2[i2][j2].task);
        }
    }
}

} // verus!
