//! The table of wait queues, and the scans over one queue.

use std::collections::VecDeque;
use vstd::prelude::*;
use crate::futex::{spec_bucket_index, FutexKey, FutexQ};

verus! {

/// The entries that a scan of `q` takes out: the waiters on `key`, in queue
/// order, until `n` are taken or the queue ends.
pub open spec fn dequeued(q: Seq<FutexQ>, key: FutexKey, n: nat) -> Seq<FutexQ>
    decreases q.len(),
{
    if n == 0 || q.len() == 0 {
        Seq::empty()
    } else if q[0].key == key {
        seq![q[0]] + dequeued(q.drop_first(), key, (n - 1) as nat)
    } else {
        dequeued(q.drop_first(), key, n)
    }
}

/// The queue that such a scan leaves: `q` without the first `n` waiters on
/// `key`, every other entry in its place.
pub open spec fn remaining(q: Seq<FutexQ>, key: FutexKey, n: nat) -> Seq<FutexQ>
    decreases q.len(),
{
    if n == 0 || q.len() == 0 {
        q
    } else if q[0].key == key {
        remaining(q.drop_first(), key, (n - 1) as nat)
    } else {
        seq![q[0]] + remaining(q.drop_first(), key, n)
    }
}

/// A scan takes out nothing more than the queue holds, and what it leaves and
/// what it takes make up the queue's length.
pub proof fn lemma_scan_len(q: Seq<FutexQ>, key: FutexKey, n: nat)
    ensures
        dequeued(q, key, n).len() <= n,
        dequeued(q, key, n).len() + remaining(q, key, n).len() == q.len(),
    decreases q.len(),
{
    if n == 0 || q.len() == 0 {
    } else if q[0].key == key {
        lemma_scan_len(q.drop_first(), key, (n - 1) as nat);
    } else {
        lemma_scan_len(q.drop_first(), key, n);
    }
}

/// Every entry that a scan takes out waits on `key` and stood in the queue;
/// every entry that it leaves stood in the queue too.
pub proof fn lemma_scan_members(q: Seq<FutexQ>, key: FutexKey, n: nat)
    ensures
        forall|j: int|
            0 <= j < dequeued(q, key, n).len() ==> (#[trigger] dequeued(q, key, n)[j]).key == key
                && q.contains(dequeued(q, key, n)[j]),
        forall|j: int|
            0 <= j < remaining(q, key, n).len() ==> q.contains(#[trigger] remaining(q, key, n)[j]),
    decreases q.len(),
{
    if n == 0 || q.len() == 0 {
        assert forall|j: int| 0 <= j < remaining(q, key, n).len() implies q.contains(
            #[trigger] remaining(q, key, n)[j],
        ) by {
            assert(q[j] == remaining(q, key, n)[j]);
        }
    } else {
        let tail = q.drop_first();
        let m: nat = if q[0].key == key {
            (n - 1) as nat
        } else {
            n
        };
        lemma_scan_members(tail, key, m);
        assert forall|e: FutexQ| tail.contains(e) implies q.contains(e) by {
            let k = choose|k: int| 0 <= k < tail.len() && tail[k] == e;
            assert(q[k + 1] == e);
        }
        assert(q.contains(q[0]));
        assert forall|j: int| 0 <= j < dequeued(q, key, n).len() implies (#[trigger] dequeued(
            q,
            key,
            n,
        )[j]).key == key && q.contains(dequeued(q, key, n)[j]) by {
            let e = dequeued(q, key, n)[j];
            if q[0].key == key && j == 0 {
                assert(e == q[0]);
            } else {
                let k = if q[0].key == key {
                    j - 1
                } else {
                    j
                };
                assert(e == dequeued(tail, key, m)[k]);
                assert(tail.contains(e));
            }
        }
        assert forall|j: int| 0 <= j < remaining(q, key, n).len() implies q.contains(
            #[trigger] remaining(q, key, n)[j],
        ) by {
            let e = remaining(q, key, n)[j];
            if q[0].key != key && j == 0 {
                assert(e == q[0]);
            } else {
                let k = if q[0].key != key {
                    j - 1
                } else {
                    j
                };
                assert(e == remaining(tail, key, m)[k]);
                assert(tail.contains(e));
            }
        }
    }
}

/// The place of the first entry of `q` that equals `entry`, or the length of
/// `q` where there is none.
pub open spec fn position(q: Seq<FutexQ>, entry: FutexQ) -> int
    decreases q.len(),
{
    if q.len() == 0 {
        0
    } else if q[0] == entry {
        0
    } else {
        1 + position(q.drop_first(), entry)
    }
}

/// `position` is the least index at which `entry` is queued, and it is an
/// index of the queue where the queue holds the entry, and only there.
pub proof fn lemma_position(q: Seq<FutexQ>, entry: FutexQ)
    ensures
        0 <= position(q, entry) <= q.len(),
        forall|k: int| 0 <= k < position(q, entry) ==> #[trigger] q[k] != entry,
        position(q, entry) < q.len() ==> q[position(q, entry)] == entry,
        position(q, entry) < q.len() <==> q.contains(entry),
    decreases q.len(),
{
    if q.len() == 0 || q[0] == entry {
    } else {
        let tail = q.drop_first();
        lemma_position(tail, entry);
        assert forall|k: int| 0 <= k < position(q, entry) implies #[trigger] q[k] != entry by {
            if k > 0 {
                assert(q[k] == tail[k - 1]);
            }
        }
    }
    let p = position(q, entry);
    if q.contains(entry) {
        let k = choose|k: int| 0 <= k < q.len() && q[k] == entry;
        if p > k {
            assert(q[k] != entry);
        }
    }
    if p < q.len() {
        assert(q[p] == entry);
    }
}

/// `q` without the first of its entries that equals `entry`.
pub open spec fn without(q: Seq<FutexQ>, entry: FutexQ) -> Seq<FutexQ> {
    if q.contains(entry) {
        q.remove(position(q, entry))
    } else {
        q
    }
}

/// The entries that a requeue queues for the tasks of `moved`: each waits on
/// `key`, and none is the entry of a wait.
pub open spec fn rekeyed(moved: Seq<FutexQ>, key: FutexKey) -> Seq<FutexQ> {
    moved.map_values(|e: FutexQ| FutexQ { key, task: e.task, requeued: true })
}

/// The bucket of `key` in the table `t`.
pub open spec fn home(t: Seq<Seq<FutexQ>>, key: FutexKey) -> int {
    spec_bucket_index(key, t.len() as int)
}

/// The table `t` with `entry` at the tail of the bucket of its key.
pub open spec fn table_enqueue(t: Seq<Seq<FutexQ>>, entry: FutexQ) -> Seq<Seq<FutexQ>> {
    t.update(home(t, entry.key), t[home(t, entry.key)].push(entry))
}

/// The table `t` after the first `n` waiters on `key` have left their bucket.
pub open spec fn table_dequeue(t: Seq<Seq<FutexQ>>, key: FutexKey, n: nat) -> Seq<Seq<FutexQ>> {
    t.update(home(t, key), remaining(t[home(t, key)], key, n))
}

/// The table `t` with an entry for each task of `moved`, in their order, at
/// the tail of the bucket of `key`, as waiters on `key`.
pub open spec fn table_append(t: Seq<Seq<FutexQ>>, key: FutexKey, moved: Seq<FutexQ>) -> Seq<
    Seq<FutexQ>,
> {
    t.update(home(t, key), t[home(t, key)] + rekeyed(moved, key))
}

/// The table `t` without `entry`: the first entry that equals it leaves the
/// bucket of its key.
pub open spec fn table_remove(t: Seq<Seq<FutexQ>>, entry: FutexQ) -> Seq<Seq<FutexQ>> {
    t.update(home(t, entry.key), without(t[home(t, entry.key)], entry))
}

/// A key's bucket is one of the table's.
pub proof fn lemma_home_in_range(t: Seq<Seq<FutexQ>>, key: FutexKey)
    requires
        t.len() > 0,
    ensures
        0 <= home(t, key) < t.len(),
{
}

/// Scans `bucket` from the front and takes out the first `limit` waiters on
/// `key`; returns them in queue order. Waiters on other keys stay where they
/// are.
pub fn dequeue_waiters(bucket: &mut VecDeque<FutexQ>, key: &FutexKey, limit: u32) -> (taken: Vec<
    FutexQ,
>)
    ensures
        taken@ == dequeued(old(bucket)@, *key, limit as nat),
        final(bucket)@ == remaining(old(bucket)@, *key, limit as nat),
{
    let mut taken: Vec<FutexQ> = Vec::new();
    let mut count: u32 = 0;
    let mut i: usize = 0;
    proof {
        let all = dequeued(bucket@, *key, limit as nat);
        let left = remaining(bucket@, *key, limit as nat);
        assert(bucket@.skip(0) =~= bucket@);
        assert(taken@ + all =~= all);
        assert(bucket@.take(0) + left =~= left);
    }
    while i < bucket.len() && count < limit
        invariant
            i <= bucket@.len(),
            count <= limit,
            count == taken@.len(),
            dequeued(old(bucket)@, *key, limit as nat) == taken@ + dequeued(
                bucket@.skip(i as int),
                *key,
                (limit - count) as nat,
            ),
            remaining(old(bucket)@, *key, limit as nat) == bucket@.take(i as int) + remaining(
                bucket@.skip(i as int),
                *key,
                (limit - count) as nat,
            ),
        decreases bucket@.len() - i,
    {
        let ghost before = bucket@;
        let ghost rest = before.skip(i as int);
        assert(rest.len() > 0);
        assert(rest[0] == before[i as int]);
        if bucket[i].match_key(key) {
            let removed = bucket.remove(i);
            let entry = removed.unwrap();
            taken.push(entry);
            count = count + 1;
            proof {
                assert(bucket@.skip(i as int) =~= rest.drop_first());
                assert(bucket@.take(i as int) =~= before.take(i as int));
                assert(taken@ + dequeued(rest.drop_first(), *key, (limit - count) as nat)
                    =~= taken@.drop_last() + (seq![rest[0]] + dequeued(
                    rest.drop_first(),
                    *key,
                    (limit - count) as nat,
                )));
            }
        } else {
            i = i + 1;
            proof {
                assert(bucket@.skip(i as int) =~= rest.drop_first());
                assert(bucket@.take(i as int) =~= before.take(i - 1).push(rest[0]));
                assert(before.take(i - 1) + (seq![rest[0]] + remaining(
                    rest.drop_first(),
                    *key,
                    (limit - count) as nat,
                )) =~= bucket@.take(i as int) + remaining(
                    rest.drop_first(),
                    *key,
                    (limit - count) as nat,
                ));
            }
        }
    }
    proof {
        let tail = bucket@.skip(i as int);
        assert(bucket@.take(i as int) + tail =~= bucket@);
        if count < limit {
            assert(tail.len() == 0);
        }
        assert(dequeued(tail, *key, (limit - count) as nat) =~= Seq::<FutexQ>::empty());
        assert(remaining(tail, *key, (limit - count) as nat) =~= tail);
        assert(taken@ + Seq::<FutexQ>::empty() =~= taken@);
    }
    taken
}


/// The futex table: a fixed number of wait queues, one per value of the hash.
///
/// A waiter on a key is queued in the bucket of that key, in the order in
/// which the waiters arrived.
pub struct FutexHashBuckets {
    buckets: Vec<VecDeque<FutexQ>>,
}

/// Every entry of the table `t` stands in the bucket of its key.
pub open spec fn placed(t: Seq<Seq<FutexQ>>) -> bool {
    forall|i: int, j: int|
        0 <= i < t.len() && 0 <= j < t[i].len() ==> spec_bucket_index(
            #[trigger] t[i][j].key,
            t.len() as int,
        ) == i
}

impl View for FutexHashBuckets {
    type V = Seq<Seq<FutexQ>>;

    /// The queues of the table, bucket by bucket, each from its head.
    closed spec fn view(&self) -> Seq<Seq<FutexQ>> {
        Seq::new(self.buckets@.len(), |i: int| self.buckets@[i]@)
    }
}

impl FutexHashBuckets {
    /// The table has a bucket, and every entry stands in the bucket of its key.
    pub open spec fn wf(&self) -> bool {
        &&& self@.len() > 0
        &&& placed(self@)
    }

    /// A table of `hash_size` empty buckets. A table without a bucket can be
    /// made, and nothing can be queued in it.
    pub fn new(hash_size: usize) -> (table: Self)
        ensures
            hash_size > 0 ==> table.wf(),
            table@.len() == hash_size,
            forall|i: int| 0 <= i < hash_size ==> table@[i] == Seq::<FutexQ>::empty(),
    {
        let mut buckets: Vec<VecDeque<FutexQ>> = Vec::new();
        let mut i: usize = 0;
        while i < hash_size
            invariant
                i <= hash_size,
                buckets@.len() == i,
                forall|k: int| 0 <= k < i ==> buckets@[k]@ == Seq::<FutexQ>::empty(),
            decreases hash_size - i,
        {
            buckets.push(VecDeque::new());
            i = i + 1;
        }
        Self { buckets }
    }

    /// No bucket holds more entries than a `usize` counts.
    pub proof fn lemma_bucket_len(&self, hash: int)
        requires
            0 <= hash < self@.len(),
        ensures
            self@[hash].len() <= usize::MAX,
    {
        assert(self@[hash].len() == self.buckets@[hash].len());
    }

    /// The number of buckets.
    pub fn hash_size(&self) -> (size: usize)
        ensures
            size == self@.len(),
    {
        self.buckets.len()
    }

    /// The queue of the bucket `hash`.
    pub fn get_bucket(&self, hash: usize) -> (bucket: &VecDeque<FutexQ>)
        requires
            hash < self@.len(),
        ensures
            bucket@ == self@[hash as int],
    {
        &self.buckets[hash]
    }

    /// Queues `entry` at the tail of the bucket of its key.
    pub fn enqueue(&mut self, entry: FutexQ)
        requires
            old(self).wf(),
        ensures
            final(self).wf(),
            final(self)@ == table_enqueue(old(self)@, entry),
    {
        let hash: usize = entry.key.bucket_index(self.buckets.len());
        let bucket = &mut self.buckets[hash];
        bucket.push_back(entry);
        assert(self@ =~= table_enqueue(old(self)@, entry));
    }

    /// Takes the first `limit` waiters on `key` out of its bucket, and returns
    /// them in queue order. Every other entry of the table stays in its place.
    pub fn dequeue(&mut self, key: &FutexKey, limit: u32) -> (taken: Vec<FutexQ>)
        requires
            old(self).wf(),
        ensures
            final(self).wf(),
            taken@ == dequeued(old(self)@[home(old(self)@, *key)], *key, limit as nat),
            final(self)@ == table_dequeue(old(self)@, *key, limit as nat),
    {
        let hash: usize = key.bucket_index(self.buckets.len());
        let bucket = &mut self.buckets[hash];
        let taken = dequeue_waiters(bucket, key, limit);
        proof {
            let before = old(self)@[hash as int];
            lemma_scan_members(before, *key, limit as nat);
            assert(self@ =~= table_dequeue(old(self)@, *key, limit as nat));
            assert forall|i: int, j: int| 0 <= i < self@.len() && 0 <= j < self@[i].len() implies home(
                self@,
                #[trigger] self@[i][j].key,
            ) == i by {
                if i == hash {
                    let e = self@[i][j];
                    assert(before.contains(e));
                    let k = choose|k: int| 0 <= k < before.len() && before[k] == e;
                    assert(old(self)@[i][k] == e);
                } else {
                    assert(self@[i][j] == old(self)@[i][j]);
                }
            }
        }
        taken
    }

    /// Queues the tasks of `moved`, in their order, at the tail of the bucket
    /// of `key`, as waiters on `key` that a requeue put there.
    pub fn append(&mut self, key: &FutexKey, moved: &Vec<FutexQ>)
        requires
            old(self).wf(),
        ensures
            final(self).wf(),
            final(self)@ == table_append(old(self)@, *key, moved@),
    {
        let hash: usize = key.bucket_index(self.buckets.len());
        let mut i: usize = 0;
        proof {
            assert(rekeyed(moved@.take(0), *key) =~= Seq::<FutexQ>::empty());
            assert(self@ =~= table_append(old(self)@, *key, moved@.take(0)));
        }
        while i < moved.len()
            invariant
                i <= moved@.len(),
                self.wf(),
                self@.len() == old(self)@.len(),
                hash == home(old(self)@, *key),
                self@ == table_append(old(self)@, *key, moved@.take(i as int)),
            decreases moved@.len() - i,
        {
            let ghost before = self@;
            let entry = FutexQ { key: *key, task: moved[i].task, requeued: true };
            self.enqueue(entry);
            i = i + 1;
            proof {
                assert(rekeyed(moved@.take(i as int), *key) =~= rekeyed(
                    moved@.take(i - 1),
                    *key,
                ).push(entry));
                assert(self@ =~= table_append(old(self)@, *key, moved@.take(i as int)));
            }
        }
        assert(moved@.take(i as int) =~= moved@);
    }

    /// Takes `entry` out of the bucket of its key, the first one where the
    /// bucket holds several that equal it, and says whether there was one.
    pub fn remove(&mut self, entry: &FutexQ) -> (found: bool)
        requires
            old(self).wf(),
        ensures
            final(self).wf(),
            found == old(self)@[home(old(self)@, entry.key)].contains(*entry),
            final(self)@ == table_remove(old(self)@, *entry),
    {
        let hash: usize = entry.key.bucket_index(self.buckets.len());
        let bucket = &mut self.buckets[hash];
        let ghost before = bucket@;
        proof {
            lemma_position(before, *entry);
        }
        let mut i: usize = 0;
        let mut found = false;
        while i < bucket.len() && !found
            invariant
                bucket@ == before,
                i <= before.len(),
                !found ==> forall|k: int| 0 <= k < i ==> #[trigger] before[k] != *entry,
                found ==> i < before.len() && i == position(before, *entry),
                0 <= position(before, *entry) <= before.len(),
                forall|k: int| 0 <= k < position(before, *entry) ==> #[trigger] before[k] != *entry,
                position(before, *entry) < before.len() ==> before[position(before, *entry)]
                    == *entry,
            decreases before.len() - i + (if found { 0int } else { 1int }),
        {
            if bucket[i] == *entry {
                found = true;
                proof {
                    let p = position(before, *entry);
                    if p < i {
                        assert(before[p] == *entry);
                    }
                    if i < p {
                        assert(before[i as int] != *entry);
                    }
                }
            } else {
                i = i + 1;
            }
        }
        if found {
            let _ = bucket.remove(i);
        } else {
            proof {
                let p = position(before, *entry);
                if p < before.len() {
                    assert(before[p] == *entry);
                }
            }
        }
        proof {
            assert(self@ =~= table_remove(old(self)@, *entry));
            assert forall|a: int, b: int| 0 <= a < self@.len() && 0 <= b < self@[a].len() implies home(
                self@,
                #[trigger] self@[a][b].key,
            ) == a by {
                if a == hash && found {
                    if b < i {
                        assert(self@[a][b] == old(self)@[a][b]);
                    } else {
                        assert(self@[a][b] == old(self)@[a][b + 1]);
                    }
                } else {
                    assert(self@[a][b] == old(self)@[a][b]);
                }
            }
        }
        found
    }
}

} // verus!
