//! Futex keys and queue entries.

use vstd::prelude::*;
use memory_addr::MemoryAddr;
use memory_addr::VirtAddr;

verus! {

/// Number of buckets of the default futex table.
pub const FUTEX_HASH_SIZE: usize = 256;

/// Size in bytes of the page that a futex word lies in.
pub const PAGE_SIZE: usize = 4096;

/// Futexes are matched on equal values of this key.
///
/// Only private mappings are keyed: the key of a word in a shared mapping is
/// derived as if the mapping were private.
#[derive(Clone, Copy, Debug, PartialEq, Eq, Structural, PartialOrd, Ord, Hash)]
pub struct FutexKey {
    /// Identity of the address space that the word is mapped in.
    pub ptr: usize,
    /// Base address of the page that holds the word.
    pub word: usize,
    /// Offset of the word within its page. It is a multiple of 4; the two low
    /// order bits tell the kind of key, and 00 is a private futex.
    pub offset: u32,
}

/// The bucket that `key` falls into, in a table of `size` buckets.
pub open spec fn spec_bucket_index(key: FutexKey, size: int) -> int {
    (key.ptr + key.offset + key.word) % size
}

impl FutexKey {
    /// The key with the given fields.
    pub fn new(ptr: usize, word: usize, offset: u32) -> (key: Self)
        ensures
            key == (FutexKey { ptr, word, offset }),
    {
        Self { ptr, word, offset }
    }

    /// The bucket of this key in a table of `size` buckets.
    pub fn bucket_index(&self, size: usize) -> (index: usize)
        requires
            size > 0,
        ensures
            index == spec_bucket_index(*self, size as int),
            index < size,
    {
        let sum: u128 = self.ptr as u128 + self.offset as u128 + self.word as u128;
        (sum % (size as u128)) as usize
    }

    /// The bucket of this key in a table of the default size.
    pub fn futex_hash(&self) -> (hash: usize)
        ensures
            hash == spec_bucket_index(*self, FUTEX_HASH_SIZE as int),
            hash < FUTEX_HASH_SIZE,
    {
        self.bucket_index(FUTEX_HASH_SIZE)
    }
}

/// One blocked waiter: the futex it waits on and the task that waits.
///
/// The entry that a wait queues is that wait's own: the waiter looks for it
/// when it runs again. A requeue takes such an entry out for good and queues
/// another one for the task, which no waiter looks for.
#[derive(Clone, Copy, Debug, PartialEq, Eq, Structural)]
pub struct FutexQ {
    /// The key of the futex
    pub key: FutexKey,
    /// The task that is waiting on the futex
    pub task: u64,
    /// Whether a requeue queued the entry, and not the wait of the task.
    pub requeued: bool,
}

impl FutexQ {
    /// The entry that a wait of `task` on the futex of `key` queues.
    pub fn new(key: FutexKey, task: u64) -> (entry: Self)
        ensures
            entry == (FutexQ { key, task, requeued: false }),
    {
        Self { key, task, requeued: false }
    }

    /// Check if the entry waits on the futex of `key`
    pub fn match_key(&self, key: &FutexKey) -> (matches: bool)
        ensures
            matches == (self.key == *key),
    {
        self.key == *key
    }
}

/// `memory_addr::MemoryAddr::align_down_4k` on a `VirtAddr`: the greatest
/// multiple of the page size that is not above `addr`.
#[verifier::external_body]
fn page_base(addr: usize) -> (base: usize)
    ensures
        base == addr - addr % 4096,
{
    VirtAddr::from_usize(addr).align_down_4k().as_usize()
}

/// `memory_addr::MemoryAddr::align_offset_4k` on a `VirtAddr`: the offset of
/// `addr` within its page, which is `addr` modulo the page size.
#[verifier::external_body]
fn page_offset(addr: usize) -> (offset: usize)
    ensures
        offset == addr % 4096,
{
    VirtAddr::from_usize(addr).align_offset_4k()
}

/// The value of `offset` in the key of the word at `uaddr`.
pub open spec fn spec_key_offset(uaddr: usize) -> int {
    (uaddr % PAGE_SIZE) - (uaddr % 4)
}

/// The key of the futex word at `uaddr` in the address space `mm`.
pub open spec fn spec_futex_key(uaddr: usize, mm: usize) -> FutexKey {
    FutexKey {
        ptr: mm,
        word: (uaddr - uaddr % PAGE_SIZE) as usize,
        offset: spec_key_offset(uaddr) as u32,
    }
}

/// The key of the futex word at `uaddr`, for a task whose address space has
/// the identity `mm`.
///
/// For private mappings the key is `(mm, page of uaddr, offset in page)`, and
/// the two low order bits of the offset are 00. `flags` does not change the
/// key: a word in a shared mapping gets the key of a private one.
pub fn get_futex_key(uaddr: usize, flags: u32, mm: usize) -> (key: FutexKey)
    ensures
        key == spec_futex_key(uaddr, mm),
        key.word % PAGE_SIZE == 0,
        key.offset % 4 == 0,
        key.offset < PAGE_SIZE,
        key.word + key.offset <= uaddr < key.word + key.offset + 4,
{
    let in_page: usize = page_offset(uaddr);
    let offset: u32 = (in_page - in_page % 4) as u32;
    let word: usize = page_base(uaddr);
    FutexKey::new(mm, word, offset)
}

/// Holder for the location and length of a task's robust list.
#[derive(Debug)]
pub struct FutexRobustList {
    /// The location of the head of the robust list in user space
    pub head: usize,
    /// The length of the robust list
    pub len: usize,
}

impl FutexRobustList {
    /// Create a new robust list
    pub fn new(head: usize, len: usize) -> (list: Self)
        ensures
            list.head == head,
            list.len == len,
    {
        Self { head, len }
    }
}

impl Default for FutexRobustList {
    fn default() -> (list: Self)
        ensures
            list.head == 0,
            list.len == 0,
    {
        Self { head: 0, len: 0 }
    }
}

} // verus!
