use std::collections::VecDeque;

use axfutex::flags::FUTEX_PRIVATE_FLAG;
use axfutex::futex::{get_futex_key, FutexQ};
use axfutex::waitwake::{FutexError, Resumed};
use axfutex::{
    futex_wait, futex_wait_deadline, futex_wait_resumed, futex_wake, init_futex, FutexHashBuckets,
    FUTEX_HASH_SIZE,
};

const MM: usize = 0xffff_8000_0010_0000;
const ADDR: usize = 0x4000_1230;

fn waiting(queue: &VecDeque<FutexQ>) -> Vec<u64> {
    let mut out = Vec::new();
    for entry in queue.iter() {
        out.push(entry.task);
    }
    out
}

fn woken_tasks(entries: &Vec<FutexQ>) -> Vec<u64> {
    let mut out = Vec::new();
    for entry in entries.iter() {
        out.push(entry.task);
    }
    out
}

fn bucket_of(table: &FutexHashBuckets, addr: usize) -> Vec<u64> {
    let hash = get_futex_key(addr, FUTEX_PRIVATE_FLAG, MM).bucket_index(table.hash_size());
    waiting(table.get_bucket(hash))
}

fn queued_in_all(table: &FutexHashBuckets) -> usize {
    let mut count = 0;
    for hash in 0..table.hash_size() {
        count += table.get_bucket(hash).len();
    }
    count
}

#[test]
fn init_gives_an_empty_table_of_the_default_size() {
    let table = init_futex();
    assert_eq!(table.hash_size(), 256);
    assert_eq!(table.hash_size(), FUTEX_HASH_SIZE);
    assert_eq!(queued_in_all(&table), 0);
}

#[test]
fn deadline_is_none_without_a_timeout() {
    assert_eq!(futex_wait_deadline(0, 0), None);
    assert_eq!(futex_wait_deadline(0, 123_456_789), None);
}

#[test]
fn deadline_is_now_plus_the_timeout() {
    assert_eq!(futex_wait_deadline(1_000_000, 5_000), Some(1_005_000));
    assert_eq!(futex_wait_deadline(1, 0), Some(1));
    assert_eq!(
        futex_wait_deadline(usize::MAX, u64::MAX),
        Some(usize::MAX as u128 + u64::MAX as u128)
    );
}

#[test]
fn wait_on_an_unreadable_word_is_a_bad_address() {
    let mut table = init_futex();
    let result = futex_wait(&mut table, ADDR, FUTEX_PRIVATE_FLAG, MM, 1, 5, None);
    assert_eq!(result, Err(FutexError::BadAddress));
    assert_eq!(queued_in_all(&table), 0);
}

#[test]
fn wait_with_another_value_would_block_and_queues_nothing() {
    let mut table = init_futex();
    assert_eq!(futex_wait(&mut table, ADDR, FUTEX_PRIVATE_FLAG, MM, 7, 5, Some(5)), Ok(()));
    let result = futex_wait(&mut table, ADDR, FUTEX_PRIVATE_FLAG, MM, 8, 5, Some(6));
    assert_eq!(result, Err(FutexError::WouldBlock));
    assert_eq!(bucket_of(&table, ADDR), vec![7]);
    assert_eq!(queued_in_all(&table), 1);
}

#[test]
fn wait_with_a_deadline_and_another_value_would_block_at_once() {
    let mut table = init_futex();
    let deadline = futex_wait_deadline(10_000_000, 42);
    assert_eq!(deadline, Some(10_000_042));
    let result = futex_wait(&mut table, ADDR, FUTEX_PRIVATE_FLAG, MM, 1, 5, Some(6));
    assert_eq!(result, Err(FutexError::WouldBlock));
    assert_eq!(queued_in_all(&table), 0);
}

#[test]
fn wait_queues_the_task_under_the_key_of_the_word() {
    let mut table = init_futex();
    assert_eq!(futex_wait(&mut table, ADDR, FUTEX_PRIVATE_FLAG, MM, 7, 5, Some(5)), Ok(()));
    assert_eq!(futex_wait(&mut table, ADDR, FUTEX_PRIVATE_FLAG, MM, 8, 5, Some(5)), Ok(()));
    let key = get_futex_key(ADDR, FUTEX_PRIVATE_FLAG, MM);
    let bucket = table.get_bucket(key.futex_hash());
    assert_eq!(bucket.len(), 2);
    assert_eq!(bucket[0], FutexQ::new(key, 7));
    assert_eq!(bucket[1], FutexQ::new(key, 8));
    assert_eq!(queued_in_all(&table), 2);
}

#[test]
fn wake_on_an_empty_table_wakes_nobody() {
    let mut table = init_futex();
    let woken = futex_wake(&mut table, ADDR, FUTEX_PRIVATE_FLAG, MM, 1, 0);
    assert!(woken.is_empty());
    assert_eq!(queued_in_all(&table), 0);
}

#[test]
fn wake_with_a_limit_of_zero_wakes_nobody() {
    let mut table = init_futex();
    futex_wait(&mut table, ADDR, FUTEX_PRIVATE_FLAG, MM, 1, 5, Some(5)).unwrap();
    let woken = futex_wake(&mut table, ADDR, FUTEX_PRIVATE_FLAG, MM, 0, 0);
    assert!(woken.is_empty());
    assert_eq!(bucket_of(&table, ADDR), vec![1]);
}

#[test]
fn wake_takes_the_first_waiters_and_leaves_the_others_in_order() {
    let mut table = init_futex();
    for task in 1..=5 {
        futex_wait(&mut table, ADDR, FUTEX_PRIVATE_FLAG, MM, task, 0, Some(0)).unwrap();
    }
    let woken = futex_wake(&mut table, ADDR, FUTEX_PRIVATE_FLAG, MM, 2, 0);
    assert_eq!(woken_tasks(&woken), vec![1, 2]);
    assert_eq!(bucket_of(&table, ADDR), vec![3, 4, 5]);
    let woken = futex_wake(&mut table, ADDR, FUTEX_PRIVATE_FLAG, MM, 10, 0);
    assert_eq!(woken_tasks(&woken), vec![3, 4, 5]);
    assert_eq!(queued_in_all(&table), 0);
}

#[test]
fn wake_spares_the_waiters_on_a_colliding_key() {
    let mut table = init_futex();
    let a: usize = 0x1000;
    let b: usize = 0x2000;
    let key_a = get_futex_key(a, FUTEX_PRIVATE_FLAG, MM);
    let key_b = get_futex_key(b, FUTEX_PRIVATE_FLAG, MM);
    assert_ne!(key_a, key_b);
    assert_eq!(key_a.futex_hash(), key_b.futex_hash());
    futex_wait(&mut table, b, FUTEX_PRIVATE_FLAG, MM, 1, 0, Some(0)).unwrap();
    futex_wait(&mut table, a, FUTEX_PRIVATE_FLAG, MM, 2, 0, Some(0)).unwrap();
    futex_wait(&mut table, b, FUTEX_PRIVATE_FLAG, MM, 3, 0, Some(0)).unwrap();
    futex_wait(&mut table, a, FUTEX_PRIVATE_FLAG, MM, 4, 0, Some(0)).unwrap();
    let woken = futex_wake(&mut table, a, FUTEX_PRIVATE_FLAG, MM, 100, 0);
    assert_eq!(woken_tasks(&woken), vec![2, 4]);
    assert!(woken.iter().all(|entry| entry.key == key_a));
    let bucket = table.get_bucket(key_b.futex_hash());
    assert_eq!(waiting(bucket), vec![1, 3]);
    assert!(bucket.iter().all(|entry| entry.key == key_b));
}

#[test]
fn wake_in_another_address_space_wakes_nobody() {
    let mut table = init_futex();
    futex_wait(&mut table, ADDR, FUTEX_PRIVATE_FLAG, MM, 1, 0, Some(0)).unwrap();
    let woken = futex_wake(&mut table, ADDR, FUTEX_PRIVATE_FLAG, MM + 256, 1, 0);
    assert!(woken.is_empty());
    assert_eq!(bucket_of(&table, ADDR), vec![1]);
}

#[test]
fn two_waiters_and_one_wake() {
    let mut table = FutexHashBuckets::new(256);
    assert_eq!(futex_wait(&mut table, ADDR, FUTEX_PRIVATE_FLAG, MM, 1, 5, Some(5)), Ok(()));
    assert_eq!(futex_wait(&mut table, ADDR, FUTEX_PRIVATE_FLAG, MM, 2, 5, Some(5)), Ok(()));
    assert_eq!(bucket_of(&table, ADDR), vec![1, 2]);
    let woken = futex_wake(&mut table, ADDR, FUTEX_PRIVATE_FLAG, MM, 1, 0);
    assert_eq!(woken_tasks(&woken), vec![1]);
    let first = futex_wait_resumed(&mut table, ADDR, FUTEX_PRIVATE_FLAG, MM, 1, false, false, false);
    assert_eq!(first, Resumed::Woken);
    assert_eq!(first.outcome(), Some(Ok(0)));
    assert_eq!(bucket_of(&table, ADDR), vec![2]);
}

#[test]
fn woken_waiter_succeeds_and_leaves_no_entry() {
    let mut table = init_futex();
    futex_wait(&mut table, 0x3000, FUTEX_PRIVATE_FLAG, MM, 9, 1, Some(1)).unwrap();
    assert_eq!(futex_wait(&mut table, ADDR, FUTEX_PRIVATE_FLAG, MM, 1, 5, Some(5)), Ok(()));
    let woken = futex_wake(&mut table, ADDR, FUTEX_PRIVATE_FLAG, MM, 1, 0);
    assert_eq!(woken_tasks(&woken), vec![1]);
    assert!(bucket_of(&table, ADDR).is_empty());
    let resumed = futex_wait_resumed(&mut table, ADDR, FUTEX_PRIVATE_FLAG, MM, 1, true, false, true);
    assert_eq!(resumed, Resumed::Woken);
    assert!(bucket_of(&table, ADDR).is_empty());
    assert_eq!(bucket_of(&table, 0x3000), vec![9]);
    assert_eq!(queued_in_all(&table), 1);
}

#[test]
fn wait_that_nobody_wakes_times_out_and_leaves_no_entry() {
    let mut table = init_futex();
    assert_eq!(futex_wait_deadline(1_000_000, 0), Some(1_000_000));
    assert_eq!(futex_wait(&mut table, ADDR, FUTEX_PRIVATE_FLAG, MM, 1, 5, Some(5)), Ok(()));
    let resumed = futex_wait_resumed(&mut table, ADDR, FUTEX_PRIVATE_FLAG, MM, 1, true, false, false);
    assert_eq!(resumed, Resumed::TimedOut);
    assert_eq!(resumed.outcome(), Some(Err(FutexError::Timeout)));
    assert_eq!(queued_in_all(&table), 0);
}

#[test]
fn timeout_comes_before_a_pending_signal() {
    let mut table = init_futex();
    futex_wait(&mut table, ADDR, FUTEX_PRIVATE_FLAG, MM, 1, 5, Some(5)).unwrap();
    let resumed = futex_wait_resumed(&mut table, ADDR, FUTEX_PRIVATE_FLAG, MM, 1, true, false, true);
    assert_eq!(resumed, Resumed::TimedOut);
}

#[test]
fn resumed_by_a_signal_is_interrupted() {
    let mut table = init_futex();
    futex_wait(&mut table, ADDR, FUTEX_PRIVATE_FLAG, MM, 1, 5, Some(5)).unwrap();
    let resumed = futex_wait_resumed(&mut table, ADDR, FUTEX_PRIVATE_FLAG, MM, 1, false, false, true);
    assert_eq!(resumed, Resumed::Interrupted);
    assert_eq!(resumed.outcome(), Some(Err(FutexError::Interrupted)));
    assert_eq!(queued_in_all(&table), 0);
    futex_wait(&mut table, ADDR, FUTEX_PRIVATE_FLAG, MM, 1, 5, Some(5)).unwrap();
    let timed = futex_wait_resumed(&mut table, ADDR, FUTEX_PRIVATE_FLAG, MM, 1, true, true, true);
    assert_eq!(timed, Resumed::Interrupted);
}

#[test]
fn resumed_for_no_reason_starts_over() {
    let mut table = init_futex();
    futex_wait(&mut table, ADDR, FUTEX_PRIVATE_FLAG, MM, 1, 5, Some(5)).unwrap();
    futex_wait(&mut table, ADDR, FUTEX_PRIVATE_FLAG, MM, 2, 5, Some(5)).unwrap();
    let resumed = futex_wait_resumed(&mut table, ADDR, FUTEX_PRIVATE_FLAG, MM, 1, false, false, false);
    assert_eq!(resumed, Resumed::Spurious);
    assert_eq!(resumed.outcome(), None);
    assert_eq!(bucket_of(&table, ADDR), vec![2]);
    let timed = futex_wait_resumed(&mut table, ADDR, FUTEX_PRIVATE_FLAG, MM, 2, true, true, false);
    assert_eq!(timed, Resumed::Spurious);
    assert_eq!(queued_in_all(&table), 0);
    assert_eq!(
        futex_wait(&mut table, ADDR, FUTEX_PRIVATE_FLAG, MM, 1, 5, Some(6)),
        Err(FutexError::WouldBlock)
    );
}

#[test]
fn outcome_of_each_resumption() {
    assert_eq!(Resumed::Woken.outcome(), Some(Ok(0)));
    assert_eq!(Resumed::TimedOut.outcome(), Some(Err(FutexError::Timeout)));
    assert_eq!(Resumed::Interrupted.outcome(), Some(Err(FutexError::Interrupted)));
    assert_eq!(Resumed::Spurious.outcome(), None);
}
