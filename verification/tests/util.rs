use std::time::Duration;

use std::collections::HashMap;

use espresso_core::util::{BoundedVecDeque, FuturePool, FuturePoolError, KeyedFuturePool, KeyedFuturePoolError};
use tokio::{spawn, time::sleep};
use tokio_util::task::AbortOnDropHandle;

#[test]
fn test_bounded_vec_deque() {
    let mut deque = BoundedVecDeque::new(3);
    deque.push(1);
    deque.push(2);
    deque.push(3);
    deque.push(4);
    deque.push(5);
    assert_eq!(deque.inner.len(), 3);
    assert_eq!(deque.inner, vec![3, 4, 5]);
}

#[test]
fn bounded_vec_deque_of_size_zero_holds_nothing() {
    let mut deque = BoundedVecDeque::new(0);
    deque.push('a');
    assert!(deque.inner.is_empty());
    deque.push('b');
    assert!(deque.inner.is_empty());
}

#[test]
fn bounded_vec_deque_below_capacity_keeps_all() {
    let mut deque = BoundedVecDeque::new(5);
    for i in 0..4 {
        deque.push(i);
    }
    assert_eq!(deque.inner, vec![0, 1, 2, 3]);
}

#[test]
fn test_future_pool() {
    let rt = tokio::runtime::Runtime::new().unwrap();
    rt.block_on(async {
        // Create a new bounded future pool
        let mut pool = FuturePool::new(2);

        // Insert a new task into the pool
        pool.insert(AbortOnDropHandle::new(spawn(async move {
            sleep(Duration::from_secs(1)).await;
        })))
        .unwrap();
        assert_eq!(pool.inner.len(), 1);

        // Insert a second task into the pool
        pool.insert(AbortOnDropHandle::new(spawn(async move {
            sleep(Duration::from_secs(1)).await;
        })))
        .unwrap();
        assert_eq!(pool.inner.len(), 2);

        // Try to insert a third task into the pool
        assert!(pool
            .insert(AbortOnDropHandle::new(spawn(async move {
                sleep(Duration::from_secs(1)).await;
            })))
            .is_err());

        // Wait 2s
        sleep(Duration::from_secs(2)).await;

        // Try to insert again. This time it should be successful
        assert!(pool
            .insert(AbortOnDropHandle::new(spawn(async move {
                sleep(Duration::from_secs(1)).await;
            })))
            .is_ok());

        // Prune any finished tasks from the pool
        pool.prune();
        assert_eq!(pool.inner.len(), 1);
    });
}

/// A helper function to spawn a task that sleeps for 1 second
fn spawn_task() -> AbortOnDropHandle<()> {
    AbortOnDropHandle::new(spawn(async move {
        sleep(Duration::from_secs(1)).await;
    }))
}

#[test]
fn test_keyed_future_pool() {
    let rt = tokio::runtime::Runtime::new().unwrap();
    rt.block_on(async {
        // Create a new keyed future pool
        let mut pool = KeyedFuturePool::new(2, 1);

        // Insert a new task for 1
        pool.insert(1, spawn_task()).unwrap();

        // Insert another task for 1. This should fail
        assert!(pool.insert(1, spawn_task(),).is_err());

        // Wait 2s
        sleep(Duration::from_secs(2)).await;

        // Insert another task for 1. This should now be successful
        pool.insert(1, spawn_task()).unwrap();

        // Insert a task for 2. This should be successful
        pool.insert(2, spawn_task()).unwrap();

        // Insert one for 3. This should fail
        assert!(pool.insert(3, spawn_task(),).is_err());

        // Wait 2s
        sleep(Duration::from_secs(2)).await;

        // Insert a task for 2. This should be successful
        pool.insert(2, spawn_task()).unwrap();
    });
}

#[test]
fn keyed_future_pool_reports_which_limit() {
    let rt = tokio::runtime::Runtime::new().unwrap();
    rt.block_on(async {
        let mut pool: KeyedFuturePool<u64, ()> = KeyedFuturePool::new(3, 2);
        pool.insert(7, spawn_task()).unwrap();
        pool.insert(7, spawn_task()).unwrap();
        assert!(matches!(pool.insert(7, spawn_task()), Err(KeyedFuturePoolError::PerKeyPoolFull)));
        pool.insert(8, spawn_task()).unwrap();
        assert_eq!(pool.current_size(), 3);
        assert!(matches!(pool.insert(9, spawn_task()), Err(KeyedFuturePoolError::GlobalPoolFull)));
        assert_eq!(pool.tasks_for(&7), 2);
        assert_eq!(pool.tasks_for(&8), 1);
        assert_eq!(pool.tasks_for(&9), 0);
    });
}

#[test]
fn keyed_future_pool_with_zero_per_key_limit() {
    let rt = tokio::runtime::Runtime::new().unwrap();
    rt.block_on(async {
        let mut pool: KeyedFuturePool<u64, ()> = KeyedFuturePool::new(3, 0);
        assert!(matches!(pool.insert(1, spawn_task()), Err(KeyedFuturePoolError::PerKeyPoolFull)));
        assert_eq!(pool.current_size(), 0);
        assert_eq!(pool.tasks_for(&1), 0);
    });
}

#[test]
fn future_pool_prune_counts_finished_tasks() {
    let rt = tokio::runtime::Runtime::new().unwrap();
    rt.block_on(async {
        let mut pool = FuturePool::new(3);
        pool.insert(AbortOnDropHandle::new(spawn(async {}))).unwrap();
        pool.insert(spawn_task()).unwrap();
        sleep(Duration::from_millis(200)).await;
        assert!(!pool.is_full());
        assert_eq!(pool.prune(), 1);
        assert_eq!(pool.len(), 1);
        assert!(!pool.is_empty());
    });
}

#[test]
fn future_pool_retains_exactly_the_unfinished() {
    let rt = tokio::runtime::Runtime::new().unwrap();
    rt.block_on(async {
        let mut pool = FuturePool::new(5);
        for _ in 0..4 {
            pool.insert(spawn_task()).unwrap();
        }
        let ids: Vec<_> = pool.inner.iter().map(|h| h.abort_handle().id()).collect();
        let removed = pool.retain_unfinished(&vec![true, false, true, false]);
        assert_eq!(removed, 2);
        let kept: Vec<_> = pool.inner.iter().map(|h| h.abort_handle().id()).collect();
        assert_eq!(kept, vec![ids[1], ids[3]]);
        assert_eq!(pool.retain_unfinished(&vec![false, false]), 0);
        assert_eq!(pool.len(), 2);
    });
}

#[test]
fn future_pool_insert_given_follows_the_answers() {
    let rt = tokio::runtime::Runtime::new().unwrap();
    rt.block_on(async {
        let mut pool = FuturePool::new(3);
        // Below its maximum the pool takes the task whatever the answers.
        pool.insert_given(spawn_task(), &vec![]).unwrap();
        pool.insert_given(spawn_task(), &vec![true]).unwrap();
        pool.insert_given(spawn_task(), &vec![true, true]).unwrap();
        assert_eq!(pool.len(), 3);
        let ids: Vec<_> = pool.inner.iter().map(|h| h.abort_handle().id()).collect();

        // Full and all running: refused, nothing dropped.
        assert!(matches!(
            pool.insert_given(spawn_task(), &vec![false, false, false]),
            Err(FuturePoolError::PoolFull)
        ));
        assert_eq!(pool.len(), 3);

        // Full with the middle task finished: it goes, the new task is last.
        let extra = spawn_task();
        let extra_id = extra.abort_handle().id();
        pool.insert_given(extra, &vec![false, true, false]).unwrap();
        let now: Vec<_> = pool.inner.iter().map(|h| h.abort_handle().id()).collect();
        assert_eq!(now, vec![ids[0], ids[2], extra_id]);
    });
}

#[test]
fn future_pool_refuses_when_full_of_running_tasks() {
    let rt = tokio::runtime::Runtime::new().unwrap();
    rt.block_on(async {
        let mut pool = FuturePool::new(2);
        pool.insert(spawn_task()).unwrap();
        pool.insert(spawn_task()).unwrap();
        assert!(matches!(pool.insert(spawn_task()), Err(FuturePoolError::PoolFull)));
        assert_eq!(pool.len(), 2);
    });
}

#[test]
fn keyed_future_pool_insert_given_follows_the_answers() {
    let rt = tokio::runtime::Runtime::new().unwrap();
    rt.block_on(async {
        let mut pool: KeyedFuturePool<u64, ()> = KeyedFuturePool::new(3, 2);
        pool.insert_given(1, spawn_task(), &HashMap::new()).unwrap();
        pool.insert_given(1, spawn_task(), &HashMap::from([(1, vec![false])])).unwrap();
        pool.insert_given(2, spawn_task(), &HashMap::from([(1, vec![false, false])])).unwrap();
        assert_eq!(pool.current_size(), 3);

        // The global pool is full and every task still runs.
        let all_running = HashMap::from([(1, vec![false, false]), (2, vec![false])]);
        assert!(matches!(
            pool.insert_given(3, spawn_task(), &all_running),
            Err(KeyedFuturePoolError::GlobalPoolFull)
        ));
        assert_eq!(pool.current_size(), 3);

        // One task of key 1 has finished: it is dropped and key 3 gets room.
        let one_done = HashMap::from([(1, vec![true, false]), (2, vec![false])]);
        pool.insert_given(3, spawn_task(), &one_done).unwrap();
        assert_eq!(pool.tasks_for(&1), 1);
        assert_eq!(pool.tasks_for(&2), 1);
        assert_eq!(pool.tasks_for(&3), 1);
        assert_eq!(pool.current_size(), 3);

        // Key 2's only task has finished: the global prune drops it and its
        // pool, and then key 1 (one running task) takes one more.
        let two_done = HashMap::from([(1, vec![false]), (2, vec![true]), (3, vec![false])]);
        pool.insert_given(1, spawn_task(), &two_done).unwrap();
        assert_eq!(pool.tasks_for(&1), 2);
        assert_eq!(pool.tasks_for(&2), 0);
        assert_eq!(pool.current_size(), 3);
    });
}

#[test]
fn keyed_future_pool_per_key_limit_follows_the_answers() {
    let rt = tokio::runtime::Runtime::new().unwrap();
    rt.block_on(async {
        let mut pool: KeyedFuturePool<u64, ()> = KeyedFuturePool::new(10, 2);
        pool.insert(5, spawn_task()).unwrap();
        pool.insert(5, spawn_task()).unwrap();

        // Key 5's pool is full of running tasks.
        assert!(matches!(
            pool.insert_given(5, spawn_task(), &HashMap::from([(5, vec![false, false])])),
            Err(KeyedFuturePoolError::PerKeyPoolFull)
        ));
        assert_eq!(pool.tasks_for(&5), 2);

        // The first has finished: it goes and the new task takes its place.
        pool.insert_given(5, spawn_task(), &HashMap::from([(5, vec![true, false])])).unwrap();
        assert_eq!(pool.tasks_for(&5), 2);
        assert_eq!(pool.current_size(), 2);
    });
}
