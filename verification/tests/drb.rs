use espresso_core::drb::{
    compute_drb_result, difficulty_level, initial_drb_result, initial_drb_seed_input, DrbInput,
    DrbResults, DIFFICULTY_LEVEL, DRB_CHECKPOINT_INTERVAL, KEEP_PREVIOUS_RESULT_COUNT,
};
use sha2::{Digest, Sha256};

fn chain(seed: [u8; 32], n: usize) -> [u8; 32] {
    let mut h = seed;
    for _ in 0..n {
        h = Sha256::digest(h).into();
    }
    h
}

#[test]
fn drb_fresh_computation_hashes_difficulty_level_times() {
    let seed = [7u8; 32];
    let c = compute_drb_result(DrbInput { epoch: 3, iteration: 0, initial: seed });
    assert_eq!(c.result, chain(seed, 10));
    assert_eq!(c.progress.len(), 2);
    assert_eq!(c.progress[0].epoch, 3);
    assert_eq!(c.progress[0].iteration, 5);
    assert_eq!(c.progress[0].partial, chain(seed, 5));
    assert_eq!(c.progress[1].iteration, 10);
    assert_eq!(c.progress[1].partial, chain(seed, 10));
}

#[test]
fn drb_resumed_computation_matches_uninterrupted() {
    let seed = [42u8; 32];
    let full = compute_drb_result(DrbInput { epoch: 9, iteration: 0, initial: seed });
    for p in &full.progress {
        let resumed = compute_drb_result(DrbInput { epoch: 9, iteration: p.iteration, initial: p.partial });
        assert_eq!(resumed.result, full.result);
    }
}

#[test]
fn drb_odd_start_iteration() {
    let seed = [1u8; 32];
    let c = compute_drb_result(DrbInput { epoch: 1, iteration: 3, initial: seed });
    // 10 - 3 = 7 remaining: one checkpoint at iteration 8, then two more up to 10
    assert_eq!(c.progress.len(), 1);
    assert_eq!(c.progress[0].iteration, 8);
    assert_eq!(c.progress[0].partial, chain(seed, 5));
    assert_eq!(c.result, chain(seed, 7));
}

#[test]
fn drb_at_difficulty_level_is_the_seed() {
    let seed = [0u8; 32];
    let c = compute_drb_result(DrbInput { epoch: 3, iteration: DIFFICULTY_LEVEL, initial: seed });
    assert!(c.progress.is_empty());
    assert_eq!(c.result, seed);
    let c = compute_drb_result(DrbInput { epoch: 3, iteration: DIFFICULTY_LEVEL - DRB_CHECKPOINT_INTERVAL, initial: seed });
    assert_eq!(c.progress.len(), 1);
    assert_eq!(c.result, chain(seed, DRB_CHECKPOINT_INTERVAL as usize));
}

#[test]
fn drb_difficulty_level_is_fixed() {
    assert_eq!(difficulty_level(), 10);
    assert_eq!(initial_drb_result(), [0u8; 32]);
    assert_eq!(initial_drb_seed_input(), [0u8; 32]);
}

#[test]
fn drb_results_initial_and_store() {
    let mut r = DrbResults::new();
    assert_eq!(r.results.len(), 2);
    assert_eq!(r.results[&1], [0u8; 32]);
    assert_eq!(r.results[&2], [0u8; 32]);
    r.store_result(3, [5u8; 32]);
    r.store_result(1, [6u8; 32]);
    assert_eq!(r.results[&3], [5u8; 32]);
    assert_eq!(r.results[&1], [6u8; 32]);
    assert_eq!(r.results.len(), 3);
    let d = DrbResults::default();
    assert_eq!(d.results.len(), 2);
}

#[test]
fn drb_results_garbage_collect() {
    let mut r = DrbResults::new();
    for e in 3..=20u64 {
        r.store_result(e, [e as u8; 32]);
    }
    r.garbage_collect(KEEP_PREVIOUS_RESULT_COUNT - 1);
    assert_eq!(r.results.len(), 20);
    r.garbage_collect(15);
    let keys: Vec<u64> = r.results.keys().copied().collect();
    assert_eq!(keys, (7..=20).collect::<Vec<u64>>());
    assert_eq!(r.results[&7], [7u8; 32]);
    r.garbage_collect(8);
    assert_eq!(r.results.len(), 14);
}
