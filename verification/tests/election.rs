use alloy::primitives::{U256, U512};
use espresso_core::election::{
    bytes_le, cyclic_xor, generate_stake_cdf, leader_index_for_digest, select_randomized_leader, sort_stake_table,
    StakeTableEntry,
};
use espresso_core::u256::{u64_to_le_bytes, Uint256};
use sha2::{Digest, Sha256, Sha512};

fn stake(v: u64) -> Uint256 {
    Uint256::from_limbs([v, 0, 0, 0])
}

fn entry(key: &[u8], s: u64) -> StakeTableEntry {
    StakeTableEntry { public_key: key.to_vec(), stake: stake(s) }
}

fn drb_of(b: u8) -> [u8; 32] {
    let mut d = [0u8; 32];
    for (i, x) in d.iter_mut().enumerate() {
        *x = b.wrapping_add(i as u8);
    }
    d
}

#[test]
fn cyclic_xor_wraps_around_the_drb() {
    let drb = drb_of(1);
    let key: Vec<u8> = (0..40u8).collect();
    let x = cyclic_xor(drb, key.clone());
    assert_eq!(x.len(), 40);
    for i in 0..40 {
        assert_eq!(x[i], key[i] ^ drb[i % 32]);
    }
    assert_eq!(cyclic_xor(drb, vec![]), Vec::<u8>::new());
}

#[test]
fn bytes_le_is_vec_order() {
    let cases: Vec<(Vec<u8>, Vec<u8>)> = vec![
        (vec![], vec![]),
        (vec![], vec![0]),
        (vec![1], vec![]),
        (vec![1, 2], vec![1, 3]),
        (vec![1, 3], vec![1, 2]),
        (vec![1, 2], vec![1, 2, 0]),
        (vec![2], vec![1, 9, 9]),
    ];
    for (a, b) in cases {
        assert_eq!(bytes_le(&a, &b), a <= b);
    }
}

#[test]
fn stake_table_sorted_stably_by_xor() {
    let drb = [0u8; 32];
    let table = vec![entry(&[3], 1), entry(&[1], 2), entry(&[2], 3), entry(&[1], 4)];
    let sorted = sort_stake_table(table, drb);
    let got: Vec<(u8, u64)> = sorted.iter().map(|e| (e.public_key[0], e.stake.limbs[0])).collect();
    assert_eq!(got, vec![(1, 2), (1, 4), (2, 3), (3, 1)]);
}

#[test]
fn stake_table_sorted_by_xor_with_drb() {
    let drb = [0xffu8; 32];
    let table = vec![entry(&[0x00], 1), entry(&[0xf0], 2), entry(&[0x0f], 3)];
    let sorted = sort_stake_table(table, drb);
    // keys xor 0xff: 0xff, 0x0f, 0xf0
    let got: Vec<u8> = sorted.iter().map(|e| e.public_key[0]).collect();
    assert_eq!(got, vec![0xf0, 0x0f, 0x00]);
}

#[test]
fn generated_cdf_accumulates_and_hashes_keys() {
    let drb = drb_of(9);
    let table = vec![entry(b"carol", 30), entry(b"alice", 10), entry(b"bob", 20)];
    let mut expected: Vec<(Vec<u8>, u64)> = vec![(b"carol".to_vec(), 30), (b"alice".to_vec(), 10), (b"bob".to_vec(), 20)];
    expected.sort_by(|a, b| cyclic_xor(drb, a.0.clone()).cmp(&cyclic_xor(drb, b.0.clone())));
    let c = generate_stake_cdf(table, drb);
    assert_eq!(c.drb, drb);
    let mut total = 0u64;
    let mut hasher = Sha256::new();
    for (i, (k, s)) in expected.iter().enumerate() {
        total += s;
        hasher.update(k);
        assert_eq!(&c.cdf[i].0.public_key, k);
        assert_eq!(c.cdf[i].1.limbs, [total, 0, 0, 0]);
    }
    let h: [u8; 32] = hasher.finalize().into();
    assert_eq!(c.stake_table_hash, h);
}

#[test]
fn generated_cdf_of_empty_table() {
    let c = generate_stake_cdf(vec![], [3u8; 32]);
    assert!(c.cdf.is_empty());
    let h: [u8; 32] = Sha256::digest([0u8; 0]).into();
    assert_eq!(c.stake_table_hash, h);
}

fn expected_leader(c: &espresso_core::election::RandomizedCommittee, view: u64) -> usize {
    let mut hasher = Sha512::new();
    hasher.update(c.drb);
    hasher.update(view.to_le_bytes());
    hasher.update(c.stake_table_hash);
    let raw: [u8; 64] = hasher.finalize().into();
    let total = U256::from_limbs(c.cdf.last().unwrap().1.limbs);
    let rem = U512::from_le_bytes(raw) % U512::from(total);
    let bp = U256::from_le_slice(&rem.to_le_bytes_vec()[0..32]);
    c.cdf.partition_point(|(_, cum)| bp >= U256::from_limbs(cum.limbs))
}

#[test]
fn leader_selection_matches_stake_breakpoint() {
    let drb = drb_of(77);
    let table = vec![entry(b"a", 5), entry(b"b", 0), entry(b"c", 17), entry(b"d", 1), entry(b"e", 100)];
    let c = generate_stake_cdf(table, drb);
    let mut counts = [0usize; 5];
    for view in 0..200u64 {
        let leader = select_randomized_leader(&c, view);
        let i = expected_leader(&c, view);
        assert_eq!(leader.public_key, c.cdf[i].0.public_key);
        assert!(leader.stake.limbs[0] > 0);
        let k = leader.public_key[0] - b'a';
        counts[k as usize] += 1;
    }
    // the node without stake is never chosen
    assert_eq!(counts[1], 0);
    assert!(counts[4] > counts[3]);
}

#[test]
fn leader_selection_is_deterministic() {
    let c = generate_stake_cdf(vec![entry(b"x", 3), entry(b"y", 4)], drb_of(5));
    for view in [0u64, 1, 99, u64::MAX] {
        let a = select_randomized_leader(&c, view);
        let b = select_randomized_leader(&c, view);
        assert_eq!(a.public_key, b.public_key);
    }
}

#[test]
fn u64_le_bytes_matches_std() {
    for v in [0u64, 1, 0x0102030405060708, u64::MAX] {
        assert_eq!(u64_to_le_bytes(v), v.to_le_bytes());
    }
}

#[test]
fn uint256_compare() {
    let a = Uint256::from_limbs([5, 0, 0, 1]);
    let b = Uint256::from_limbs([u64::MAX, u64::MAX, u64::MAX, 0]);
    assert!(a.ge(&b));
    assert!(!b.ge(&a));
    assert!(a.ge(&a));
    assert!(Uint256::from_limbs([1, 2, 3, 4]).ge(&Uint256::from_limbs([0, 3, 3, 4])) == false);
    assert!(Uint256::from_limbs([1, 3, 3, 4]).ge(&Uint256::from_limbs([9, 2, 3, 4])));
    assert_eq!(Uint256::zero().limbs, [0; 4]);
}

#[test]
fn cumulative_stake_wraps_at_256_bits() {
    let half = Uint256::from_limbs([0, 0, 0, 1 << 63]);
    let table = vec![
        StakeTableEntry { public_key: vec![1], stake: half },
        StakeTableEntry { public_key: vec![2], stake: half },
        StakeTableEntry { public_key: vec![3], stake: Uint256::from_limbs([u64::MAX, 1, 0, 0]) },
    ];
    let c = generate_stake_cdf(table, [0u8; 32]);
    assert_eq!(c.cdf[0].1.limbs, [0, 0, 0, 1 << 63]);
    assert_eq!(c.cdf[1].1.limbs, [0, 0, 0, 0]);
    assert_eq!(c.cdf[2].1.limbs, [u64::MAX, 1, 0, 0]);
}

#[test]
fn leader_selection_with_large_stakes() {
    let table = vec![
        StakeTableEntry { public_key: vec![9, 9], stake: Uint256::from_limbs([3, 0, 0, 1 << 40]) },
        StakeTableEntry { public_key: vec![8], stake: Uint256::from_limbs([0, 7, 0, 1 << 41]) },
        StakeTableEntry { public_key: vec![7, 1, 2], stake: Uint256::from_limbs([1, 0, 5, 0]) },
    ];
    let c = generate_stake_cdf(table, drb_of(200));
    for view in 0..50u64 {
        let leader = select_randomized_leader(&c, view);
        let i = expected_leader(&c, view);
        assert_eq!(leader.public_key, c.cdf[i].0.public_key);
    }
}

#[test]
fn leader_index_for_digest_reads_little_endian() {
    let table = vec![entry(&[1], 10), entry(&[2], 10), entry(&[3], 10)];
    let c = generate_stake_cdf(table, [0u8; 32]);
    let mut digest = [0u8; 64];
    assert_eq!(leader_index_for_digest(&c, digest), 0);
    digest[0] = 9;
    assert_eq!(leader_index_for_digest(&c, digest), 0);
    digest[0] = 10;
    assert_eq!(leader_index_for_digest(&c, digest), 1);
    digest[0] = 29;
    assert_eq!(leader_index_for_digest(&c, digest), 2);
    // 256 + 30 = 286, and 286 mod 30 = 16
    digest[0] = 30;
    digest[1] = 1;
    assert_eq!(leader_index_for_digest(&c, digest), 1);
}
