//! The distributed random beacon: an iterated SHA-256 hash chain, computed
//! with periodic checkpoints so that an interrupted computation can resume.
use vstd::prelude::*;
use std::collections::BTreeMap;
use crate::hashing::{sha256, sha256_digest};

verus! {

/// Number of times the hash function is repeatedly applied.
pub const DIFFICULTY_LEVEL: u64 = 10;

/// Interval at which to store the results.
pub const DRB_CHECKPOINT_INTERVAL: u64 = 5;

/// Number of previous results and seeds to keep.
pub const KEEP_PREVIOUS_RESULT_COUNT: u64 = 8;

/// DRB seed input for `compute_drb_result`, serialized from the QC signature.
pub type DrbSeedInput = [u8; 32];

/// DRB result from `compute_drb_result`.
pub type DrbResult = [u8; 32];

/// Input of a DRB computation.
#[derive(Debug)]
pub struct DrbInput {
    /// The epoch we are calculating the result for
    pub epoch: u64,
    /// The iteration this seed is from. For fresh calculations, this should be `0`.
    pub iteration: u64,
    /// Initial seed for the DRB calculation
    pub initial: DrbSeedInput,
}

/// `n` applications of SHA-256 to `seed`.
pub open spec fn hash_chain(seed: Seq<u8>, n: nat) -> Seq<u8>
    decreases n,
{
    if n == 0 {
        seed
    } else {
        sha256_digest(hash_chain(seed, (n - 1) as nat))
    }
}

/// The DRB result computed from `initial`, a seed from iteration `iteration`:
/// the hash chain runs on up to the difficulty level, so that a fresh seed is
/// hashed `DIFFICULTY_LEVEL` times.
pub open spec fn drb_result_from(initial: Seq<u8>, iteration: u64) -> Seq<u8> {
    hash_chain(initial, (DIFFICULTY_LEVEL - iteration) as nat)
}

/// A partial result that a DRB computation hands out for storage, so that the
/// computation can later resume from it.
#[derive(Debug)]
pub struct DrbProgress {
    /// The epoch the computation is for
    pub epoch: u64,
    /// The iteration reached
    pub iteration: u64,
    /// The hash at that iteration
    pub partial: [u8; 32],
}

/// The outcome of a DRB computation: the result and the checkpoints, in order.
#[derive(Debug)]
pub struct DrbComputation {
    /// The DRB result
    pub result: DrbResult,
    /// The partial results to store, one per checkpoint interval
    pub progress: Vec<DrbProgress>,
}

/// What the `k`-th checkpoint (from 0) of a computation on `input` holds.
pub open spec fn is_checkpoint(input: DrbInput, k: int, p: DrbProgress) -> bool {
    &&& p.epoch == input.epoch
    &&& p.iteration == input.iteration + DRB_CHECKPOINT_INTERVAL * (k + 1)
    &&& p.partial@ == hash_chain(input.initial@, (DRB_CHECKPOINT_INTERVAL * (k + 1)) as nat)
}

/// Compute the DRB result for the leader rotation.
///
/// The hash chain is extended by whole checkpoint intervals while they fit
/// below the difficulty level, and each interval's hash is handed out in
/// `progress`; the remaining iterations up to the difficulty level follow.
pub fn compute_drb_result(drb_input: DrbInput) -> (c: DrbComputation)
    requires
        drb_input.iteration <= DIFFICULTY_LEVEL,
    ensures
        c.result@ == drb_result_from(drb_input.initial@, drb_input.iteration),
        c.progress.len() == (DIFFICULTY_LEVEL - drb_input.iteration) as int / DRB_CHECKPOINT_INTERVAL as int,
        forall|k: int|
            0 <= k < c.progress.len() ==> is_checkpoint(drb_input, k, #[trigger] c.progress[k]),
{
    let ghost seed = drb_input.initial@;
    let start = drb_input.iteration;
    let mut hash: [u8; 32] = drb_input.initial;
    let mut iteration = drb_input.iteration;
    let remaining_iterations = DIFFICULTY_LEVEL - iteration;
    let final_checkpoint = remaining_iterations / DRB_CHECKPOINT_INTERVAL;
    let mut progress: Vec<DrbProgress> = Vec::new();

    let mut checkpoint: u64 = 0;
    while checkpoint < final_checkpoint
        invariant
            final_checkpoint == (DIFFICULTY_LEVEL - start) as int / DRB_CHECKPOINT_INTERVAL as int,
            start == drb_input.iteration,
            seed == drb_input.initial@,
            checkpoint <= final_checkpoint,
            iteration == start + DRB_CHECKPOINT_INTERVAL * checkpoint,
            iteration <= DIFFICULTY_LEVEL,
            hash@ == hash_chain(seed, (iteration - start) as nat),
            progress.len() == checkpoint,
            forall|k: int|
                0 <= k < progress.len() ==> is_checkpoint(drb_input, k, #[trigger] progress[k]),
        decreases final_checkpoint - checkpoint,
    {
        let mut j: u64 = 0;
        while j < DRB_CHECKPOINT_INTERVAL
            invariant
                j <= DRB_CHECKPOINT_INTERVAL,
                iteration >= start,
                hash@ == hash_chain(seed, (iteration - start + j) as nat),
            decreases DRB_CHECKPOINT_INTERVAL - j,
        {
            hash = sha256(&hash);
            j = j + 1;
        }
        iteration = iteration + DRB_CHECKPOINT_INTERVAL;
        progress.push(DrbProgress { epoch: drb_input.epoch, iteration, partial: hash });
        checkpoint = checkpoint + 1;
    }

    // perform the remaining iterations
    let mut i: u64 = iteration;
    while i < DIFFICULTY_LEVEL
        invariant
            start <= i <= DIFFICULTY_LEVEL,
            hash@ == hash_chain(seed, (i - start) as nat),
        decreases DIFFICULTY_LEVEL - i,
    {
        hash = sha256(&hash);
        i = i + 1;
    }
    DrbComputation { result: hash, progress }
}

/// Extending a hash chain by `b` steps after `a` steps is the chain of `a + b` steps.
pub proof fn lemma_hash_chain_concat(seed: Seq<u8>, a: nat, b: nat)
    ensures
        hash_chain(hash_chain(seed, a), b) == hash_chain(seed, a + b),
    decreases b,
{
    if b > 0 {
        lemma_hash_chain_concat(seed, a, (b - 1) as nat);
        assert(hash_chain(seed, a + b) == sha256_digest(hash_chain(seed, (a + b - 1) as nat)));
    }
}

/// Resuming a DRB computation from any checkpoint that it handed out, taking
/// the checkpoint's iteration and partial hash as the new input, gives the same
/// result as the uninterrupted computation.
pub proof fn lemma_resume_from_checkpoint(input: DrbInput, k: int, p: DrbProgress)
    requires
        input.iteration <= DIFFICULTY_LEVEL,
        0 <= k < (DIFFICULTY_LEVEL - input.iteration) as int / DRB_CHECKPOINT_INTERVAL as int,
        is_checkpoint(input, k, p),
    ensures
        p.iteration <= DIFFICULTY_LEVEL,
        drb_result_from(p.partial@, p.iteration) == drb_result_from(input.initial@, input.iteration),
{
    let done = (DRB_CHECKPOINT_INTERVAL * (k + 1)) as nat;
    assert(DRB_CHECKPOINT_INTERVAL * (k + 1) <= DIFFICULTY_LEVEL - input.iteration);
    let rest = (DIFFICULTY_LEVEL - p.iteration) as nat;
    lemma_hash_chain_concat(input.initial@, done, rest);
}

/// Difficulty level of the DRB calculation: the number of times the hash
/// function is repeatedly applied. Until it is derived from a benchmark of the
/// hash time, it is the fixed `DIFFICULTY_LEVEL`.
pub fn difficulty_level() -> (level: u64)
    ensures
        level == DIFFICULTY_LEVEL,
{
    DIFFICULTY_LEVEL
}

/// Calls `BTreeMap::split_off`. Trusted: as std documents, the entries whose
/// keys are at least `at` move to the returned map, the others stay.
#[verifier::external_body]
fn btree_split_off(map: &mut BTreeMap<u64, [u8; 32]>, at: u64) -> (upper: BTreeMap<u64, [u8; 32]>)
    ensures
        upper@ == old(map)@.restrict(Set::new(|key: u64| key >= at)),
        final(map)@ == old(map)@.restrict(Set::new(|key: u64| key < at)),
{
    map.split_off(&at)
}

/// Seeds for DRB computation and computed results.
#[derive(Clone, Debug)]
pub struct DrbResults {
    /// Stored results from computations, by epoch
    pub results: BTreeMap<u64, DrbResult>,
}

/// 32 zero bytes.
pub open spec fn zero_bytes() -> Seq<u8> {
    Seq::new(32, |i: int| 0u8)
}

/// DRB seed input for epochs 1 and 2: all zero.
pub fn initial_drb_seed_input() -> (seed: DrbSeedInput)
    ensures
        seed@ == zero_bytes(),
{
    let seed = [0u8; 32];
    assert(seed@ =~= zero_bytes());
    seed
}

/// DRB result for epochs 1 and 2: all zero.
pub fn initial_drb_result() -> (result: DrbResult)
    ensures
        result@ == zero_bytes(),
{
    let result = [0u8; 32];
    assert(result@ =~= zero_bytes());
    result
}

/// The map that holds the initial result (all zero bytes) for epochs 1 and 2, and nothing else.
pub open spec fn is_initial_results(m: Map<u64, [u8; 32]>) -> bool {
    &&& m.dom() == set![1u64, 2u64]
    &&& m[1]@ == zero_bytes()
    &&& m[2]@ == zero_bytes()
}

impl DrbResults {
    /// Constructor with initial values for epochs 1 and 2.
    pub fn new() -> (r: Self)
        ensures
            is_initial_results(r.results@),
    {
        let mut results: BTreeMap<u64, [u8; 32]> = BTreeMap::new();
        results.insert(1, initial_drb_result());
        results.insert(2, initial_drb_result());
        DrbResults { results }
    }

    /// Store the result for an epoch, replacing any earlier one.
    pub fn store_result(&mut self, epoch: u64, result: DrbResult)
        ensures
            final(self).results@ == old(self).results@.insert(epoch, result),
    {
        self.results.insert(epoch, result);
    }

    /// Garbage collects internal data structures: from epoch
    /// `KEEP_PREVIOUS_RESULT_COUNT` on, the results of epochs before
    /// `epoch - KEEP_PREVIOUS_RESULT_COUNT` are dropped.
    pub fn garbage_collect(&mut self, epoch: u64)
        ensures
            epoch < KEEP_PREVIOUS_RESULT_COUNT ==> final(self).results@ == old(self).results@,
            epoch >= KEEP_PREVIOUS_RESULT_COUNT ==> final(self).results@ == old(self).results@.restrict(
                Set::new(|e: u64| e >= epoch - KEEP_PREVIOUS_RESULT_COUNT),
            ),
    {
        if epoch < KEEP_PREVIOUS_RESULT_COUNT {
            return;
        }
        let retain_epoch = epoch - KEEP_PREVIOUS_RESULT_COUNT;
        self.results = btree_split_off(&mut self.results, retain_epoch);
    }
}

impl Default for DrbResults {
    fn default() -> (r: Self)
        ensures
            is_initial_results(r.results@),
    {
        Self::new()
    }
}

} // verus!
