//! Leader selection based on the DRB.
//!
//! Initialization:
//! - obtain `drb: [u8; 32]` from the DRB calculation
//! - sort the stake table for a given epoch by `xor(drb, public_key)`
//! - generate a cdf of the cumulative stake using this newly-sorted table,
//!   along with a hash of the stake table entries
//!
//! Selecting a leader:
//! - calculate the SHA512 hash of the `drb_result`, `view_number` and `stake_table_hash`
//! - find the first index in the cdf for which the remainder of this hash modulo the
//!   `total_stake` is strictly smaller than the cdf entry
//! - return the corresponding node as the leader for that view
use vstd::prelude::*;
use vstd::multiset::Multiset;
use crate::hashing::{sha256, sha256_digest, sha512, sha512_digest};
use crate::u256::{le_value, two_pow_256, u64_le_bytes, u64_to_le_bytes, uint256_add, uint512_le_rem, Uint256};

verus! {

/// A stake table entry: the bytes of the node's public key, and its stake.
#[derive(Clone, Debug)]
pub struct StakeTableEntry {
    pub public_key: Vec<u8>,
    pub stake: Uint256,
}

/// A copy of a byte vector.
pub fn copy_bytes(bytes: &Vec<u8>) -> (copy: Vec<u8>)
    ensures
        copy@ == bytes@,
{
    let mut out: Vec<u8> = Vec::new();
    let mut i: usize = 0;
    while i < bytes.len()
        invariant
            i <= bytes.len(),
            out@ == bytes@.take(i as int),
        decreases bytes.len() - i,
    {
        out.push(bytes[i]);
        i = i + 1;
        assert(out@ =~= bytes@.take(i as int));
    }
    assert(out@ =~= bytes@);
    out
}

impl StakeTableEntry {
    /// A copy of this entry.
    pub fn duplicate(&self) -> (copy: Self)
        ensures
            copy@ == self@,
    {
        StakeTableEntry { public_key: copy_bytes(&self.public_key), stake: self.stake }
    }
}

/// The model of a stake table entry: its key bytes and the value of its stake.
pub struct EntryModel {
    pub public_key: Seq<u8>,
    pub stake: nat,
}

impl View for StakeTableEntry {
    type V = EntryModel;

    open spec fn view(&self) -> EntryModel {
        EntryModel { public_key: self.public_key@, stake: self.stake.value() }
    }
}

/// `xor(drb.cycle(), key)`: each byte of the key xored with the DRB byte at the
/// same position modulo 32.
pub open spec fn cyclic_xor_spec(drb: Seq<u8>, key: Seq<u8>) -> Seq<u8> {
    Seq::new(key.len(), |i: int| key[i] ^ drb[i % 32])
}

/// Calculate `xor(drb.cycle(), public_key)`, returning the result as a vector of bytes
pub fn cyclic_xor(drb: [u8; 32], public_key: Vec<u8>) -> (r: Vec<u8>)
    ensures
        r@ == cyclic_xor_spec(drb@, public_key@),
{
    let mut result: Vec<u8> = Vec::new();
    let mut i: usize = 0;
    while i < public_key.len()
        invariant
            i <= public_key.len(),
            drb@.len() == 32,
            result@.len() == i,
            forall|j: int| 0 <= j < i ==> result@[j] == public_key@[j] ^ drb@[j % 32],
        decreases public_key.len() - i,
    {
        result.push(public_key[i] ^ drb[i % 32]);
        i = i + 1;
    }
    assert(result@ =~= cyclic_xor_spec(drb@, public_key@));
    result
}

/// `a <= b` in the lexicographic order of byte strings (the order of `Vec<u8>`):
/// the first differing byte decides, and a proper prefix comes first.
pub open spec fn lex_le(a: Seq<u8>, b: Seq<u8>) -> bool
    decreases a.len(),
{
    if a.len() == 0 {
        true
    } else if b.len() == 0 {
        false
    } else if a[0] != b[0] {
        a[0] < b[0]
    } else {
        lex_le(a.drop_first(), b.drop_first())
    }
}

/// Whether `a <= b` in the order of `Vec<u8>`.
pub fn bytes_le(a: &Vec<u8>, b: &Vec<u8>) -> (r: bool)
    ensures
        r == lex_le(a@, b@),
{
    let mut i: usize = 0;
    assert(a@.skip(0) =~= a@);
    assert(b@.skip(0) =~= b@);
    while i < a.len() && i < b.len()
        invariant
            i <= a.len(),
            i <= b.len(),
            a@.take(i as int) == b@.take(i as int),
            lex_le(a@, b@) == lex_le(a@.skip(i as int), b@.skip(i as int)),
        decreases a.len() - i,
    {
        if a[i] != b[i] {
            return a[i] < b[i];
        }
        assert(a@.skip(i as int).drop_first() =~= a@.skip(i + 1));
        assert(b@.skip(i as int).drop_first() =~= b@.skip(i + 1));
        assert(a@.take(i + 1) =~= a@.take(i as int).push(a@[i as int]));
        assert(b@.take(i + 1) =~= b@.take(i as int).push(b@[i as int]));
        i = i + 1;
    }
    assert(a@.skip(i as int).len() == a@.len() - i);
    assert(b@.skip(i as int).len() == b@.len() - i);
    i == a.len()
}

/// The models of a sequence of entries.
pub open spec fn models(s: Seq<StakeTableEntry>) -> Seq<EntryModel> {
    s.map_values(|e: StakeTableEntry| e@)
}

/// The key by which the stake table is sorted: `xor(drb.cycle(), public_key)`.
pub open spec fn sort_key(drb: Seq<u8>, e: EntryModel) -> Seq<u8> {
    cyclic_xor_spec(drb, e.public_key)
}

/// Inserts `x` into `s` after the last run of entries whose keys are not above
/// `x`'s key: the step of a stable insertion sort.
pub open spec fn sorted_insert(drb: Seq<u8>, s: Seq<EntryModel>, x: EntryModel) -> Seq<EntryModel>
    decreases s.len(),
{
    if s.len() == 0 || lex_le(sort_key(drb, s.last()), sort_key(drb, x)) {
        s.push(x)
    } else {
        sorted_insert(drb, s.drop_last(), x).push(s.last())
    }
}

/// The stake table stably sorted by `xor(drb.cycle(), public_key)`: entries
/// with equal keys keep their order.
pub open spec fn sort_by_xor(drb: Seq<u8>, s: Seq<EntryModel>) -> Seq<EntryModel>
    decreases s.len(),
{
    if s.len() == 0 {
        s
    } else {
        sorted_insert(drb, sort_by_xor(drb, s.drop_last()), s.last())
    }
}

/// Inserting adds one entry.
pub proof fn lemma_sorted_insert_len(drb: Seq<u8>, s: Seq<EntryModel>, x: EntryModel)
    ensures
        sorted_insert(drb, s, x).len() == s.len() + 1,
    decreases s.len(),
{
    if s.len() > 0 && !lex_le(sort_key(drb, s.last()), sort_key(drb, x)) {
        lemma_sorted_insert_len(drb, s.drop_last(), x);
    }
}

/// Sorting keeps the length.
pub proof fn lemma_sort_len(drb: Seq<u8>, s: Seq<EntryModel>)
    ensures
        sort_by_xor(drb, s).len() == s.len(),
    decreases s.len(),
{
    if s.len() > 0 {
        lemma_sort_len(drb, s.drop_last());
        lemma_sorted_insert_len(drb, sort_by_xor(drb, s.drop_last()), s.last());
    }
}

/// Where the insertion scan stops, `sorted_insert` puts the new entry.
proof fn lemma_sorted_insert_at(drb: Seq<u8>, s: Seq<EntryModel>, x: EntryModel, p: int)
    requires
        0 <= p <= s.len(),
        p == 0 || lex_le(sort_key(drb, s[p - 1]), sort_key(drb, x)),
        forall|j: int| p <= j < s.len() ==> !lex_le(sort_key(drb, #[trigger] s[j]), sort_key(drb, x)),
    ensures
        sorted_insert(drb, s, x) == s.insert(p, x),
    decreases s.len(),
{
    if p == s.len() {
        assert(s.insert(p, x) =~= s.push(x));
    } else {
        assert(!lex_le(sort_key(drb, s[s.len() - 1]), sort_key(drb, x)));
        let t = s.drop_last();
        lemma_sorted_insert_at(drb, t, x, p);
        assert(s.insert(p, x) =~= t.insert(p, x).push(s.last()));
    }
}

/// The models of a vector with an entry inserted.
proof fn lemma_models_insert(s: Seq<StakeTableEntry>, p: int, x: StakeTableEntry)
    requires
        0 <= p <= s.len(),
    ensures
        models(s.insert(p, x)) == models(s).insert(p, x@),
{
    assert(models(s.insert(p, x)) =~= models(s).insert(p, x@));
}

/// Sorts the stake table stably by `xor(drb.cycle(), public_key)`, by insertion.
pub fn sort_stake_table(stake_table: Vec<StakeTableEntry>, drb: [u8; 32]) -> (sorted: Vec<StakeTableEntry>)
    ensures
        models(sorted@) == sort_by_xor(drb@, models(stake_table@)),
{
    let ghost all = models(stake_table@);
    let mut input = stake_table;
    let mut sorted: Vec<StakeTableEntry> = Vec::new();
    let mut keys: Vec<Vec<u8>> = Vec::new();
    let ghost mut n: int = 0;
    assert(all.take(0) =~= Seq::<EntryModel>::empty());
    while input.len() > 0
        invariant
            0 <= n <= all.len(),
            models(input@) == all.skip(n),
            models(sorted@) == sort_by_xor(drb@, all.take(n)),
            keys@.len() == sorted@.len(),
            forall|j: int| 0 <= j < keys@.len() ==> (#[trigger] keys@[j])@ == sort_key(drb@, sorted@[j]@),
        decreases input.len(),
    {
        proof {
            assert(models(input@).len() == input@.len());
            assert(n < all.len());
            assert(models(input@)[0] == all.skip(n)[0]);
        }
        let ghost before = input@;
        let x = input.remove(0);
        let k = cyclic_xor(drb, copy_bytes(&x.public_key));
        let mut p = sorted.len();
        while p > 0 && !bytes_le(&keys[p - 1], &k)
            invariant
                p <= sorted@.len(),
                keys@.len() == sorted@.len(),
                k@ == sort_key(drb@, x@),
                forall|j: int| 0 <= j < keys@.len() ==> (#[trigger] keys@[j])@ == sort_key(drb@, sorted@[j]@),
                forall|j: int| p <= j < sorted@.len() ==> !lex_le(sort_key(drb@, (#[trigger] sorted@[j])@), k@),
            decreases p,
        {
            p = p - 1;
        }
        proof {
            let ms = models(sorted@);
            assert forall|j: int| p <= j < ms.len() implies !lex_le(sort_key(drb@, #[trigger] ms[j]), sort_key(drb@, x@)) by {
                assert(ms[j] == sorted@[j]@);
            }
            if p > 0 {
                assert(ms[p - 1] == sorted@[p - 1]@);
            }
            lemma_sorted_insert_at(drb@, ms, x@, p as int);
            lemma_models_insert(sorted@, p as int, x);
            assert(all.take(n + 1).drop_last() =~= all.take(n));
            assert forall|j: int| 0 <= j < input@.len() implies models(input@)[j] == all.skip(n + 1)[j] by {
                assert(input@[j] == before[j + 1]);
                assert(models(before)[j + 1] == all.skip(n)[j + 1]);
            }
            assert(models(input@) =~= all.skip(n + 1));
        }
        let ghost old_keys = keys@;
        let ghost old_sorted = sorted@;
        sorted.insert(p, x);
        keys.insert(p, k);
        proof {
            n = n + 1;
            assert forall|j: int| 0 <= j < keys@.len() implies (#[trigger] keys@[j])@ == sort_key(drb@, sorted@[j]@) by {
                if j < p {
                    assert(keys@[j] == old_keys[j] && sorted@[j] == old_sorted[j]);
                } else if j > p {
                    assert(keys@[j] == old_keys[j - 1] && sorted@[j] == old_sorted[j - 1]);
                }
            }
        }
    }
    proof {
        assert(all.take(n) =~= all);
    }
    sorted
}

/// The total stake of the first `n` entries.
pub open spec fn stake_prefix(s: Seq<EntryModel>, n: nat) -> nat
    decreases n,
{
    if n == 0 {
        0
    } else {
        stake_prefix(s, (n - 1) as nat) + s[n - 1].stake
    }
}

/// The public keys of the entries, concatenated.
pub open spec fn concat_keys(s: Seq<EntryModel>) -> Seq<u8>
    decreases s.len(),
{
    if s.len() == 0 {
        Seq::empty()
    } else {
        concat_keys(s.drop_last()) + s.last().public_key
    }
}

/// The stake table sorted for leader selection, with its cumulative stake.
#[derive(Clone, Debug)]
pub struct RandomizedCommittee {
    /// cdf of nodes by cumulative stake
    pub cdf: Vec<(StakeTableEntry, Uint256)>,
    /// Hash of the stake table
    pub stake_table_hash: [u8; 32],
    /// DRB result
    pub drb: [u8; 32],
}

/// Whether `c` is the committee generated from `stake_table` and `drb`: the
/// table stably sorted by `xor(drb.cycle(), public_key)`, each entry with the
/// total stake up to and including it (in 256-bit arithmetic, which wraps),
/// and the SHA-256 digest of the sorted public keys, concatenated.
pub open spec fn generated_from(c: RandomizedCommittee, stake_table: Seq<EntryModel>, drb: [u8; 32]) -> bool {
    let order = sort_by_xor(drb@, stake_table);
    &&& c.drb == drb
    &&& c.cdf@.len() == stake_table.len()
    &&& forall|i: int| 0 <= i < c.cdf@.len() ==> (#[trigger] c.cdf@[i]).0@ == order[i]
    &&& forall|i: int|
        0 <= i < c.cdf@.len() ==> (#[trigger] c.cdf@[i]).1.value() == stake_prefix(order, (i + 1) as nat)
            % two_pow_256()
    &&& c.stake_table_hash@ == sha256_digest(concat_keys(order))
}

/// Generate the stake table CDF, as well as a hash of the resulting stake table.
///
/// The table is stably sorted by `xor(drb.cycle(), public_key)`; entry `i` of
/// the cdf carries the total stake of the sorted entries up to and including
/// `i` (in 256-bit arithmetic, which wraps); the hash is the SHA-256 digest of
/// the sorted public keys, concatenated.
pub fn generate_stake_cdf(stake_table: Vec<StakeTableEntry>, drb: [u8; 32]) -> (c: RandomizedCommittee)
    ensures
        generated_from(c, models(stake_table@), drb),
{
    let ghost order = sort_by_xor(drb@, models(stake_table@));
    proof {
        lemma_sort_len(drb@, models(stake_table@));
    }
    let mut sorted = sort_stake_table(stake_table, drb);
    proof {
        assert(models(sorted@).len() == sorted@.len());
    }
    let mut hash_input: Vec<u8> = Vec::new();
    let mut cumulative_stake = Uint256::zero();
    let mut cdf: Vec<(StakeTableEntry, Uint256)> = Vec::new();
    let ghost mut n: int = 0;
    assert(order.take(0) =~= Seq::<EntryModel>::empty());
    while sorted.len() > 0
        invariant
            0 <= n <= order.len(),
            models(sorted@) == order.skip(n),
            cdf@.len() == n,
            forall|i: int| 0 <= i < n ==> (#[trigger] cdf@[i]).0@ == order[i],
            forall|i: int|
                0 <= i < n ==> (#[trigger] cdf@[i]).1.value() == stake_prefix(order, (i + 1) as nat)
                    % two_pow_256(),
            cumulative_stake.value() == stake_prefix(order, n as nat) % two_pow_256(),
            hash_input@ == concat_keys(order.take(n)),
        decreases sorted.len(),
    {
        let ghost before = sorted@;
        proof {
            assert(models(sorted@).len() == sorted@.len());
            assert(models(sorted@)[0] == order.skip(n)[0]);
        }
        let entry = sorted.remove(0);
        proof {
            assert forall|j: int| 0 <= j < sorted@.len() implies models(sorted@)[j] == order.skip(n + 1)[j] by {
                assert(sorted@[j] == before[j + 1]);
                assert(models(before)[j + 1] == order.skip(n)[j + 1]);
            }
            assert(models(sorted@) =~= order.skip(n + 1));
        }
        let ghost prev = cumulative_stake.value();
        cumulative_stake = uint256_add(&cumulative_stake, &entry.stake);
        proof {
            vstd::arithmetic::div_mod::lemma_add_mod_noop(
                stake_prefix(order, n as nat) as int,
                entry.stake.value() as int,
                two_pow_256() as int,
            );
            crate::u256::lemma_value_bounds(entry.stake);
            vstd::arithmetic::div_mod::lemma_small_mod(entry.stake.value(), two_pow_256());
        }
        let mut i: usize = 0;
        let ghost base = hash_input@;
        while i < entry.public_key.len()
            invariant
                i <= entry.public_key.len(),
                hash_input@ == base + entry.public_key@.take(i as int),
            decreases entry.public_key.len() - i,
        {
            hash_input.push(entry.public_key[i]);
            i = i + 1;
            assert(hash_input@ =~= base + entry.public_key@.take(i as int));
        }
        proof {
            assert(entry.public_key@.take(i as int) =~= entry.public_key@);
            assert(order.take(n + 1).drop_last() =~= order.take(n));
            assert(order.take(n + 1).last() == entry@);
        }
        cdf.push((entry, cumulative_stake));
        proof {
            n = n + 1;
        }
    }
    proof {
        assert(order.take(n) =~= order);
        assert(models(stake_table@).len() == stake_table@.len());
    }
    let stake_table_hash = sha256(hash_input.as_slice());
    RandomizedCommittee { cdf, stake_table_hash, drb }
}

/// Whether the cumulative stakes of the cdf never decrease, as they do not
/// when the total stake fits in 256 bits.
pub open spec fn cdf_is_ordered(cdf: Seq<(StakeTableEntry, Uint256)>) -> bool {
    forall|i: int, j: int| 0 <= i <= j < cdf.len() ==> cdf[i].1.value() <= cdf[j].1.value()
}

/// The bytes hashed to pick the leader of `view`: the DRB result, the view
/// number in little-endian order, and the stake table hash.
pub open spec fn leader_hash_input(drb: Seq<u8>, view: u64, stake_table_hash: Seq<u8>) -> Seq<u8> {
    drb + u64_le_bytes(view) + stake_table_hash
}

/// The point in `[0, total_stake)` that picks the leader of `view`: the
/// SHA-512 digest of the leader hash input, read as a little-endian number,
/// modulo the total stake.
pub open spec fn leader_breakpoint(c: RandomizedCommittee, view: u64) -> nat {
    le_value(sha512_digest(leader_hash_input(c.drb@, view, c.stake_table_hash@))) % c.cdf@.last().1.value()
}

/// Whether `i` is the index of the first entry of the cdf whose cumulative
/// stake is above `breakpoint`.
pub open spec fn is_first_above(cdf: Seq<(StakeTableEntry, Uint256)>, breakpoint: nat, i: int) -> bool {
    &&& 0 <= i < cdf.len()
    &&& cdf[i].1.value() > breakpoint
    &&& forall|j: int| 0 <= j < i ==> (#[trigger] cdf[j]).1.value() <= breakpoint
}

/// Whether `i` is the index of the leader of `view`: the first entry of the
/// cdf whose cumulative stake is above the view's breakpoint.
pub open spec fn is_leader_index(c: RandomizedCommittee, view: u64, i: int) -> bool {
    is_first_above(c.cdf@, leader_breakpoint(c, view), i)
}

/// Calls `slice::partition_point` on the cdf with the predicate "the
/// breakpoint is at least the cumulative stake", which the verified
/// `Uint256::ge` computes. Trusted: on a slice that the predicate partitions
/// (true, then false), std documents the result as the index of the first
/// element for which it is false, or the length if there is none.
#[verifier::external_body]
fn cdf_partition_point(cdf: &Vec<(StakeTableEntry, Uint256)>, breakpoint: &Uint256) -> (index: usize)
    requires
        cdf_is_ordered(cdf@),
    ensures
        index <= cdf@.len(),
        forall|i: int| 0 <= i < index ==> (#[trigger] cdf@[i]).1.value() <= breakpoint.value(),
        forall|i: int| index <= i < cdf@.len() ==> (#[trigger] cdf@[i]).1.value() > breakpoint.value(),
{
    cdf.partition_point(|entry| breakpoint.ge(&entry.1))
}

/// The index in the cdf of the leader for a view: the first entry whose
/// cumulative stake is above the breakpoint of the view.
///
/// The cdf must be non-empty and ordered, and its total stake non-zero.
pub fn select_randomized_leader_index(randomized_committee: &RandomizedCommittee, view: u64) -> (index: usize)
    requires
        randomized_committee.cdf@.len() > 0,
        randomized_committee.cdf@.last().1.value() > 0,
        cdf_is_ordered(randomized_committee.cdf@),
    ensures
        is_leader_index(*randomized_committee, view, index as int),
{
    // We hash the concatenated drb, view and stake table hash.
    let mut input: Vec<u8> = Vec::new();
    let view_bytes = u64_to_le_bytes(view);
    let mut i: usize = 0;
    while i < 32
        invariant
            i <= 32,
            randomized_committee.drb@.len() == 32,
            input@ == randomized_committee.drb@.take(i as int),
        decreases 32 - i,
    {
        input.push(randomized_committee.drb[i]);
        i = i + 1;
        assert(input@ =~= randomized_committee.drb@.take(i as int));
    }
    let mut i: usize = 0;
    while i < 8
        invariant
            i <= 8,
            view_bytes@.len() == 8,
            randomized_committee.drb@.len() == 32,
            input@ == randomized_committee.drb@ + view_bytes@.take(i as int),
        decreases 8 - i,
    {
        input.push(view_bytes[i]);
        i = i + 1;
        assert(input@ =~= randomized_committee.drb@ + view_bytes@.take(i as int));
    }
    let mut i: usize = 0;
    while i < 32
        invariant
            i <= 32,
            view_bytes@.len() == 8,
            randomized_committee.drb@.len() == 32,
            randomized_committee.stake_table_hash@.len() == 32,
            input@ == randomized_committee.drb@ + view_bytes@ + randomized_committee.stake_table_hash@.take(i as int),
        decreases 32 - i,
    {
        input.push(randomized_committee.stake_table_hash[i]);
        i = i + 1;
        assert(input@ =~= randomized_committee.drb@ + view_bytes@
            + randomized_committee.stake_table_hash@.take(i as int));
    }
    assert(randomized_committee.drb@.take(32) =~= randomized_committee.drb@);
    assert(view_bytes@.take(8) =~= view_bytes@);
    assert(randomized_committee.stake_table_hash@.take(32) =~= randomized_committee.stake_table_hash@);
    let raw_breakpoint = sha512(input.as_slice());
    leader_index_for_digest(randomized_committee, raw_breakpoint)
}

/// The index in the cdf picked by a 64-byte digest: the first entry whose
/// cumulative stake is above the digest, read as a little-endian number,
/// modulo the total stake.
///
/// The cdf must be non-empty and ordered, and its total stake non-zero.
pub fn leader_index_for_digest(randomized_committee: &RandomizedCommittee, digest: [u8; 64]) -> (index: usize)
    requires
        randomized_committee.cdf@.len() > 0,
        randomized_committee.cdf@.last().1.value() > 0,
        cdf_is_ordered(randomized_committee.cdf@),
    ensures
        is_first_above(
            randomized_committee.cdf@,
            le_value(digest@) % randomized_committee.cdf@.last().1.value(),
            index as int,
        ),
{
    let cdf = &randomized_committee.cdf;
    // calculate the remainder modulo the total stake
    let total = cdf[cdf.len() - 1].1;
    let breakpoint = uint512_le_rem(digest, &total);

    // now find the first index where the breakpoint is strictly smaller than the cdf;
    // it is below the length since the breakpoint is below the total stake
    let index = cdf_partition_point(cdf, &breakpoint);
    proof {
        vstd::arithmetic::div_mod::lemma_mod_bound(le_value(digest@) as int, total.value() as int);
        if index == cdf@.len() {
            assert(cdf@[cdf@.len() - 1].1.value() <= breakpoint.value());
        }
    }
    index
}

/// Select the leader for a view: the first entry of the cdf whose cumulative
/// stake is above the breakpoint of the view.
///
/// The cdf must be non-empty and ordered, and its total stake non-zero.
pub fn select_randomized_leader(randomized_committee: &RandomizedCommittee, view: u64) -> (leader: StakeTableEntry)
    requires
        randomized_committee.cdf@.len() > 0,
        randomized_committee.cdf@.last().1.value() > 0,
        cdf_is_ordered(randomized_committee.cdf@),
    ensures
        exists|i: int|
            is_leader_index(*randomized_committee, view, i) && leader@ == (
            #[trigger] randomized_committee.cdf@[i]).0@,
{
    let index = select_randomized_leader_index(randomized_committee, view);
    let leader = randomized_committee.cdf[index].0.duplicate();
    assert(randomized_committee.cdf@[index as int].0@ == leader@);
    leader
}

/// The leader of a view is a function of the committee and the view: at most
/// one index of the cdf can be it.
pub proof fn lemma_leader_index_unique(c: RandomizedCommittee, view: u64, i: int, k: int)
    requires
        is_leader_index(c, view, i),
        is_leader_index(c, view, k),
    ensures
        i == k,
{
    if i < k {
        assert(c.cdf@[i].1.value() <= leader_breakpoint(c, view));
    } else if k < i {
        assert(c.cdf@[k].1.value() <= leader_breakpoint(c, view));
    }
}

/// `<=` on byte strings is reflexive.
pub proof fn lemma_lex_le_reflexive(a: Seq<u8>)
    ensures
        lex_le(a, a),
    decreases a.len(),
{
    if a.len() > 0 {
        lemma_lex_le_reflexive(a.drop_first());
    }
}

/// `<=` on byte strings is total.
pub proof fn lemma_lex_le_total(a: Seq<u8>, b: Seq<u8>)
    ensures
        lex_le(a, b) || lex_le(b, a),
    decreases a.len(),
{
    if a.len() > 0 && b.len() > 0 && a[0] == b[0] {
        lemma_lex_le_total(a.drop_first(), b.drop_first());
    }
}

/// `<=` on byte strings is transitive.
pub proof fn lemma_lex_le_transitive(a: Seq<u8>, b: Seq<u8>, c: Seq<u8>)
    requires
        lex_le(a, b),
        lex_le(b, c),
    ensures
        lex_le(a, c),
    decreases a.len(),
{
    if a.len() > 0 && b.len() > 0 && c.len() > 0 && a[0] == b[0] && b[0] == c[0] {
        lemma_lex_le_transitive(a.drop_first(), b.drop_first(), c.drop_first());
    }
}

/// `<=` on byte strings is antisymmetric.
pub proof fn lemma_lex_le_antisymmetric(a: Seq<u8>, b: Seq<u8>)
    requires
        lex_le(a, b),
        lex_le(b, a),
    ensures
        a == b,
    decreases a.len(),
{
    if a.len() == 0 || b.len() == 0 {
        assert(a =~= b);
    } else {
        lemma_lex_le_antisymmetric(a.drop_first(), b.drop_first());
        assert(a =~= seq![a[0]] + a.drop_first());
        assert(b =~= seq![b[0]] + b.drop_first());
    }
}

/// Byte strings are ordered by their first differing byte, in the numeric
/// order of bytes: where `a` and `b` agree before position `i` and differ at
/// it, `a <= b` exactly when `a[i] < b[i]`.
pub proof fn lemma_lex_le_first_difference(a: Seq<u8>, b: Seq<u8>, i: int)
    requires
        0 <= i < a.len(),
        i < b.len(),
        a.take(i) == b.take(i),
        a[i] != b[i],
    ensures
        lex_le(a, b) == (a[i] < b[i]),
    decreases i,
{
    if i > 0 {
        assert(a[0] == a.take(i)[0]);
        assert(b[0] == b.take(i)[0]);
        assert(a.drop_first().take(i - 1) =~= a.take(i).drop_first());
        assert(b.drop_first().take(i - 1) =~= b.take(i).drop_first());
        lemma_lex_le_first_difference(a.drop_first(), b.drop_first(), i - 1);
    }
}

/// A byte string comes no later than any string it begins.
pub proof fn lemma_lex_le_prefix(a: Seq<u8>, b: Seq<u8>)
    requires
        a.len() <= b.len(),
        b.take(a.len() as int) == a,
    ensures
        lex_le(a, b),
    decreases a.len(),
{
    if a.len() > 0 {
        assert(a[0] == b.take(a.len() as int)[0]);
        assert(b.drop_first().take(a.len() - 1) =~= a.drop_first());
        lemma_lex_le_prefix(a.drop_first(), b.drop_first());
    }
}

/// On single bytes the order is the numeric order of bytes.
pub proof fn lemma_lex_le_single_bytes(x: u8, y: u8)
    ensures
        lex_le(seq![x], seq![y]) == (x <= y),
{
    if x != y {
        assert(seq![x].take(0) =~= seq![y].take(0));
        lemma_lex_le_first_difference(seq![x], seq![y], 0);
    } else {
        lemma_lex_le_reflexive(seq![x]);
    }
}

proof fn lemma_xor_cancel(u: u8, v: u8, x: u8)
    requires
        u ^ x == v ^ x,
    ensures
        u == v,
{
    assert(u ^ x == v ^ x ==> u == v) by (bit_vector);
}

/// Distinct public keys have distinct sort keys.
pub proof fn lemma_cyclic_xor_injective(drb: Seq<u8>, a: Seq<u8>, b: Seq<u8>)
    requires
        cyclic_xor_spec(drb, a) == cyclic_xor_spec(drb, b),
    ensures
        a == b,
{
    assert(a.len() == cyclic_xor_spec(drb, a).len());
    assert(b.len() == cyclic_xor_spec(drb, b).len());
    assert forall|i: int| 0 <= i < a.len() implies a[i] == b[i] by {
        assert(cyclic_xor_spec(drb, a)[i] == cyclic_xor_spec(drb, b)[i]);
        assert(cyclic_xor_spec(drb, a)[i] == a[i] ^ drb[i % 32]);
        assert(cyclic_xor_spec(drb, b)[i] == b[i] ^ drb[i % 32]);
        lemma_xor_cancel(a[i], b[i], drb[i % 32]);
    }
    assert(a =~= b);
}

/// Whether no two entries share a public key.
pub open spec fn has_distinct_keys(s: Seq<EntryModel>) -> bool {
    forall|i: int, j: int| 0 <= i < j < s.len() ==> (#[trigger] s[i]).public_key != (#[trigger] s[j]).public_key
}

/// Whether no two entries of a multiset share a public key, and none occurs twice.
pub open spec fn multiset_has_distinct_keys(m: Multiset<EntryModel>) -> bool {
    forall|e1: EntryModel, e2: EntryModel|
        #![trigger m.count(e1), m.count(e2)]
        m.count(e1) > 0 && m.count(e2) > 0 && e1.public_key == e2.public_key ==> e1 == e2 && m.count(e1) == 1
}

proof fn lemma_distinct_keys_multiset(s: Seq<EntryModel>)
    requires
        has_distinct_keys(s),
    ensures
        multiset_has_distinct_keys(s.to_multiset()),
    decreases s.len(),
{
    broadcast use vstd::seq_lib::group_to_multiset_ensures;

    if s.len() == 0 {
        assert(s.to_multiset() =~= Multiset::<EntryModel>::empty());
    } else {
        let t = s.drop_last();
        let x = s.last();
        assert forall|i: int, j: int| 0 <= i < j < t.len() implies (#[trigger] t[i]).public_key
            != (#[trigger] t[j]).public_key by {
            assert(t[i] == s[i] && t[j] == s[j]);
        }
        lemma_distinct_keys_multiset(t);
        assert(t.push(x) =~= s);
        let m = t.to_multiset();
        assert forall|e: EntryModel| m.count(e) > 0 implies #[trigger] e.public_key != x.public_key by {
            assert(t.contains(e));
            let k = choose|k: int| 0 <= k < t.len() && t[k] == e;
            assert(s[k] == e && s[s.len() - 1] == x);
        }
        assert(m.count(x) == 0);
    }
}

/// Two sorted sequences with the same entries, no two sharing a key, are equal.
proof fn lemma_sorted_unique(drb: Seq<u8>, s: Seq<EntryModel>, t: Seq<EntryModel>)
    requires
        is_sorted_by_xor(drb, s),
        is_sorted_by_xor(drb, t),
        s.to_multiset() == t.to_multiset(),
        multiset_has_distinct_keys(s.to_multiset()),
    ensures
        s == t,
    decreases s.len(),
{
    broadcast use vstd::seq_lib::group_to_multiset_ensures;

    assert(s.to_multiset().len() == s.len());
    assert(t.to_multiset().len() == t.len());
    if s.len() == 0 {
        assert(t.len() == 0);
        assert(s =~= t);
    } else {
        let m = s.to_multiset();
        assert(t.len() == s.len());
        let a = s.last();
        let b = t.last();
        assert(s.contains(a));
        assert(m.count(a) > 0);
        assert(t.contains(a));
        let j = choose|j: int| 0 <= j < t.len() && t[j] == a;
        if j < t.len() - 1 {
            assert(lex_le(sort_key(drb, t[j]), sort_key(drb, t[t.len() - 1])));
        } else {
            lemma_lex_le_reflexive(sort_key(drb, a));
        }
        assert(t.contains(b));
        assert(m.count(b) > 0);
        assert(s.contains(b));
        let i = choose|i: int| 0 <= i < s.len() && s[i] == b;
        if i < s.len() - 1 {
            assert(lex_le(sort_key(drb, s[i]), sort_key(drb, s[s.len() - 1])));
        } else {
            lemma_lex_le_reflexive(sort_key(drb, b));
        }
        lemma_lex_le_antisymmetric(sort_key(drb, a), sort_key(drb, b));
        lemma_cyclic_xor_injective(drb, a.public_key, b.public_key);
        assert(a == b);
        let s0 = s.drop_last();
        let t0 = t.drop_last();
        assert(s0.push(a) =~= s);
        assert(t0.push(b) =~= t);
        assert(s0.to_multiset() =~= t0.to_multiset()) by {
            assert forall|e: EntryModel| s0.to_multiset().count(e) == t0.to_multiset().count(e) by {
                assert(m.count(e) == s0.to_multiset().insert(a).count(e));
                assert(m.count(e) == t0.to_multiset().insert(a).count(e));
            }
        }
        assert forall|e1: EntryModel, e2: EntryModel|
            #![trigger s0.to_multiset().count(e1), s0.to_multiset().count(e2)]
            s0.to_multiset().count(e1) > 0 && s0.to_multiset().count(e2) > 0 && e1.public_key == e2.public_key
            implies e1 == e2 && s0.to_multiset().count(e1) == 1 by {
            assert(m.count(e1) == s0.to_multiset().insert(a).count(e1));
            assert(m.count(e2) == s0.to_multiset().insert(a).count(e2));
        }
        assert forall|x: int, y: int| 0 <= x < y < s0.len() implies lex_le(
            sort_key(drb, #[trigger] s0[x]),
            sort_key(drb, #[trigger] s0[y]),
        ) by {
            assert(s0[x] == s[x] && s0[y] == s[y]);
        }
        assert forall|x: int, y: int| 0 <= x < y < t0.len() implies lex_le(
            sort_key(drb, #[trigger] t0[x]),
            sort_key(drb, #[trigger] t0[y]),
        ) by {
            assert(t0[x] == t[x] && t0[y] == t[y]);
        }
        lemma_sorted_unique(drb, s0, t0);
    }
}

/// When no two entries share a public key, the order in which the stake
/// table is given does not change its sorted order: any permutation of the
/// table sorts the same.
pub proof fn lemma_sort_ignores_input_order(drb: Seq<u8>, stake_table: Seq<EntryModel>, permuted: Seq<EntryModel>)
    requires
        permuted.to_multiset() == stake_table.to_multiset(),
        has_distinct_keys(stake_table),
    ensures
        sort_by_xor(drb, permuted) == sort_by_xor(drb, stake_table),
{
    lemma_sort_by_xor_sorted(drb, permuted);
    lemma_sort_by_xor_sorted(drb, stake_table);
    lemma_sort_by_xor_permutation(drb, permuted);
    lemma_sort_by_xor_permutation(drb, stake_table);
    lemma_distinct_keys_multiset(stake_table);
    lemma_sorted_unique(drb, sort_by_xor(drb, stake_table), sort_by_xor(drb, permuted));
}

/// The committee does not depend on the order of the stake table: when no
/// two entries share a public key, the committees generated from a table and
/// from any permutation of it have the same cdf, stake table hash and DRB.
pub proof fn lemma_committee_ignores_input_order(
    c: RandomizedCommittee,
    d: RandomizedCommittee,
    stake_table: Seq<EntryModel>,
    permuted: Seq<EntryModel>,
    drb: [u8; 32],
)
    requires
        generated_from(c, stake_table, drb),
        generated_from(d, permuted, drb),
        permuted.to_multiset() == stake_table.to_multiset(),
        has_distinct_keys(stake_table),
    ensures
        c.drb == d.drb,
        c.stake_table_hash@ == d.stake_table_hash@,
        c.cdf@.len() == d.cdf@.len(),
        forall|i: int|
            0 <= i < c.cdf@.len() ==> (#[trigger] c.cdf@[i]).0@ == d.cdf@[i].0@ && c.cdf@[i].1.value()
                == d.cdf@[i].1.value(),
{
    broadcast use vstd::seq_lib::group_to_multiset_ensures;

    lemma_sort_ignores_input_order(drb@, stake_table, permuted);
    assert(permuted.len() == permuted.to_multiset().len());
}

/// Whether the entries are in non-decreasing order of `xor(drb.cycle(), public_key)`.
pub open spec fn is_sorted_by_xor(drb: Seq<u8>, s: Seq<EntryModel>) -> bool {
    forall|i: int, j: int|
        0 <= i < j < s.len() ==> lex_le(sort_key(drb, #[trigger] s[i]), sort_key(drb, #[trigger] s[j]))
}

/// Every entry's key is at most `y`'s.
spec fn all_le(drb: Seq<u8>, s: Seq<EntryModel>, y: EntryModel) -> bool {
    forall|i: int| 0 <= i < s.len() ==> lex_le(sort_key(drb, #[trigger] s[i]), sort_key(drb, y))
}

proof fn lemma_sorted_insert_all_le(drb: Seq<u8>, t: Seq<EntryModel>, x: EntryModel, y: EntryModel)
    requires
        all_le(drb, t, y),
        lex_le(sort_key(drb, x), sort_key(drb, y)),
    ensures
        all_le(drb, sorted_insert(drb, t, x), y),
    decreases t.len(),
{
    if t.len() > 0 && !lex_le(sort_key(drb, t.last()), sort_key(drb, x)) {
        lemma_sorted_insert_all_le(drb, t.drop_last(), x, y);
        let r = sorted_insert(drb, t.drop_last(), x);
        assert forall|i: int| 0 <= i < r.push(t.last()).len() implies lex_le(
            sort_key(drb, #[trigger] r.push(t.last())[i]),
            sort_key(drb, y),
        ) by {
            if i < r.len() {
                assert(r.push(t.last())[i] == r[i]);
            } else {
                assert(t.last() == t[t.len() - 1]);
            }
        }
    } else {
        assert forall|i: int| 0 <= i < t.push(x).len() implies lex_le(
            sort_key(drb, #[trigger] t.push(x)[i]),
            sort_key(drb, y),
        ) by {
            if i < t.len() {
                assert(t.push(x)[i] == t[i]);
            }
        }
    }
}

proof fn lemma_sorted_insert_sorted(drb: Seq<u8>, s: Seq<EntryModel>, x: EntryModel)
    requires
        is_sorted_by_xor(drb, s),
    ensures
        is_sorted_by_xor(drb, sorted_insert(drb, s, x)),
    decreases s.len(),
{
    if s.len() == 0 || lex_le(sort_key(drb, s.last()), sort_key(drb, x)) {
        let r = s.push(x);
        assert forall|i: int, j: int| 0 <= i < j < r.len() implies lex_le(
            sort_key(drb, #[trigger] r[i]),
            sort_key(drb, #[trigger] r[j]),
        ) by {
            if j == s.len() {
                if i < s.len() - 1 {
                    assert(s[i] == r[i]);
                    assert(lex_le(sort_key(drb, s[i]), sort_key(drb, s[s.len() - 1])));
                    lemma_lex_le_transitive(sort_key(drb, s[i]), sort_key(drb, s.last()), sort_key(drb, x));
                }
            } else {
                assert(r[i] == s[i] && r[j] == s[j]);
            }
        }
    } else {
        let t = s.drop_last();
        let y = s.last();
        lemma_sorted_insert_sorted(drb, t, x);
        lemma_lex_le_total(sort_key(drb, y), sort_key(drb, x));
        assert forall|i: int| 0 <= i < t.len() implies lex_le(sort_key(drb, #[trigger] t[i]), sort_key(drb, y)) by {
            assert(t[i] == s[i] && y == s[s.len() - 1]);
        }
        lemma_sorted_insert_all_le(drb, t, x, y);
        let inner = sorted_insert(drb, t, x);
        let r = inner.push(y);
        assert forall|i: int, j: int| 0 <= i < j < r.len() implies lex_le(
            sort_key(drb, #[trigger] r[i]),
            sort_key(drb, #[trigger] r[j]),
        ) by {
            if j == inner.len() {
                assert(r[i] == inner[i]);
            } else {
                assert(r[i] == inner[i] && r[j] == inner[j]);
            }
        }
    }
}

/// The stake table sorted for leader selection is in non-decreasing order of
/// `xor(drb.cycle(), public_key)`.
pub proof fn lemma_sort_by_xor_sorted(drb: Seq<u8>, s: Seq<EntryModel>)
    ensures
        is_sorted_by_xor(drb, sort_by_xor(drb, s)),
    decreases s.len(),
{
    if s.len() > 0 {
        lemma_sort_by_xor_sorted(drb, s.drop_last());
        lemma_sorted_insert_sorted(drb, sort_by_xor(drb, s.drop_last()), s.last());
    }
}

proof fn lemma_sorted_insert_multiset(drb: Seq<u8>, s: Seq<EntryModel>, x: EntryModel)
    ensures
        sorted_insert(drb, s, x).to_multiset() == s.to_multiset().insert(x),
    decreases s.len(),
{
    broadcast use vstd::seq_lib::group_to_multiset_ensures;

    if s.len() > 0 && !lex_le(sort_key(drb, s.last()), sort_key(drb, x)) {
        let t = s.drop_last();
        lemma_sorted_insert_multiset(drb, t, x);
        assert(t.push(s.last()) =~= s);
        assert(sorted_insert(drb, s, x).to_multiset() =~= s.to_multiset().insert(x));
    }
}

/// Sorting the stake table for leader selection neither adds nor drops an entry.
pub proof fn lemma_sort_by_xor_permutation(drb: Seq<u8>, s: Seq<EntryModel>)
    ensures
        sort_by_xor(drb, s).to_multiset() == s.to_multiset(),
    decreases s.len(),
{
    broadcast use vstd::seq_lib::group_to_multiset_ensures;

    if s.len() > 0 {
        lemma_sort_by_xor_permutation(drb, s.drop_last());
        lemma_sorted_insert_multiset(drb, sort_by_xor(drb, s.drop_last()), s.last());
        assert(s.drop_last().push(s.last()) =~= s);
    }
}

/// Total stake grows with the number of entries counted.
pub proof fn lemma_stake_prefix_monotonic(s: Seq<EntryModel>, m: nat, n: nat)
    requires
        m <= n,
    ensures
        stake_prefix(s, m) <= stake_prefix(s, n),
    decreases n,
{
    if m < n {
        lemma_stake_prefix_monotonic(s, m, (n - 1) as nat);
    }
}

/// The total stake of the entries.
pub open spec fn total_stake(s: Seq<EntryModel>) -> nat {
    stake_prefix(s, s.len())
}

proof fn lemma_stake_prefix_push(s: Seq<EntryModel>, x: EntryModel, n: nat)
    requires
        n <= s.len(),
    ensures
        stake_prefix(s.push(x), n) == stake_prefix(s, n),
    decreases n,
{
    if n > 0 {
        lemma_stake_prefix_push(s, x, (n - 1) as nat);
        assert(s.push(x)[n - 1] == s[n - 1]);
    }
}

proof fn lemma_total_stake_push(s: Seq<EntryModel>, x: EntryModel)
    ensures
        total_stake(s.push(x)) == total_stake(s) + x.stake,
{
    lemma_stake_prefix_push(s, x, s.len());
}

proof fn lemma_sorted_insert_total_stake(drb: Seq<u8>, s: Seq<EntryModel>, x: EntryModel)
    ensures
        total_stake(sorted_insert(drb, s, x)) == total_stake(s) + x.stake,
    decreases s.len(),
{
    if s.len() == 0 || lex_le(sort_key(drb, s.last()), sort_key(drb, x)) {
        lemma_total_stake_push(s, x);
    } else {
        let t = s.drop_last();
        lemma_sorted_insert_total_stake(drb, t, x);
        lemma_total_stake_push(sorted_insert(drb, t, x), s.last());
        lemma_total_stake_push(t, s.last());
        assert(t.push(s.last()) =~= s);
    }
}

/// Sorting the stake table for leader selection keeps its total stake.
pub proof fn lemma_sort_keeps_total_stake(drb: Seq<u8>, s: Seq<EntryModel>)
    ensures
        total_stake(sort_by_xor(drb, s)) == total_stake(s),
    decreases s.len(),
{
    if s.len() > 0 {
        let t = s.drop_last();
        lemma_sort_keeps_total_stake(drb, t);
        lemma_sorted_insert_total_stake(drb, sort_by_xor(drb, t), s.last());
        lemma_total_stake_push(t, s.last());
        assert(t.push(s.last()) =~= s);
    }
}

/// When the total stake of the table fits in 256 bits, the cumulative stakes
/// of the committee generated from it never decrease, and the last of them is
/// the total stake: the committee is one from which a leader can be selected,
/// if the table is not empty and the total stake is not zero.
pub proof fn lemma_generated_cdf_ordered(c: RandomizedCommittee, stake_table: Seq<EntryModel>, drb: [u8; 32])
    requires
        generated_from(c, stake_table, drb),
        total_stake(stake_table) < two_pow_256(),
    ensures
        cdf_is_ordered(c.cdf@),
        c.cdf@.len() > 0 ==> c.cdf@.last().1.value() == total_stake(stake_table),
{
    let order = sort_by_xor(drb@, stake_table);
    lemma_sort_keeps_total_stake(drb@, stake_table);
    lemma_sort_len(drb@, stake_table);
    assert forall|i: int, j: int| 0 <= i <= j < c.cdf@.len() implies c.cdf@[i].1.value() <= c.cdf@[j].1.value() by {
        lemma_stake_prefix_monotonic(order, (i + 1) as nat, (j + 1) as nat);
        lemma_stake_prefix_monotonic(order, (j + 1) as nat, stake_table.len());
        vstd::arithmetic::div_mod::lemma_small_mod(stake_prefix(order, (i + 1) as nat), two_pow_256());
        vstd::arithmetic::div_mod::lemma_small_mod(stake_prefix(order, (j + 1) as nat), two_pow_256());
    }
    if c.cdf@.len() > 0 {
        vstd::arithmetic::div_mod::lemma_small_mod(stake_prefix(order, stake_table.len()), two_pow_256());
    }
}

/// The leader drawn from a committee generated from a table whose total stake
/// fits in 256 bits is a node with a non-zero stake.
pub proof fn lemma_leader_has_stake(
    c: RandomizedCommittee,
    stake_table: Seq<EntryModel>,
    drb: [u8; 32],
    view: u64,
    i: int,
)
    requires
        generated_from(c, stake_table, drb),
        total_stake(stake_table) < two_pow_256(),
        is_leader_index(c, view, i),
    ensures
        c.cdf@[i].0@.stake > 0,
{
    let order = sort_by_xor(drb@, stake_table);
    lemma_sort_keeps_total_stake(drb@, stake_table);
    lemma_sort_len(drb@, stake_table);
    lemma_stake_prefix_monotonic(order, (i + 1) as nat, stake_table.len());
    vstd::arithmetic::div_mod::lemma_small_mod(stake_prefix(order, (i + 1) as nat), two_pow_256());
    if i > 0 {
        lemma_stake_prefix_monotonic(order, i as nat, stake_table.len());
        vstd::arithmetic::div_mod::lemma_small_mod(stake_prefix(order, i as nat), two_pow_256());
        assert(c.cdf@[i - 1].1.value() <= leader_breakpoint(c, view));
    }
}

} // verus!
