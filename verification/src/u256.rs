//! 256-bit unsigned amounts, held as four little-endian 64-bit limbs, with
//! the arithmetic of `alloy`'s `U256` and `U512`.
use vstd::prelude::*;
use alloy::primitives::{U256, U512};

verus! {

/// The base of one limb, 2^64.
pub open spec fn limb_base() -> nat {
    0x1_0000_0000_0000_0000nat
}

/// 2^256, the modulus of 256-bit arithmetic.
pub open spec fn two_pow_256() -> nat {
    0x1_0000_0000_0000_0000_0000_0000_0000_0000_0000_0000_0000_0000_0000_0000_0000_0000nat
}

/// 256^n.
pub open spec fn pow256(n: nat) -> nat
    decreases n,
{
    if n == 0 {
        1
    } else {
        256 * pow256((n - 1) as nat)
    }
}

/// The number that a little-endian byte string denotes.
pub open spec fn le_value(bytes: Seq<u8>) -> nat
    decreases bytes.len(),
{
    if bytes.len() == 0 {
        0
    } else {
        le_value(bytes.drop_last()) + bytes.last() as nat * pow256((bytes.len() - 1) as nat)
    }
}

/// The eight little-endian bytes of a `u64`, as `u64::to_le_bytes` gives them.
pub open spec fn u64_le_bytes(v: u64) -> Seq<u8> {
    Seq::new(8, |i: int| (v >> (8 * i) as u64) as u8)
}

/// The little-endian bytes of `v`, as `u64::to_le_bytes` gives them.
pub fn u64_to_le_bytes(v: u64) -> (bytes: [u8; 8])
    ensures
        bytes@ == u64_le_bytes(v),
{
    let mut bytes = [0u8; 8];
    let mut i: usize = 0;
    while i < 8
        invariant
            i <= 8,
            bytes@.len() == 8,
            forall|j: int| 0 <= j < i ==> bytes@[j] == (v >> (8 * j) as u64) as u8,
        decreases 8 - i,
    {
        let shift: u64 = 8 * i as u64;
        bytes[i] = (v >> shift) as u8;
        i = i + 1;
    }
    assert(bytes@ =~= u64_le_bytes(v));
    bytes
}

/// An unsigned 256-bit integer, as four 64-bit limbs, least significant first.
#[derive(Clone, Copy, Debug)]
pub struct Uint256 {
    pub limbs: [u64; 4],
}

impl Uint256 {
    /// The number denoted.
    pub open spec fn value(self) -> nat {
        self.limbs@[0] as nat + self.limbs@[1] as nat * 0x1_0000_0000_0000_0000nat
            + self.limbs@[2] as nat * 0x1_0000_0000_0000_0000_0000_0000_0000_0000nat
            + self.limbs@[3] as nat * 0x1_0000_0000_0000_0000_0000_0000_0000_0000_0000_0000_0000_0000nat
    }

    /// Zero.
    pub fn zero() -> (z: Self)
        ensures
            z.value() == 0,
    {
        let limbs = [0u64; 4];
        assert(limbs@ =~= seq![0u64, 0u64, 0u64, 0u64]);
        Uint256 { limbs }
    }

    /// The number given by its limbs, least significant first.
    pub fn from_limbs(limbs: [u64; 4]) -> (n: Self)
        ensures
            n.limbs == limbs,
    {
        Uint256 { limbs }
    }

    /// Whether `self >= other`, comparing the limbs from the most significant one.
    pub fn ge(&self, other: &Self) -> (r: bool)
        ensures
            r == (self.value() >= other.value()),
    {
        let a = self.limbs;
        let b = other.limbs;
        proof {
            lemma_limb_order(*self, *other);
        }
        if a[3] != b[3] {
            a[3] > b[3]
        } else if a[2] != b[2] {
            a[2] > b[2]
        } else if a[1] != b[1] {
            a[1] > b[1]
        } else {
            a[0] >= b[0]
        }
    }
}

/// The parts of a value below each limb are smaller than that limb's weight.
pub proof fn lemma_value_bounds(n: Uint256)
    ensures
        n.limbs@[0] as nat + n.limbs@[1] as nat * limb_base() < limb_base() * limb_base(),
        n.limbs@[0] as nat + n.limbs@[1] as nat * limb_base() + n.limbs@[2] as nat * (limb_base()
            * limb_base()) < limb_base() * limb_base() * limb_base(),
        n.value() < two_pow_256(),
{
    let l0 = n.limbs@[0] as nat;
    let l1 = n.limbs@[1] as nat;
    let l2 = n.limbs@[2] as nat;
    let l3 = n.limbs@[3] as nat;
    assert(l1 * limb_base() <= (limb_base() - 1) * limb_base()) by (nonlinear_arith)
        requires
            l1 < limb_base(),
    ;
    assert(l2 * (limb_base() * limb_base()) <= (limb_base() - 1) * (limb_base() * limb_base()))
        by (nonlinear_arith)
        requires
            l2 < limb_base(),
    ;
    assert(l3 * (limb_base() * limb_base() * limb_base()) <= (limb_base() - 1) * (limb_base()
        * limb_base() * limb_base())) by (nonlinear_arith)
        requires
            l3 < limb_base(),
    ;
}

/// Comparing two values is comparing their limbs from the most significant one.
proof fn lemma_limb_order(a: Uint256, b: Uint256)
    ensures
        a.limbs@[3] > b.limbs@[3] ==> a.value() > b.value(),
        a.limbs@[3] == b.limbs@[3] && a.limbs@[2] > b.limbs@[2] ==> a.value() > b.value(),
        a.limbs@[3] == b.limbs@[3] && a.limbs@[2] == b.limbs@[2] && a.limbs@[1] > b.limbs@[1]
            ==> a.value() > b.value(),
        a.limbs@[3] == b.limbs@[3] && a.limbs@[2] == b.limbs@[2] && a.limbs@[1] == b.limbs@[1]
            ==> (a.value() >= b.value() <==> a.limbs@[0] >= b.limbs@[0]),
{
    lemma_value_bounds(a);
    lemma_value_bounds(b);
    let base = limb_base();
    let (a0, a1, a2, a3) = (a.limbs@[0] as nat, a.limbs@[1] as nat, a.limbs@[2] as nat, a.limbs@[3] as nat);
    let (b0, b1, b2, b3) = (b.limbs@[0] as nat, b.limbs@[1] as nat, b.limbs@[2] as nat, b.limbs@[3] as nat);
    if a3 > b3 {
        assert(a3 * (base * base * base) >= b3 * (base * base * base) + base * base * base)
            by (nonlinear_arith)
            requires
                a3 > b3,
        ;
    }
    if a3 == b3 && a2 > b2 {
        assert(a2 * (base * base) >= b2 * (base * base) + base * base) by (nonlinear_arith)
            requires
                a2 > b2,
        ;
    }
    if a3 == b3 && a2 == b2 && a1 > b1 {
        assert(a1 * base >= b1 * base + base) by (nonlinear_arith)
            requires
                a1 > b1,
        ;
    }
}

/// Calls `+=` on `alloy::primitives::U256` (ruint's `AddAssign`, which is
/// `wrapping_add`). Trusted: the sum wraps around at 2^256, as ruint
/// documents for `wrapping_add`.
#[verifier::external_body]
pub(crate) fn uint256_add(a: &Uint256, b: &Uint256) -> (sum: Uint256)
    ensures
        sum.value() == (a.value() + b.value()) % two_pow_256(),
{
    let mut x = U256::from_limbs(a.limbs);
    x += U256::from_limbs(b.limbs);
    Uint256 { limbs: x.into_limbs() }
}

/// Calls `%` on `alloy::primitives::U512`, of `U512::from_le_bytes(raw)` by
/// `U512::from(modulus)`, and keeps the low 256 bits of the remainder, which
/// is smaller than the modulus. Trusted: the remainder is the arithmetic one,
/// as ruint documents for `Rem`; it panics on a zero modulus, which `requires`
/// leaves out.
#[verifier::external_body]
pub(crate) fn uint512_le_rem(raw: [u8; 64], modulus: &Uint256) -> (rem: Uint256)
    requires
        modulus.value() > 0,
    ensures
        rem.value() == le_value(raw@) % modulus.value(),
{
    let r = U512::from_le_bytes(raw) % U512::from(U256::from_limbs(modulus.limbs));
    Uint256 { limbs: U256::from_le_slice(&r.to_le_bytes_vec()[0..32]).into_limbs() }
}

} // verus!
