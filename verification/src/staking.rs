//! Which stake table contract functions register a validator and update its
//! keys, by the contract's major version.
use vstd::prelude::*;

verus! {

/// The interface of the stake table contract that a call goes through.
#[derive(Debug)]
pub enum StakeTableAbi {
    /// Version 1: the BLS key, the Schnorr key, the BLS signature (and, for
    /// registration, the commission)
    V1,
    /// Version 2: as version 1, with the Schnorr signature as well
    V2,
}

/// The interface to use with a stake table contract of the given major
/// version; only versions 1 and 2 are supported.
pub fn stake_table_abi(major_version: u8) -> (abi: StakeTableAbi)
    requires
        major_version == 1 || major_version == 2,
    ensures
        major_version == 1 ==> abi is V1,
        major_version == 2 ==> abi is V2,
{
    if major_version == 1 {
        StakeTableAbi::V1
    } else {
        StakeTableAbi::V2
    }
}

} // verus!
