//! Which stake table names the peers expected to answer a request.
use vstd::prelude::*;

verus! {

/// The genesis epoch.
pub const GENESIS_EPOCH: u64 = 0;

/// The epoch whose stake table answers requests: the current epoch, or the
/// genesis epoch before there is one.
pub fn responders_epoch(current_epoch: Option<u64>) -> (epoch: u64)
    ensures
        epoch == match current_epoch {
            Some(e) => e,
            None => GENESIS_EPOCH,
        },
{
    match current_epoch {
        Some(e) => e,
        None => GENESIS_EPOCH,
    }
}

/// The epoch whose stake table is read once the catchup for `epoch` has
/// ended: that epoch if the catchup succeeded, the genesis epoch otherwise.
pub fn responders_table_epoch(epoch: u64, catchup_succeeded: bool) -> (table_epoch: u64)
    ensures
        table_epoch == if catchup_succeeded {
            epoch
        } else {
            GENESIS_EPOCH
        },
{
    if catchup_succeeded {
        epoch
    } else {
        GENESIS_EPOCH
    }
}

} // verus!
