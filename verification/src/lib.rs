//! Verified core logic of an Espresso sequencer node: the distributed random
//! beacon (DRB) and the stake-weighted leader election built on it, and the
//! bounded queues and task pools used by the request/response protocol.

pub mod hashing;
pub mod drb;
pub mod u256;
pub mod election;
pub mod util;
pub mod builder;
pub mod request;
pub mod staking;
pub mod ns_proof;
pub mod recipients;
