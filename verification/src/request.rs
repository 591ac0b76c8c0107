//! The requests that a sequencer node makes of its peers during catchup.
use vstd::prelude::*;

verus! {

/// A block height.
pub type Height = u64;

/// A view number.
pub type ViewNumber = u64;

/// The outermost request type. This an enum that contains all the possible requests that the
/// sequencer can make. Accounts are given by their 20-byte addresses, a chain
/// config by its 32-byte commitment.
#[derive(Clone, Debug)]
pub enum Request {
    /// A request for the leaf chain at a given height
    LeafChain(Height),
    /// A request for the accounts at a given height and view
    Accounts(Height, ViewNumber, Vec<[u8; 20]>),
    /// A request for a chain config with a particular commitment
    ChainConfig([u8; 32]),
    /// A request for the blocks frontier
    BlocksFrontier(Height, ViewNumber),
    /// A request for the reward accounts at a given height and view
    RewardAccounts(Height, ViewNumber, Vec<[u8; 20]>),
}

/// Why a request is refused.
#[derive(Debug)]
pub enum RequestError {
    /// The request is not well formed
    Invalid,
}

impl Request {
    /// Validate a request before answering it. Every kind of request is valid.
    pub fn validate(&self) -> (r: Result<(), RequestError>)
        ensures
            r is Ok,
    {
        match self {
            Request::LeafChain(_) => Ok(()),
            Request::ChainConfig(_) => Ok(()),
            Request::Accounts(_, _, _) => Ok(()),
            Request::BlocksFrontier(_, _) => Ok(()),
            Request::RewardAccounts(_, _, _) => Ok(()),
        }
    }
}

/// The kinds of response, one for each kind of request.
#[derive(Clone, Copy, Debug, PartialEq, Eq, Structural)]
pub enum ResponseKind {
    /// A leaf chain
    LeafChain,
    /// A fee merkle tree of accounts
    Accounts,
    /// A chain config
    ChainConfig,
    /// A blocks frontier
    BlocksFrontier,
    /// A reward merkle tree of accounts
    RewardAccounts,
}

/// The kind of response that answers a request.
pub open spec fn answering_kind(request: Request) -> ResponseKind {
    match request {
        Request::LeafChain(_) => ResponseKind::LeafChain,
        Request::Accounts(_, _, _) => ResponseKind::Accounts,
        Request::ChainConfig(_) => ResponseKind::ChainConfig,
        Request::BlocksFrontier(_, _) => ResponseKind::BlocksFrontier,
        Request::RewardAccounts(_, _, _) => ResponseKind::RewardAccounts,
    }
}

impl Request {
    /// The kind of response that answers this request.
    pub fn response_kind(&self) -> (k: ResponseKind)
        ensures
            k == answering_kind(*self),
    {
        match self {
            Request::LeafChain(_) => ResponseKind::LeafChain,
            Request::Accounts(_, _, _) => ResponseKind::Accounts,
            Request::ChainConfig(_) => ResponseKind::ChainConfig,
            Request::BlocksFrontier(_, _) => ResponseKind::BlocksFrontier,
            Request::RewardAccounts(_, _, _) => ResponseKind::RewardAccounts,
        }
    }
}

/// Accepts a response of kind `got` to `request` when it is of the kind that
/// answers the request; otherwise names the kind that was expected.
pub fn check_response_kind(request: &Request, got: ResponseKind) -> (r: Result<(), ResponseKind>)
    ensures
        got == answering_kind(*request) ==> r is Ok,
        got != answering_kind(*request) ==> r == Err::<(), ResponseKind>(answering_kind(*request)),
{
    let expected = request.response_kind();
    if got == expected {
        Ok(())
    } else {
        Err(expected)
    }
}

/// Why a data source cannot answer a request.
#[derive(Debug)]
pub enum DataSourceError {
    /// The data source has no storage to read from
    StorageNotInitialized,
}

/// The storage a data source answers from: an error when it was never set up.
pub fn require_storage<S>(storage: &Option<S>) -> (r: Result<&S, DataSourceError>)
    ensures
        match storage {
            Some(s) => r == Ok::<&S, DataSourceError>(s),
            None => r matches Err(DataSourceError::StorageNotInitialized),
        },
{
    match storage {
        Some(s) => Ok(s),
        None => Err(DataSourceError::StorageNotInitialized),
    }
}

} // verus!
