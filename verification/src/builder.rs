//! The client of the block builder's API: the errors it reports, and the
//! decisions of the loop that waits for the builder to become available.
use vstd::prelude::*;
use vstd::std_specs::convert::FromSpecImpl;

verus! {

/// Why the builder could not hand out a block.
#[derive(Debug)]
pub enum BuildError {
    /// The block was not found
    NotFound,
    /// The block was missing
    Missing,
    /// Another error, with its message
    Error(String),
}

/// An error of the builder API, with the message of each error source it
/// carries as text.
#[derive(Debug)]
pub enum BuilderApiError {
    Request(String),
    TxnUnpack(String),
    TxnSubmit(String),
    BuilderAddress(String),
    Custom { message: String },
    BlockAvailable { source: BuildError },
    BlockClaim { source: BuildError },
    TxnStat(String),
}

/// Represents errors that can occur while interacting with the builder
#[derive(Debug)]
pub enum BuilderClientError {
    /// The requested block was not found
    BlockNotFound,
    /// The requested block was missing
    BlockMissing,
    /// Generic error while accessing the API
    Api(String),
}

/// The client error that an API error becomes: a block that was not found or
/// was missing is reported as such, every other error as an API error with its
/// message.
pub open spec fn client_error_of(value: BuilderApiError) -> BuilderClientError {
    match value {
        BuilderApiError::Request(source) => BuilderClientError::Api(source),
        BuilderApiError::TxnUnpack(source) => BuilderClientError::Api(source),
        BuilderApiError::TxnSubmit(source) => BuilderClientError::Api(source),
        BuilderApiError::BuilderAddress(source) => BuilderClientError::Api(source),
        BuilderApiError::Custom { message } => BuilderClientError::Api(message),
        BuilderApiError::BlockAvailable { source } => build_error_of(source),
        BuilderApiError::BlockClaim { source } => build_error_of(source),
        BuilderApiError::TxnStat(source) => BuilderClientError::Api(source),
    }
}

/// The client error for a block that could not be handed out.
pub open spec fn build_error_of(source: BuildError) -> BuilderClientError {
    match source {
        BuildError::NotFound => BuilderClientError::BlockNotFound,
        BuildError::Missing => BuilderClientError::BlockMissing,
        BuildError::Error(message) => BuilderClientError::Api(message),
    }
}

impl From<BuilderApiError> for BuilderClientError {
    fn from(value: BuilderApiError) -> (r: Self) {
        match value {
            BuilderApiError::Request(source) | BuilderApiError::TxnUnpack(source) => Self::Api(source),
            BuilderApiError::TxnSubmit(source) | BuilderApiError::BuilderAddress(source) => Self::Api(source),
            BuilderApiError::Custom { message } => Self::Api(message),
            BuilderApiError::BlockAvailable { source } | BuilderApiError::BlockClaim { source } => match source {
                BuildError::NotFound => Self::BlockNotFound,
                BuildError::Missing => Self::BlockMissing,
                BuildError::Error(message) => Self::Api(message),
            },
            BuilderApiError::TxnStat(source) => Self::Api(source),
        }
    }
}

impl FromSpecImpl<BuilderApiError> for BuilderClientError {
    open spec fn obeys_from_spec() -> bool {
        true
    }

    open spec fn from_spec(v: BuilderApiError) -> BuilderClientError {
        client_error_of(v)
    }
}

/// A build error reaches the client the same way whichever call reported it,
/// whether the block's availability or its claim: a missing block as
/// `BlockMissing`, a block not found as `BlockNotFound`, and any other build
/// error as an API error carrying its message.
pub proof fn lemma_block_errors_reach_the_client(source: BuildError)
    ensures
        client_error_of(BuilderApiError::BlockAvailable { source }) == client_error_of(
            BuilderApiError::BlockClaim { source },
        ),
        (client_error_of(BuilderApiError::BlockClaim { source }) == BuilderClientError::BlockMissing) <==> (source
            == BuildError::Missing),
        (client_error_of(BuilderApiError::BlockClaim { source }) == BuilderClientError::BlockNotFound) <==> (source
            == BuildError::NotFound),
        forall|message: String|
            (client_error_of(BuilderApiError::BlockClaim { source }) == BuilderClientError::Api(message)) <==> (source
                == BuildError::Error(message)),
{
}

/// Every other API error reaches the client as an API error carrying the
/// message it had.
pub proof fn lemma_other_errors_reach_the_client(message: String)
    ensures
        client_error_of(BuilderApiError::Request(message)) == BuilderClientError::Api(message),
        client_error_of(BuilderApiError::TxnUnpack(message)) == BuilderClientError::Api(message),
        client_error_of(BuilderApiError::TxnSubmit(message)) == BuilderClientError::Api(message),
        client_error_of(BuilderApiError::BuilderAddress(message)) == BuilderClientError::Api(message),
        client_error_of(BuilderApiError::Custom { message }) == BuilderClientError::Api(message),
        client_error_of(BuilderApiError::TxnStat(message)) == BuilderClientError::Api(message),
{
}

/// The backoff before the second health check, in milliseconds.
pub const INITIAL_BACKOFF_MS: u128 = 50;

/// The milliseconds that first do not fit in a `Duration`: its whole seconds
/// are a `u64`.
pub const DURATION_MS_LIMIT: u128 = 18_446_744_073_709_551_616_000u128;

/// What the loop that waits for the builder observed.
#[derive(Debug)]
pub enum ConnectEvent {
    /// The deadline has passed before the next health check
    DeadlinePassed,
    /// A health check was made before the deadline
    HealthChecked {
        /// Whether the builder reported itself available
        available: bool,
    },
}

/// What the loop that waits for the builder does next.
#[derive(Debug)]
pub enum ConnectAction {
    /// Report the builder connected
    Connected,
    /// Sleep for the given number of milliseconds, then check again
    SleepThenRetry { sleep_ms: u128 },
    /// Report that the builder did not respond before the deadline
    TimedOut,
}

/// One step of waiting for the builder: it is connected once a health check
/// reports it available; after each failed check the loop sleeps for the
/// backoff, which then doubles; when the deadline passes it gives up.
/// Returns the next backoff and the action. The doubled backoff must still
/// fit in a `Duration`, as doubling a `Duration` panics otherwise.
pub fn connect_step(backoff_ms: u128, event: ConnectEvent) -> (step: (u128, ConnectAction))
    requires
        event matches ConnectEvent::HealthChecked { available } && !available ==> 2 * backoff_ms
            < DURATION_MS_LIMIT,
    ensures
        match event {
            ConnectEvent::DeadlinePassed => step == (backoff_ms, ConnectAction::TimedOut),
            ConnectEvent::HealthChecked { available } => if available {
                step == (backoff_ms, ConnectAction::Connected)
            } else {
                step.0 == 2 * backoff_ms && step.1 == (ConnectAction::SleepThenRetry { sleep_ms: backoff_ms })
            },
        },
{
    match event {
        ConnectEvent::DeadlinePassed => (backoff_ms, ConnectAction::TimedOut),
        ConnectEvent::HealthChecked { available } => {
            if available {
                (backoff_ms, ConnectAction::Connected)
            } else {
                (backoff_ms * 2, ConnectAction::SleepThenRetry { sleep_ms: backoff_ms })
            }
        },
    }
}

} // verus!
