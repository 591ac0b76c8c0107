use espresso_core::builder::{
    connect_step, BuildError, BuilderApiError, BuilderClientError, ConnectAction, ConnectEvent, INITIAL_BACKOFF_MS,
};
use espresso_core::ns_proof::{namespace_provable, NsRange};
use espresso_core::request::{check_response_kind, require_storage, DataSourceError, Request, ResponseKind};
use espresso_core::staking::{stake_table_abi, StakeTableAbi};

fn api(msg: &str) -> String {
    msg.to_string()
}

#[test]
fn builder_api_errors_map_to_client_errors() {
    let cases = vec![
        (BuilderApiError::Request(api("r")), Some("r")),
        (BuilderApiError::TxnUnpack(api("u")), Some("u")),
        (BuilderApiError::TxnSubmit(api("s")), Some("s")),
        (BuilderApiError::BuilderAddress(api("a")), Some("a")),
        (BuilderApiError::Custom { message: api("c") }, Some("c")),
        (BuilderApiError::TxnStat(api("t")), Some("t")),
        (BuilderApiError::BlockAvailable { source: BuildError::Error(api("e")) }, Some("e")),
        (BuilderApiError::BlockClaim { source: BuildError::Error(api("f")) }, Some("f")),
    ];
    for (e, msg) in cases {
        match BuilderClientError::from(e) {
            BuilderClientError::Api(m) => assert_eq!(Some(m.as_str()), msg),
            other => panic!("unexpected {:?}", other),
        }
    }
    assert!(matches!(
        BuilderClientError::from(BuilderApiError::BlockAvailable { source: BuildError::NotFound }),
        BuilderClientError::BlockNotFound
    ));
    assert!(matches!(
        BuilderClientError::from(BuilderApiError::BlockClaim { source: BuildError::Missing }),
        BuilderClientError::BlockMissing
    ));
    assert!(matches!(
        BuilderClientError::from(BuilderApiError::BlockClaim { source: BuildError::NotFound }),
        BuilderClientError::BlockNotFound
    ));
}

#[test]
fn connect_backs_off_exponentially() {
    let (b, a) = connect_step(INITIAL_BACKOFF_MS, ConnectEvent::HealthChecked { available: false });
    assert_eq!(b, 100);
    assert!(matches!(a, ConnectAction::SleepThenRetry { sleep_ms: 50 }));
    let (b, a) = connect_step(b, ConnectEvent::HealthChecked { available: false });
    assert_eq!(b, 200);
    assert!(matches!(a, ConnectAction::SleepThenRetry { sleep_ms: 100 }));
    let (b, a) = connect_step(b, ConnectEvent::HealthChecked { available: true });
    assert_eq!(b, 200);
    assert!(matches!(a, ConnectAction::Connected));
    let (_, a) = connect_step(b, ConnectEvent::DeadlinePassed);
    assert!(matches!(a, ConnectAction::TimedOut));
}

#[test]
fn requests_are_all_valid() {
    let reqs = vec![
        Request::LeafChain(1),
        Request::Accounts(1, 2, vec![[1u8; 20]]),
        Request::ChainConfig([0u8; 32]),
        Request::BlocksFrontier(3, 4),
        Request::RewardAccounts(5, 6, vec![]),
    ];
    for r in reqs {
        assert!(r.validate().is_ok());
    }
}

#[test]
fn stake_table_abi_by_version() {
    assert!(matches!(stake_table_abi(1), StakeTableAbi::V1));
    assert!(matches!(stake_table_abi(2), StakeTableAbi::V2));
}

#[test]
fn namespace_provable_needs_a_nonempty_range() {
    let ranges = vec![NsRange { start: 0, end: 10 }, NsRange { start: 10, end: 10 }, NsRange { start: 10, end: 12 }];
    assert!(namespace_provable(&ranges, 0));
    assert!(!namespace_provable(&ranges, 1));
    assert!(namespace_provable(&ranges, 2));
    assert!(!namespace_provable(&ranges, 3));
    assert!(!namespace_provable(&vec![], 0));
}

#[test]
fn responders_fall_back_to_genesis() {
    use_recipients();
}

fn use_recipients() {
    assert_eq!(espresso_core::recipients::responders_epoch(Some(7)), 7);
    assert_eq!(espresso_core::recipients::responders_epoch(None), 0);
    assert_eq!(espresso_core::recipients::responders_table_epoch(7, true), 7);
    assert_eq!(espresso_core::recipients::responders_table_epoch(7, false), 0);
}

#[test]
fn each_request_is_answered_by_its_own_kind() {
    let requests = vec![
        (Request::LeafChain(3), ResponseKind::LeafChain),
        (Request::Accounts(1, 2, vec![[7u8; 20]]), ResponseKind::Accounts),
        (Request::ChainConfig([9u8; 32]), ResponseKind::ChainConfig),
        (Request::BlocksFrontier(4, 5), ResponseKind::BlocksFrontier),
        (Request::RewardAccounts(1, 2, vec![]), ResponseKind::RewardAccounts),
    ];
    for (request, kind) in requests {
        assert_eq!(request.response_kind(), kind);
        assert!(check_response_kind(&request, kind).is_ok());
    }
}

#[test]
fn a_response_of_another_kind_is_refused() {
    let request = Request::Accounts(10, 11, vec![[1u8; 20]]);
    assert_eq!(check_response_kind(&request, ResponseKind::LeafChain), Err(ResponseKind::Accounts));
    let request = Request::ChainConfig([0u8; 32]);
    assert_eq!(check_response_kind(&request, ResponseKind::RewardAccounts), Err(ResponseKind::ChainConfig));
}

#[test]
fn a_data_source_without_storage_cannot_answer() {
    let none: Option<u32> = None;
    assert!(matches!(require_storage(&none), Err(DataSourceError::StorageNotInitialized)));
    let some = Some(42u32);
    assert_eq!(require_storage(&some).unwrap(), &42);
}
