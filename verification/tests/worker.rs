use richat::encoding::{encode_ping, Timestamp};
use richat::filter::ConfigLimits;
use richat::request::SubscribeRequest;
use richat::encoding::encode_pong;
use richat::server::{
    apply_request, on_request, tick, ApplyError, CommitmentLevel, MessagesCache, RequestStep, StreamError,
    SubscribeClientState,
};

fn t0() -> Timestamp {
    Timestamp { seconds: 1, nanos: 0 }
}

fn request(commitment: Option<i32>) -> SubscribeRequest {
    SubscribeRequest {
        slots: vec![],
        accounts: vec![],
        transactions: vec![],
        transactions_status: vec![],
        entry: vec!["e".to_string()],
        blocks: vec![],
        blocks_meta: vec![],
        commitment,
        accounts_data_slice: vec![],
        from_slot: None,
        ping: None,
    }
}

fn fetch_below_three(pos: u64) -> Result<Option<u64>, StreamError> {
    if pos < 3 { Ok(Some(pos * 10)) } else { Ok(None) }
}

fn updates_of(m: &u64) -> Vec<Vec<u8>> {
    vec![vec![*m as u8]]
}

#[test]
fn cache_answers_or_fetches() {
    let mut cache: MessagesCache<u64> = MessagesCache::new(4);
    let fetch = |pos: u64| -> Result<Option<u64>, StreamError> { Ok(Some(pos * 10)) };
    assert_eq!(cache.try_recv(10, &fetch), Ok(Some(100)));
    let fail = |_: u64| -> Result<Option<u64>, StreamError> { Err(StreamError::Lagged) };
    assert_eq!(cache.try_recv(10, &fail), Ok(Some(100)));
    assert_eq!(cache.try_recv(11, &fail), Err(StreamError::Lagged));
    // positions more than the cache's size behind the head are not kept
    assert_eq!(cache.try_recv(2, &fetch), Ok(Some(20)));
    assert_eq!(cache.try_recv(2, &fail), Err(StreamError::Lagged));
}

#[test]
fn tick_drops_orphans_and_delivers_up_to_the_limit() {
    let mut cache: MessagesCache<u64> = MessagesCache::new(8);
    let mut c = SubscribeClientState::new(1, 1000);
    assert!(!tick(&mut c, &mut cache, &fetch_below_three, Some(&updates_of), 0, 10, 5, t0()));
    c.ref_count = 2;
    assert!(tick(&mut c, &mut cache, &fetch_below_three, Some(&updates_of), 20, 10, 2, t0()));
    assert_eq!(c.head, 2);
    assert_eq!(c.pop_message(), Some(Ok(encode_ping(t0()))));
    assert_eq!(c.pop_message(), Some(Ok(vec![0])));
    assert_eq!(c.pop_message(), Some(Ok(vec![10])));
    assert!(tick(&mut c, &mut cache, &fetch_below_three, Some(&updates_of), 0, 10, 5, t0()));
    assert_eq!(c.head, 3);
    assert_eq!(c.pop_message(), Some(Ok(vec![20])));
    assert_eq!(c.pop_message(), None);
    let none: Option<&fn(&u64) -> Vec<Vec<u8>>> = None;
    assert!(tick(&mut c, &mut cache, &fetch_below_three, none, 0, 10, 5, t0()));
    assert_eq!(c.head, 3);
    let lagged = |_: u64| -> Result<Option<u64>, StreamError> { Err(StreamError::Lagged) };
    assert!(!tick(&mut c, &mut cache, &lagged, Some(&updates_of), 0, 10, 5, t0()));
    assert_eq!(c.pop_message(), Some(Err(StreamError::Lagged)));
}

#[test]
fn request_sets_commitment_and_head() {
    let limits = ConfigLimits::default();
    let mut c = SubscribeClientState::new(1, 1000);
    let f = apply_request(&mut c, &request(Some(1)), &limits, |level, from| {
        assert_eq!(from, None);
        assert_eq!(level, CommitmentLevel::Confirmed);
        Some(42)
    })
    .unwrap();
    assert_eq!(f.entries, vec!["e".to_string()]);
    assert_eq!((c.commitment, c.head), (CommitmentLevel::Confirmed, 42));
    assert!(matches!(apply_request(&mut c, &request(Some(9)), &limits, |_, _| Some(7)), Err(ApplyError::Filter(_))));
    assert_eq!((c.commitment, c.head), (CommitmentLevel::Confirmed, 42));
    assert!(matches!(apply_request(&mut c, &request(None), &limits, |_, _| None), Err(ApplyError::NoSlot)));
    assert_eq!((c.commitment, c.head), (CommitmentLevel::Processed, 42));
}

#[test]
fn requests_on_the_stream_get_pong_filter_or_error() {
    let limits = ConfigLimits::default();
    let mut c = SubscribeClientState::new(1, 1000);
    let mut ping = request(None);
    ping.ping = Some(7);
    assert!(matches!(on_request(&mut c, &ping, &limits, |_, _| Some(1), t0()), RequestStep::Pong));
    assert_eq!(c.head, 0);
    let mut from = request(Some(2));
    from.from_slot = Some(50);
    let step = on_request(&mut c, &from, &limits, |level, slot| {
        assert_eq!((level, slot), (CommitmentLevel::Finalized, Some(50)));
        Some(9)
    }, t0());
    assert!(matches!(step, RequestStep::Subscribed(_)));
    assert_eq!((c.commitment, c.head), (CommitmentLevel::Finalized, 9));
    let step = on_request(&mut c, &request(Some(9)), &limits, |_, _| Some(1), t0());
    assert!(matches!(step, RequestStep::Refused(ApplyError::Filter(_))));
    assert_eq!(c.pop_message(), Some(Err(StreamError::InvalidArgument)));
    assert_eq!(c.pop_message(), Some(Ok(encode_pong(7, t0()))));
    assert_eq!(c.pop_message(), None);
}
