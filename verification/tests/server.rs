use richat::filter::CommitmentLevelProto;
use richat::server::{
    block_message_failed_labels, parse_commitment, BlockMessageFailedReason, BlockMetaStorage, CacheLookup,
    CommitmentError, CommitmentLevel, ConfigAppsGrpcStream, DeliveryStep, ConfigAppsGrpcUnary, ConfigAppsGrpcWorkers,
    ConfigAppsWorkers, ConfigLog, MessagesCache, StreamError, SubscribeClientState, WorkersError,
    MAX_PROCESSING_AGE,
};

#[test]
fn commitment_of_requests() {
    assert_eq!(parse_commitment(None), Ok(CommitmentLevelProto::Processed));
    assert_eq!(parse_commitment(Some(0)), Ok(CommitmentLevelProto::Processed));
    assert_eq!(parse_commitment(Some(1)), Ok(CommitmentLevelProto::Confirmed));
    assert_eq!(parse_commitment(Some(2)), Ok(CommitmentLevelProto::Finalized));
    assert_eq!(parse_commitment(Some(3)), Err(CommitmentError::NotAllowed));
    assert_eq!(parse_commitment(Some(6)), Err(CommitmentError::NotAllowed));
    assert_eq!(parse_commitment(Some(7)), Err(CommitmentError::Unknown(7)));
    assert_eq!(parse_commitment(Some(-1)), Err(CommitmentError::Unknown(-1)));
}

#[test]
fn failed_reason_names() {
    assert_eq!(BlockMessageFailedReason::MissedBlockMeta.as_str(), "MissedBlockMeta");
    assert_eq!(BlockMessageFailedReason::MismatchTransactions.as_str(), "MismatchTransactions");
    assert_eq!(BlockMessageFailedReason::ExtraBlockMeta.as_str(), "ExtraBlockMeta");
}

#[test]
fn failed_reason_labels() {
    assert!(block_message_failed_labels(&vec![]).is_none());
    let (line, labels, total) = block_message_failed_labels(&vec![
        BlockMessageFailedReason::MissedBlockMeta,
        BlockMessageFailedReason::ExtraEntry,
        BlockMessageFailedReason::ExtraAccount,
    ])
    .unwrap();
    assert_eq!(line, "MissedBlockMeta,ExtraEntry,ExtraAccount");
    assert_eq!(labels, vec!["MissedBlockMeta", "ExtraEntry", "ExtraAccount"]);
    assert_eq!(total, 3);
}

#[test]
fn client_queue_is_fifo_and_error_comes_first() {
    let mut c = SubscribeClientState::new(7, 10);
    assert_eq!((c.id, c.ref_count, c.commitment, c.head), (7, 1, CommitmentLevel::Processed, 0));
    assert!(c.pop_message().is_none());
    c.push_message(vec![1; 6]);
    assert!(!c.is_full());
    c.push_message(vec![2; 6]);
    assert!(c.is_full());
    assert_eq!(c.pop_message(), Some(Ok(vec![1; 6])));
    assert!(!c.is_full());
    c.push_error(StreamError::Lagged);
    assert_eq!(c.pop_message(), Some(Err(StreamError::Lagged)));
    assert_eq!(c.pop_message(), Some(Ok(vec![2; 6])));
    assert_eq!(c.pop_message(), None);
}

#[test]
fn cache_keeps_positions_near_the_head() {
    let mut cache: MessagesCache<u32> = MessagesCache::new(3);
    // Four cells: with the head at 0 the range wraps around below zero.
    assert!(matches!(cache.lookup(0), CacheLookup::Miss { in_range: false }));
    cache.advance(10);
    cache.advance(4);
    assert!(matches!(cache.lookup(8), CacheLookup::Miss { in_range: true }));
    cache.store(8, 42);
    assert!(matches!(cache.lookup(8), CacheLookup::Hit(Some(&42))));
    assert!(matches!(cache.lookup(12), CacheLookup::Miss { in_range: true }));
    cache.store(5, 1);
    assert!(matches!(cache.lookup(5), CacheLookup::Miss { in_range: false }));
    cache.store(12, 9);
    assert!(matches!(cache.lookup(12), CacheLookup::Hit(Some(&9))));
    assert!(matches!(cache.lookup(8), CacheLookup::Miss { in_range: true }));
}

#[test]
fn block_meta_storage_tracks_commitments() {
    let mut s = BlockMetaStorage::new();
    assert!(s.get_block(CommitmentLevelProto::Processed).is_none());
    s.on_block_meta(10, "hashA".to_string(), Some(100));
    let b = s.get_block(CommitmentLevelProto::Processed).unwrap();
    assert_eq!((b.slot, b.blockhash.as_str(), b.block_height), (10, "hashA", 100));
    assert!(b.processed && !b.confirmed && !b.finalized);
    assert_eq!(s.is_blockhash_valid("hashA", CommitmentLevelProto::Processed), Some((true, 10)));
    assert_eq!(s.is_blockhash_valid("other", CommitmentLevelProto::Processed), None);
    assert_eq!(s.is_blockhash_valid("hashA", CommitmentLevelProto::Dead), None);

    s.on_slot_status(10, CommitmentLevelProto::Confirmed);
    let b = s.get_block(CommitmentLevelProto::Confirmed).unwrap();
    assert!(b.processed && b.confirmed && !b.finalized);

    s.on_block_meta(11, "hashB".to_string(), None);
    assert_eq!(s.get_block(CommitmentLevelProto::Processed).unwrap().slot, 11);
    assert_eq!(s.is_blockhash_valid("hashB", CommitmentLevelProto::Processed), Some((true, 11)));

    // Finalizing slot 10 drops earlier slots and keeps only blockhashes whose
    // last valid height is below the block's height (100).
    s.on_slot_status(10, CommitmentLevelProto::Finalized);
    let b = s.get_block(CommitmentLevelProto::Finalized).unwrap();
    assert!(b.finalized);
    assert_eq!(s.is_blockhash_valid("hashA", CommitmentLevelProto::Finalized), None);
    assert_eq!(MAX_PROCESSING_AGE, 150);
}

#[test]
fn slot_status_alone_creates_default_entry() {
    let mut s = BlockMetaStorage::new();
    s.on_slot_status(5, CommitmentLevelProto::Confirmed);
    let b = s.get_block(CommitmentLevelProto::Confirmed).unwrap();
    assert_eq!((b.slot, b.blockhash.as_str(), b.block_height), (0, "", 0));
    assert!(b.confirmed && !b.processed);
    s.on_slot_status(6, CommitmentLevelProto::Processed);
    assert_eq!(s.get_block(CommitmentLevelProto::Confirmed).unwrap().confirmed, true);
}

#[test]
fn config_defaults() {
    assert!(!ConfigLog::default().json);
    let w = ConfigAppsWorkers::default_config();
    assert_eq!(w.threads, 1);
    assert!(w.affinity.iter().enumerate().all(|(i, c)| i == *c));
    assert_eq!(ConfigAppsGrpcWorkers::default_config().messages_cached_max, 1024);
    let st = ConfigAppsGrpcStream::default();
    assert_eq!((st.messages_len_max, st.messages_max_per_tick, st.ping_iterval_secs), (16 * 1024 * 1024, 100, 15));
    let u = ConfigAppsGrpcUnary::default();
    assert_eq!((u.enabled, u.affinity, u.requests_queue_size), (true, 0, 100));
}

#[test]
fn workers_need_a_thread_and_split_cpus() {
    let w = ConfigAppsWorkers { threads: 0, affinity: vec![0, 1] };
    assert_eq!(w.check(), Err(WorkersError::NoThreads));
    let w = ConfigAppsWorkers { threads: 2, affinity: vec![4, 6] };
    assert_eq!(w.check(), Ok(()));
    assert_eq!(w.thread_cpus(1), vec![6]);
    let w = ConfigAppsWorkers { threads: 3, affinity: vec![4, 6] };
    assert_eq!(w.thread_cpus(2), vec![4, 6]);
}

#[test]
fn worker_steps_on_a_client() {
    let mut c = SubscribeClientState::new(1, 10);
    assert!(c.is_orphaned());
    c.ref_count = 2;
    assert!(!c.is_orphaned());
    assert!(c.ping_due(16, 15));
    assert!(!c.ping_due(15, 15));
    assert!(c.may_receive(0, 1));
    assert!(!c.may_receive(1, 1));
    assert_eq!(c.on_received(Ok(Some(vec![vec![1; 4], vec![2; 8]]))), DeliveryStep::Continue);
    assert_eq!(c.head, 1);
    assert!(c.is_full());
    assert!(!c.ping_due(100, 15));
    assert!(!c.may_receive(0, 5));
    assert_eq!(c.on_received(Ok(Some(vec![]))), DeliveryStep::Continue);
    assert_eq!(c.head, 2);
    assert_eq!(c.on_received(Ok(None)), DeliveryStep::Stop);
    assert_eq!(c.on_received(Err(StreamError::Closed)), DeliveryStep::Errored);
    assert_eq!(c.pop_message(), Some(Err(StreamError::Closed)));
    assert_eq!(c.pop_message(), Some(Ok(vec![1; 4])));
    assert_eq!(c.pop_message(), Some(Ok(vec![2; 8])));
    assert_eq!(c.pop_message(), None);
}
