use richat::channel::{
    PushError, RecvError, RichatFilter, Sender, SlotStatusKind, SubscribeError,
};
use richat::encoding::{ProtobufMessage, ReplicaEntryInfo, SlotStatus, Timestamp};
use richat::plugin::{ConfigChannel, ProtobufEncoder};

fn t0() -> Timestamp {
    Timestamp { seconds: 0, nanos: 0 }
}

fn config(max_messages: usize, max_slots: usize, max_bytes: u64) -> ConfigChannel {
    ConfigChannel { encoder: ProtobufEncoder::Raw, max_messages, max_slots, max_bytes }
}

fn slot_msg(slot: u64, parent: Option<u64>, status: SlotStatus) -> ProtobufMessage {
    ProtobufMessage::Slot { slot, parent, status }
}

fn entry_msg(slot: u64, index: usize) -> ProtobufMessage {
    ProtobufMessage::Entry {
        entry: ReplicaEntryInfo {
            slot,
            index,
            num_hashes: 1,
            hash: vec![1, 2, 3],
            executed_transaction_count: 0,
            starting_transaction_index: 0,
        },
    }
}

fn push(s: &mut Sender, m: &ProtobufMessage) {
    s.push_with_timestamp(m, ProtobufEncoder::Raw, t0()).unwrap();
}

#[test]
fn capacity_is_rounded_to_power_of_two() {
    let s = Sender::new(config(5, 10, 1 << 20));
    let (messages, slots, bytes) = s.metrics();
    assert_eq!((messages, slots, bytes), (0, 0, 0));
    assert_eq!(s.tail_position(), 8);
}

#[test]
fn subscriber_at_tail_receives_next_message() {
    let mut s = Sender::new(config(16, 10, 1 << 20));
    let mut rx = s.subscribe(None, None).unwrap();
    assert_eq!(rx.recv_ref(&s), Ok(None));
    let m = entry_msg(1, 0);
    push(&mut s, &m);
    let got = rx.recv_ref(&s).unwrap().unwrap();
    assert_eq!(*got, m.encode_raw(t0()));
    assert_eq!(rx.recv_ref(&s), Ok(None));
}

#[test]
fn messages_arrive_in_order() {
    let mut s = Sender::new(config(16, 10, 1 << 20));
    let mut rx = s.subscribe(None, None).unwrap();
    let msgs: Vec<ProtobufMessage> = (0..5).map(|i| entry_msg(1, i)).collect();
    for m in &msgs {
        push(&mut s, m);
    }
    for m in &msgs {
        assert_eq!(*rx.recv_ref(&s).unwrap().unwrap(), m.encode_raw(t0()));
    }
}

#[test]
fn replay_from_known_slot_starts_at_its_first_message() {
    let mut s = Sender::new(config(16, 10, 1 << 20));
    push(&mut s, &entry_msg(1, 0));
    push(&mut s, &entry_msg(2, 0));
    push(&mut s, &entry_msg(2, 1));
    let mut rx = s.subscribe(Some(2), None).unwrap();
    assert_eq!(*rx.recv_ref(&s).unwrap().unwrap(), entry_msg(2, 0).encode_raw(t0()));
}

#[test]
fn replay_errors() {
    let mut s = Sender::new(config(16, 10, 1 << 20));
    assert_eq!(s.subscribe(Some(5), None).err(), Some(SubscribeError::NotInitialized));
    push(&mut s, &entry_msg(3, 0));
    push(&mut s, &entry_msg(4, 0));
    assert_eq!(
        s.subscribe(Some(5), None).err(),
        Some(SubscribeError::SlotNotAvailable { first_available: 3 })
    );
}

#[test]
fn receiver_lags_when_ring_wraps() {
    let mut s = Sender::new(config(4, 100, 1 << 20));
    let mut rx = s.subscribe(None, None).unwrap();
    for i in 0..6 {
        push(&mut s, &entry_msg(1, i));
    }
    assert_eq!(rx.recv_ref(&s), Err(RecvError::Lagged));
}

#[test]
fn closed_channel_reports_closed() {
    let mut s = Sender::new(config(4, 10, 1 << 20));
    let mut rx = s.subscribe(None, None).unwrap();
    push(&mut s, &entry_msg(1, 0));
    s.close();
    assert_eq!(rx.recv_ref(&s), Err(RecvError::Closed));
    assert_eq!(rx.poll_next(&s), Some(Err(RecvError::Closed)));
    assert_eq!(rx.poll_next(&s), None);
}

#[test]
fn filter_skips_disabled_kinds() {
    let mut s = Sender::new(config(16, 10, 1 << 20));
    let filter = RichatFilter { disable_accounts: false, disable_transactions: false, disable_entries: true };
    let mut rx = s.subscribe(None, Some(filter)).unwrap();
    push(&mut s, &entry_msg(1, 0));
    let slot = slot_msg(1, None, SlotStatus::Processed);
    push(&mut s, &slot);
    assert_eq!(*rx.recv_ref(&s).unwrap().unwrap(), slot.encode_raw(t0()));
}

#[test]
fn byte_limit_drops_oldest_messages() {
    // Indices 1 to 3 encode to messages of one length.
    let one = entry_msg(1, 1).encode_raw(t0()).len() as u64;
    assert_eq!(entry_msg(1, 3).encode_raw(t0()).len() as u64, one);
    let mut s = Sender::new(config(16, 10, 2 * one));
    let mut rx = s.subscribe(None, None).unwrap();
    for i in 1..4 {
        push(&mut s, &entry_msg(1, i));
    }
    let (messages, _, bytes) = s.metrics();
    assert_eq!(messages, 2);
    assert!(bytes <= 2 * one);
    assert_eq!(rx.recv_ref(&s), Err(RecvError::Lagged));
}

#[test]
fn message_larger_than_limit_is_refused() {
    let mut s = Sender::new(config(16, 10, 4));
    let tail = s.tail_position();
    assert_eq!(s.push_with_timestamp(&entry_msg(1, 0), ProtobufEncoder::Raw, t0()), Err(PushError::MessageTooLarge));
    assert_eq!(s.tail_position(), tail);
}

#[test]
fn slot_limit_drops_oldest_slot() {
    let mut s = Sender::new(config(16, 2, 1 << 20));
    push(&mut s, &entry_msg(1, 0));
    push(&mut s, &entry_msg(2, 0));
    push(&mut s, &entry_msg(3, 0));
    let (messages, slots, _) = s.metrics();
    assert_eq!(slots, 2);
    assert_eq!(messages, 2);
    assert_eq!(
        s.subscribe(Some(1), None).err(),
        Some(SubscribeError::SlotNotAvailable { first_available: 2 })
    );
}

#[test]
fn missed_confirmations_are_sent_for_ancestors() {
    let mut s = Sender::new(config(32, 10, 1 << 20));
    push(&mut s, &slot_msg(10, None, SlotStatus::Processed));
    push(&mut s, &slot_msg(11, Some(10), SlotStatus::Processed));
    push(&mut s, &slot_msg(12, Some(11), SlotStatus::Processed));
    assert_eq!(s.plan_missed_slots(12, SlotStatusKind::Confirmed), Some(vec![(11, Some(10)), (10, None)]));
    let mut rx = s.subscribe(None, None).unwrap();
    push(&mut s, &slot_msg(12, Some(11), SlotStatus::Confirmed));
    let expect = [
        slot_msg(10, None, SlotStatus::Confirmed),
        slot_msg(11, Some(10), SlotStatus::Confirmed),
        slot_msg(12, Some(11), SlotStatus::Confirmed),
    ];
    for m in &expect {
        assert_eq!(*rx.recv_ref(&s).unwrap().unwrap(), m.encode_raw(t0()));
    }
    assert_eq!(rx.recv_ref(&s), Ok(None));
    assert_eq!(s.plan_missed_slots(12, SlotStatusKind::Confirmed), Some(vec![]));
}

#[test]
fn ancestor_walk_stops_at_a_confirmed_slot() {
    let mut s = Sender::new(config(32, 10, 1 << 20));
    push(&mut s, &slot_msg(20, None, SlotStatus::Processed));
    push(&mut s, &slot_msg(20, None, SlotStatus::Confirmed));
    push(&mut s, &slot_msg(21, Some(20), SlotStatus::Processed));
    push(&mut s, &slot_msg(22, Some(21), SlotStatus::Processed));
    assert_eq!(s.plan_missed_slots(22, SlotStatusKind::Confirmed), Some(vec![(21, Some(20))]));
    assert_eq!(s.plan_missed_slots(22, SlotStatusKind::Rooted), Some(vec![(21, Some(20)), (20, None)]));
}

#[test]
fn message_of_an_older_slot_than_all_kept_cannot_be_stored() {
    let mut s = Sender::new(config(16, 2, 1 << 20));
    push(&mut s, &entry_msg(5, 1));
    push(&mut s, &entry_msg(6, 1));
    assert_eq!(s.push_with_timestamp(&entry_msg(3, 1), ProtobufEncoder::Raw, t0()), Err(PushError::HeadOverflowTail));
}

#[test]
fn slot_eviction_drops_the_run_of_the_oldest_slot_only() {
    let mut s = Sender::new(config(16, 2, 1 << 20));
    push(&mut s, &entry_msg(5, 1));
    push(&mut s, &entry_msg(5, 2));
    push(&mut s, &entry_msg(6, 1));
    push(&mut s, &entry_msg(5, 3));
    let tail = s.tail_position();
    push(&mut s, &entry_msg(7, 1));
    // Slot 5 goes with the two messages at the head; its late message stays.
    let (messages, slots, _) = s.metrics();
    assert_eq!((messages, slots), (3, 2));
    assert_eq!(s.tail_position(), tail + 1);
    let mut rx = s.subscribe(Some(6), None).unwrap();
    for m in [entry_msg(6, 1), entry_msg(5, 3), entry_msg(7, 1)] {
        assert_eq!(*rx.recv_ref(&s).unwrap().unwrap(), m.encode_raw(t0()));
    }
}

#[test]
fn push_stamps_messages_with_the_current_time() {
    let mut s = Sender::new(config(16, 10, 1 << 20));
    let mut rx = s.subscribe(None, None).unwrap();
    let m = entry_msg(1, 0);
    s.push(&m, ProtobufEncoder::Raw).unwrap();
    let got = rx.recv_ref(&s).unwrap().unwrap().clone();
    let untimed = m.encode_raw(t0());
    assert!(got.starts_with(&untimed[..untimed.len() - 2]));
    assert!(got.len() > untimed.len());
}

#[test]
fn a_parent_above_its_slot_is_stored_and_followed() {
    let mut s = Sender::new(config(16, 10, 1 << 20));
    push(&mut s, &slot_msg(30, None, SlotStatus::Processed));
    push(&mut s, &slot_msg(5, Some(30), SlotStatus::Processed));
    assert_eq!(s.plan_missed_slots(5, SlotStatusKind::Confirmed), Some(vec![(30, None)]));
    push(&mut s, &slot_msg(5, Some(30), SlotStatus::Confirmed));
    assert_eq!(s.plan_missed_slots(5, SlotStatusKind::Confirmed), Some(vec![]));
    assert_eq!(s.tail_position(), 16 + 4);
}

#[test]
fn parent_links_in_a_cycle_have_no_end() {
    let mut s = Sender::new(config(16, 10, 1 << 20));
    push(&mut s, &slot_msg(7, Some(8), SlotStatus::Processed));
    push(&mut s, &slot_msg(8, Some(7), SlotStatus::Processed));
    assert_eq!(s.plan_missed_slots(7, SlotStatusKind::Confirmed), None);
    assert_eq!(s.plan_missed_slots(7, SlotStatusKind::Processed), Some(vec![]));
}

#[test]
fn byte_limit_may_be_the_largest_number() {
    let mut s = Sender::new(config(4, 10, u64::MAX));
    push(&mut s, &entry_msg(1, 0));
    push(&mut s, &entry_msg(1, 1));
    assert_eq!(s.metrics().0, 2);
}
