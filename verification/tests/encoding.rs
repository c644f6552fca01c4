use prost::encoding::{encode_key, encode_varint, WireType};
use richat::encoding::{
    decimal_u8, encode_account, encode_ping, encode_pong, encode_rewards, encode_slot, FuzzEntry,
    FuzzSlot, FuzzSlotStatus, ProtobufMessage, ReplicaAccountInfo, ReplicaBlockInfo,
    ReplicaEntryInfo, Reward, RewardType, SlotStatus, Timestamp,
};
use richat::plugin::{PluginNotification, ProtobufEncoder};

fn nested(tag: u32, body: &[u8], buf: &mut Vec<u8>) {
    encode_key(tag, WireType::LengthDelimited, buf);
    encode_varint(body.len() as u64, buf);
    buf.extend_from_slice(body);
}

fn timestamp_body(t: Timestamp) -> Vec<u8> {
    let mut v = Vec::new();
    if t.seconds != 0 {
        prost::encoding::int64::encode(1, &t.seconds, &mut v);
    }
    if t.nanos != 0 {
        prost::encoding::int32::encode(2, &t.nanos, &mut v);
    }
    v
}

fn t0() -> Timestamp {
    Timestamp { seconds: 0, nanos: 0 }
}

#[test]
fn slot_message_exact_bytes() {
    let m = ProtobufMessage::Slot { slot: 1, parent: None, status: SlotStatus::Processed };
    assert_eq!(m.encode_raw(t0()), vec![0x1A, 0x02, 0x08, 0x01, 0x5A, 0x00]);
}

#[test]
fn slot_fields_match_prost() {
    let cases = vec![
        (0u64, None, SlotStatus::Processed, 0i32, None::<&str>),
        (42, Some(41u64), SlotStatus::Confirmed, 1, None),
        (u64::MAX, Some(0), SlotStatus::Rooted, 2, None),
        (7, None, SlotStatus::FirstShredReceived, 3, None),
        (8, Some(7), SlotStatus::Completed, 4, None),
        (9, Some(8), SlotStatus::CreatedBank, 5, None),
        (10, Some(9), SlotStatus::Dead("boom".to_string()), 6, Some("boom")),
        (11, Some(10), SlotStatus::Dead(String::new()), 6, Some("")),
    ];
    for (slot, parent, status, number, dead) in cases {
        let ours = encode_slot(slot, parent, &status);
        let mut theirs = Vec::new();
        if slot != 0 {
            prost::encoding::uint64::encode(1, &slot, &mut theirs);
        }
        if let Some(p) = parent {
            prost::encoding::uint64::encode(2, &p, &mut theirs);
        }
        if number != 0 {
            prost::encoding::int32::encode(3, &number, &mut theirs);
        }
        if let Some(e) = dead {
            prost::encoding::string::encode(4, &e.to_string(), &mut theirs);
        }
        assert_eq!(ours, theirs);
    }
}

#[test]
fn timestamp_fields_match_prost() {
    for t in [
        t0(),
        Timestamp { seconds: 1_700_000_000, nanos: 123_456_789 },
        Timestamp { seconds: -5, nanos: -1 },
    ] {
        assert_eq!(t.encode_fields(), timestamp_body(t));
    }
}

#[test]
fn entry_message_matches_prost() {
    let entry = ReplicaEntryInfo {
        slot: 100,
        index: 3,
        num_hashes: 12_500,
        hash: vec![9u8; 32],
        executed_transaction_count: 0,
        starting_transaction_index: 17,
    };
    let created_at = Timestamp { seconds: 1, nanos: 2 };
    let ours = ProtobufMessage::Entry { entry: entry.clone() }.encode_with_timestamp(ProtobufEncoder::Raw, created_at);
    let mut body = Vec::new();
    prost::encoding::uint64::encode(1, &100u64, &mut body);
    prost::encoding::uint64::encode(2, &3u64, &mut body);
    prost::encoding::uint64::encode(3, &12_500u64, &mut body);
    prost::encoding::bytes::encode(4, &entry.hash, &mut body);
    prost::encoding::uint64::encode(6, &17u64, &mut body);
    let mut theirs = Vec::new();
    nested(8, &body, &mut theirs);
    nested(11, &timestamp_body(created_at), &mut theirs);
    assert_eq!(ours, theirs);
}

fn sample_account(txn: Option<Vec<u8>>) -> ReplicaAccountInfo {
    ReplicaAccountInfo {
        pubkey: vec![1u8; 32],
        lamports: 5_000,
        owner: vec![2u8; 32],
        executable: true,
        rent_epoch: 0,
        data: vec![1, 2, 3, 4],
        write_version: 77,
        txn_signature: txn,
    }
}

#[test]
fn account_message_matches_prost() {
    for txn in [None, Some(vec![5u8; 64])] {
        let account = sample_account(txn.clone());
        let ours = encode_account(9, &account);
        let mut info = Vec::new();
        prost::encoding::bytes::encode(1, &account.pubkey, &mut info);
        prost::encoding::uint64::encode(2, &5_000u64, &mut info);
        prost::encoding::bytes::encode(3, &account.owner, &mut info);
        prost::encoding::bool::encode(4, &true, &mut info);
        prost::encoding::bytes::encode(6, &account.data, &mut info);
        prost::encoding::uint64::encode(7, &77u64, &mut info);
        if let Some(sig) = &txn {
            prost::encoding::bytes::encode(8, sig, &mut info);
        }
        let mut theirs = Vec::new();
        nested(1, &info, &mut theirs);
        prost::encoding::uint64::encode(2, &9u64, &mut theirs);
        assert_eq!(ours, theirs);
    }
}

#[test]
fn commission_is_decimal_text() {
    assert_eq!(decimal_u8(0), b"0".to_vec());
    assert_eq!(decimal_u8(7), b"7".to_vec());
    assert_eq!(decimal_u8(42), b"42".to_vec());
    assert_eq!(decimal_u8(100), b"100".to_vec());
    assert_eq!(decimal_u8(255), b"255".to_vec());
}

#[test]
fn rewards_match_prost() {
    let rewards = vec![
        Reward {
            pubkey: "Vote111111111111111111111111111111111111111".to_string(),
            lamports: -20,
            post_balance: 1_000,
            reward_type: Some(RewardType::Voting),
            commission: Some(10),
        },
        Reward {
            pubkey: String::new(),
            lamports: 0,
            post_balance: 0,
            reward_type: None,
            commission: None,
        },
    ];
    let ours = encode_rewards(&rewards, Some(4));
    let mut first = Vec::new();
    prost::encoding::string::encode(1, &rewards[0].pubkey, &mut first);
    prost::encoding::int64::encode(2, &-20i64, &mut first);
    prost::encoding::uint64::encode(3, &1_000u64, &mut first);
    prost::encoding::int32::encode(4, &4i32, &mut first);
    prost::encoding::string::encode(5, &"10".to_string(), &mut first);
    let mut theirs = Vec::new();
    nested(1, &first, &mut theirs);
    nested(1, &[], &mut theirs);
    let mut np = Vec::new();
    prost::encoding::uint64::encode(1, &4u64, &mut np);
    nested(2, &np, &mut theirs);
    assert_eq!(ours, theirs);
}

#[test]
fn block_meta_message_matches_prost() {
    let block = ReplicaBlockInfo {
        slot: 300,
        blockhash: "hash".to_string(),
        rewards: vec![],
        num_partitions: None,
        block_time: Some(1_700_000_000),
        block_height: Some(250),
        parent_slot: 299,
        parent_blockhash: "parent".to_string(),
        executed_transaction_count: 12,
        entry_count: 64,
    };
    let m = ProtobufMessage::BlockMeta { blockinfo: block };
    let ours = m.encode_raw(t0());
    let mut body = Vec::new();
    prost::encoding::uint64::encode(1, &300u64, &mut body);
    prost::encoding::string::encode(2, &"hash".to_string(), &mut body);
    nested(3, &[], &mut body);
    let mut bt = Vec::new();
    prost::encoding::int64::encode(1, &1_700_000_000i64, &mut bt);
    nested(4, &bt, &mut body);
    let mut bh = Vec::new();
    prost::encoding::uint64::encode(1, &250u64, &mut bh);
    nested(5, &bh, &mut body);
    prost::encoding::uint64::encode(6, &299u64, &mut body);
    prost::encoding::string::encode(7, &"parent".to_string(), &mut body);
    prost::encoding::uint64::encode(8, &12u64, &mut body);
    prost::encoding::uint64::encode(9, &64u64, &mut body);
    let mut theirs = Vec::new();
    nested(7, &body, &mut theirs);
    nested(11, &[], &mut theirs);
    assert_eq!(ours, theirs);
}

#[test]
fn messages_report_slot_and_kind() {
    let m = ProtobufMessage::Account { slot: 5, account: sample_account(None) };
    assert_eq!(m.get_slot(), 5);
    assert_eq!(m.get_plugin_notification(), PluginNotification::Account);
    let m = FuzzSlot { slot: 6, parent: Some(5), status: FuzzSlotStatus::Dead }.to_message();
    assert_eq!(m.get_slot(), 6);
    assert_eq!(m.get_plugin_notification(), PluginNotification::Slot);
    let e = FuzzEntry {
        slot: 8,
        index: 1,
        num_hashes: 2,
        hash: vec![],
        executed_transaction_count: 3,
        starting_transaction_index: 4,
    };
    let m = e.to_message();
    assert_eq!(m.get_slot(), 8);
    assert_eq!(m.get_plugin_notification(), PluginNotification::Entry);
}

#[test]
fn fuzz_dead_slot_has_empty_error() {
    match FuzzSlotStatus::Dead.to_slot_status() {
        SlotStatus::Dead(e) => assert!(e.is_empty()),
        other => panic!("unexpected {other:?}"),
    }
    assert_eq!(FuzzSlotStatus::Rooted.to_slot_status(), SlotStatus::Rooted);
}

#[test]
fn ping_and_pong_bytes() {
    assert_eq!(encode_ping(t0()), vec![0x32, 0x00, 0x5A, 0x00]);
    let mut theirs = Vec::new();
    let mut pong = Vec::new();
    prost::encoding::int32::encode(1, &7i32, &mut pong);
    nested(9, &pong, &mut theirs);
    nested(11, &[], &mut theirs);
    assert_eq!(encode_pong(7, t0()), theirs);
}

#[test]
fn both_encoders_give_the_same_bytes() {
    let m = ProtobufMessage::Slot { slot: 3, parent: Some(2), status: SlotStatus::Confirmed };
    let t = Timestamp { seconds: 10, nanos: 20 };
    assert_eq!(m.encode_with_timestamp(ProtobufEncoder::Prost, t), m.encode_with_timestamp(ProtobufEncoder::Raw, t));
}

#[test]
fn encoding_now_stamps_the_current_time() {
    let m = ProtobufMessage::Slot { slot: 3, parent: Some(2), status: SlotStatus::Confirmed };
    let untimed = m.encode_raw(t0());
    let stamped = m.encode(ProtobufEncoder::Raw);
    let update = &untimed[..untimed.len() - 2];
    assert!(stamped.starts_with(update));
    assert_eq!(stamped[update.len()], 0x5a);
    assert!(stamped.len() > untimed.len());
}

#[test]
fn clock_readings_become_timestamps() {
    assert_eq!(richat::encoding::timestamp_from_clock(Ok((5, 7))), Some(Timestamp { seconds: 5, nanos: 7 }));
    assert_eq!(richat::encoding::timestamp_from_clock(Err((5, 0))), Some(Timestamp { seconds: -5, nanos: 0 }));
    assert_eq!(richat::encoding::timestamp_from_clock(Err((5, 250_000_000))), Some(Timestamp { seconds: -6, nanos: 750_000_000 }));
    assert_eq!(richat::encoding::timestamp_from_clock(Ok((u64::MAX, 0))), None);
    assert_eq!(richat::encoding::timestamp_from_clock(Err((1u64 << 63, 0))), None);
}
