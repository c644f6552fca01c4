use richat::channel::RichatFilter;
use richat::encoding::{ProtobufMessage, ReplicaAccountInfo, ReplicaEntryInfo, SlotStatus, Timestamp};
use richat::plugin::{ConfigChannel, ConfigLog, Plugin, ProtobufEncoder};
use richat::transaction::{
    LegacyMessage, LoadedAddresses, MessageHeader, ReplicaTransactionInfo, SanitizedMessage, SanitizedTransaction,
    TransactionStatusMeta,
};

fn t0() -> Timestamp {
    Timestamp { seconds: 1, nanos: 2 }
}

fn config() -> ConfigChannel {
    ConfigChannel { encoder: ProtobufEncoder::Raw, max_messages: 64, max_slots: 10, max_bytes: 1 << 20 }
}

fn account() -> ReplicaAccountInfo {
    ReplicaAccountInfo {
        pubkey: vec![1; 32],
        lamports: 5,
        owner: vec![2; 32],
        executable: false,
        rent_epoch: 0,
        data: vec![9, 9],
        write_version: 3,
        txn_signature: None,
    }
}

fn transaction() -> ReplicaTransactionInfo {
    ReplicaTransactionInfo {
        signature: vec![4; 64],
        is_vote: true,
        transaction: SanitizedTransaction {
            signatures: vec![vec![4; 64]],
            message: SanitizedMessage::Legacy(LegacyMessage {
                header: MessageHeader {
                    num_required_signatures: 1,
                    num_readonly_signed_accounts: 0,
                    num_readonly_unsigned_accounts: 1,
                },
                account_keys: vec![vec![1; 32]],
                recent_blockhash: vec![3; 32],
                instructions: vec![],
            }),
        },
        transaction_status_meta: TransactionStatusMeta {
            error: None,
            fee: 5000,
            pre_balances: vec![10],
            post_balances: vec![5],
            inner_instructions: None,
            log_messages: None,
            pre_token_balances: None,
            post_token_balances: None,
            rewards: None,
            loaded_addresses: LoadedAddresses { writable: vec![], readonly: vec![] },
            return_data: None,
            compute_units_consumed: None,
        },
        index: 0,
    }
}

fn entry() -> ReplicaEntryInfo {
    ReplicaEntryInfo {
        slot: 7,
        index: 1,
        num_hashes: 2,
        hash: vec![8; 32],
        executed_transaction_count: 0,
        starting_transaction_index: 0,
    }
}

#[test]
fn defaults() {
    let c = ConfigChannel::default_config();
    assert_eq!((c.encoder, c.max_messages, c.max_slots, c.max_bytes), (ProtobufEncoder::Raw, 2_097_152, 100, 10 << 30));
    assert_eq!(ConfigLog::default_config().level, "info");
    assert_eq!(ConfigChannel::encoder_from_str("prost"), Some(ProtobufEncoder::Prost));
    assert_eq!(ConfigChannel::encoder_from_str("raw"), Some(ProtobufEncoder::Raw));
    assert_eq!(ConfigChannel::encoder_from_str("Raw"), None);
}

#[test]
fn notifications_reach_subscribers_in_order() {
    let mut p = Plugin::new(config());
    assert!(p.account_data_notifications_enabled());
    assert!(p.transaction_notifications_enabled());
    assert!(p.entry_notifications_enabled());
    let mut rx = p.messages.subscribe(None, None).unwrap();
    p.update_account(account(), 7, true, t0()).unwrap();
    assert_eq!(rx.recv_ref(&p.messages), Ok(None));
    p.update_account(account(), 7, false, t0()).unwrap();
    p.notify_transaction(transaction(), 7, t0()).unwrap();
    p.notify_entry(entry(), t0()).unwrap();
    p.update_slot_status(7, Some(6), SlotStatus::Processed, t0()).unwrap();
    let expected = [
        ProtobufMessage::Account { slot: 7, account: account() },
        ProtobufMessage::Transaction { slot: 7, transaction: transaction() },
        ProtobufMessage::Entry { entry: entry() },
        ProtobufMessage::Slot { slot: 7, parent: Some(6), status: SlotStatus::Processed },
    ];
    for m in &expected {
        assert_eq!(*rx.recv_ref(&p.messages).unwrap().unwrap(), m.encode_raw(t0()));
    }
    assert_eq!(rx.recv_ref(&p.messages), Ok(None));
}

#[test]
fn subscribers_can_skip_transactions() {
    let mut p = Plugin::new(config());
    let filter = RichatFilter { disable_accounts: false, disable_transactions: true, disable_entries: false };
    let mut rx = p.messages.subscribe(None, Some(filter)).unwrap();
    p.notify_transaction(transaction(), 7, t0()).unwrap();
    p.notify_entry(entry(), t0()).unwrap();
    let got = rx.recv_ref(&p.messages).unwrap().unwrap();
    assert_eq!(*got, ProtobufMessage::Entry { entry: entry() }.encode_raw(t0()));
}
