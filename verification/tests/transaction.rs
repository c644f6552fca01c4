use prost::encoding::{encode_key, encode_varint, WireType};
use richat::encoding::{ProtobufMessage, Reward, RewardType, Timestamp};
use richat::plugin::PluginNotification;
use richat::transaction::{
    encode_transaction, CompiledInstruction, InnerInstruction, InnerInstructions, LegacyMessage,
    LoadedAddresses, MessageAddressTableLookup, MessageHeader, NestedMessage, ReplicaTransactionInfo,
    SanitizedMessage, SanitizedTransaction, TransactionReturnData, TransactionStatusMeta,
    TransactionTokenBalance, UiTokenAmount,
};

fn nested(tag: u32, body: &[u8], buf: &mut Vec<u8>) {
    encode_key(tag, WireType::LengthDelimited, buf);
    encode_varint(body.len() as u64, buf);
    buf.extend_from_slice(body);
}

fn bytes_field(tag: u32, data: &[u8], buf: &mut Vec<u8>) {
    prost::encoding::bytes::encode(tag, &data.to_vec(), buf);
}

fn header() -> MessageHeader {
    MessageHeader { num_required_signatures: 1, num_readonly_signed_accounts: 0, num_readonly_unsigned_accounts: 2 }
}

fn header_expected(h: &MessageHeader) -> Vec<u8> {
    let mut v = Vec::new();
    for (tag, x) in [
        (1, h.num_required_signatures),
        (2, h.num_readonly_signed_accounts),
        (3, h.num_readonly_unsigned_accounts),
    ] {
        if x != 0 {
            prost::encoding::uint32::encode(tag, &(x as u32), &mut v);
        }
    }
    v
}

fn instruction(p: u8, accounts: Vec<u8>, data: Vec<u8>) -> CompiledInstruction {
    CompiledInstruction { program_id_index: p, accounts, data }
}

fn instruction_expected(c: &CompiledInstruction, buf: &mut Vec<u8>) {
    if c.program_id_index != 0 {
        prost::encoding::uint32::encode(1, &(c.program_id_index as u32), buf);
    }
    if !c.accounts.is_empty() {
        bytes_field(2, &c.accounts, buf);
    }
    if !c.data.is_empty() {
        bytes_field(3, &c.data, buf);
    }
}

fn message() -> LegacyMessage {
    LegacyMessage {
        header: header(),
        account_keys: vec![vec![1; 32], vec![2; 32], vec![3; 32]],
        recent_blockhash: vec![9; 32],
        instructions: vec![instruction(2, vec![0, 1], vec![7, 7, 7]), instruction(0, vec![], vec![])],
    }
}

fn message_expected(m: &LegacyMessage, versioned: bool, lookups: &[MessageAddressTableLookup]) -> Vec<u8> {
    let mut v = Vec::new();
    nested(1, &header_expected(&m.header), &mut v);
    for k in &m.account_keys {
        bytes_field(2, k, &mut v);
    }
    bytes_field(3, &m.recent_blockhash, &mut v);
    for c in &m.instructions {
        let mut body = Vec::new();
        instruction_expected(c, &mut body);
        nested(4, &body, &mut v);
    }
    if versioned {
        prost::encoding::bool::encode(5, &true, &mut v);
    }
    for l in lookups {
        let mut body = Vec::new();
        bytes_field(1, &l.account_key, &mut body);
        if !l.writable_indexes.is_empty() {
            bytes_field(2, &l.writable_indexes, &mut body);
        }
        if !l.readonly_indexes.is_empty() {
            bytes_field(3, &l.readonly_indexes, &mut body);
        }
        nested(6, &body, &mut v);
    }
    v
}

fn amount(bits: Option<u64>) -> UiTokenAmount {
    UiTokenAmount { ui_amount: bits, decimals: 6, amount: "1500000".to_string(), ui_amount_string: "1.5".to_string() }
}

fn amount_expected(a: &UiTokenAmount) -> Vec<u8> {
    let mut v = Vec::new();
    let x = f64::from_bits(a.ui_amount.unwrap_or(0));
    if x != 0f64 {
        prost::encoding::double::encode(1, &x, &mut v);
    }
    if a.decimals != 0 {
        prost::encoding::uint32::encode(2, &(a.decimals as u32), &mut v);
    }
    if !a.amount.is_empty() {
        prost::encoding::string::encode(3, &a.amount, &mut v);
    }
    if !a.ui_amount_string.is_empty() {
        prost::encoding::string::encode(4, &a.ui_amount_string, &mut v);
    }
    v
}

fn reward() -> Reward {
    Reward {
        pubkey: "Vote111".to_string(),
        lamports: -5,
        post_balance: 10,
        reward_type: Some(RewardType::Voting),
        commission: Some(7),
    }
}

fn meta_full() -> TransactionStatusMeta {
    TransactionStatusMeta {
        error: Some(vec![8, 0, 0, 0]),
        fee: 5000,
        pre_balances: vec![1, 300, 0],
        post_balances: vec![],
        inner_instructions: Some(vec![InnerInstructions {
            index: 1,
            instructions: vec![
                InnerInstruction { instruction: instruction(3, vec![1], vec![2]), stack_height: Some(2) },
                InnerInstruction { instruction: instruction(0, vec![], vec![]), stack_height: None },
            ],
        }]),
        log_messages: Some(vec!["Program log: hi".to_string(), String::new()]),
        pre_token_balances: Some(vec![TransactionTokenBalance {
            account_index: 2,
            mint: "mint".to_string(),
            ui_token_amount: amount(Some(1.5f64.to_bits())),
            owner: String::new(),
            program_id: "prog".to_string(),
        }]),
        post_token_balances: None,
        rewards: Some(vec![reward()]),
        loaded_addresses: LoadedAddresses { writable: vec![vec![4; 32]], readonly: vec![] },
        return_data: Some(TransactionReturnData { program_id: vec![5; 32], data: vec![] }),
        compute_units_consumed: Some(1234),
    }
}

fn meta_empty() -> TransactionStatusMeta {
    TransactionStatusMeta {
        error: None,
        fee: 0,
        pre_balances: vec![],
        post_balances: vec![7],
        inner_instructions: None,
        log_messages: None,
        pre_token_balances: None,
        post_token_balances: Some(vec![]),
        rewards: None,
        loaded_addresses: LoadedAddresses { writable: vec![], readonly: vec![vec![6; 32]] },
        return_data: None,
        compute_units_consumed: None,
    }
}

fn reward_expected(r: &Reward) -> Vec<u8> {
    let mut v = Vec::new();
    prost::encoding::string::encode(1, &r.pubkey, &mut v);
    prost::encoding::int64::encode(2, &r.lamports, &mut v);
    prost::encoding::uint64::encode(3, &r.post_balance, &mut v);
    prost::encoding::int32::encode(4, &4, &mut v);
    prost::encoding::string::encode(5, &"7".to_string(), &mut v);
    v
}

fn meta_expected(m: &TransactionStatusMeta) -> Vec<u8> {
    let mut v = Vec::new();
    if let Some(e) = &m.error {
        let mut body = Vec::new();
        if !e.is_empty() {
            bytes_field(1, e, &mut body);
        }
        nested(1, &body, &mut v);
    }
    if m.fee != 0 {
        prost::encoding::uint64::encode(2, &m.fee, &mut v);
    }
    prost::encoding::uint64::encode_packed(3, &m.pre_balances, &mut v);
    prost::encoding::uint64::encode_packed(4, &m.post_balances, &mut v);
    if let Some(groups) = &m.inner_instructions {
        for g in groups {
            let mut body = Vec::new();
            if g.index != 0 {
                prost::encoding::uint32::encode(1, &(g.index as u32), &mut body);
            }
            for i in &g.instructions {
                let mut inner = Vec::new();
                instruction_expected(&i.instruction, &mut inner);
                if let Some(h) = i.stack_height {
                    prost::encoding::uint32::encode(4, &h, &mut inner);
                }
                nested(2, &inner, &mut body);
            }
            nested(5, &body, &mut v);
        }
    }
    if let Some(logs) = &m.log_messages {
        prost::encoding::string::encode_repeated(6, logs, &mut v);
    }
    for (tag, balances) in [(7, &m.pre_token_balances), (8, &m.post_token_balances)] {
        if let Some(bs) = balances {
            for b in bs {
                let mut body = Vec::new();
                if b.account_index != 0 {
                    prost::encoding::uint32::encode(1, &(b.account_index as u32), &mut body);
                }
                if !b.mint.is_empty() {
                    prost::encoding::string::encode(2, &b.mint, &mut body);
                }
                nested(3, &amount_expected(&b.ui_token_amount), &mut body);
                if !b.owner.is_empty() {
                    prost::encoding::string::encode(4, &b.owner, &mut body);
                }
                if !b.program_id.is_empty() {
                    prost::encoding::string::encode(5, &b.program_id, &mut body);
                }
                nested(tag, &body, &mut v);
            }
        }
    }
    if let Some(rs) = &m.rewards {
        for r in rs {
            nested(9, &reward_expected(r), &mut v);
        }
    }
    if m.inner_instructions.is_none() {
        prost::encoding::bool::encode(10, &true, &mut v);
    }
    if m.log_messages.is_none() {
        prost::encoding::bool::encode(11, &true, &mut v);
    }
    for k in &m.loaded_addresses.writable {
        bytes_field(12, k, &mut v);
    }
    for k in &m.loaded_addresses.readonly {
        bytes_field(13, k, &mut v);
    }
    match &m.return_data {
        Some(r) => {
            let mut body = Vec::new();
            bytes_field(1, &r.program_id, &mut body);
            if !r.data.is_empty() {
                bytes_field(2, &r.data, &mut body);
            }
            nested(14, &body, &mut v);
        }
        None => prost::encoding::bool::encode(15, &true, &mut v),
    }
    if let Some(c) = m.compute_units_consumed {
        prost::encoding::uint64::encode(16, &c, &mut v);
    }
    v
}

fn lookup() -> MessageAddressTableLookup {
    MessageAddressTableLookup { account_key: vec![8; 32], writable_indexes: vec![0, 3], readonly_indexes: vec![] }
}

fn info(versioned: bool, meta: TransactionStatusMeta, is_vote: bool, index: usize) -> ReplicaTransactionInfo {
    let message = if versioned {
        SanitizedMessage::V0 { message: message(), address_table_lookups: vec![lookup()] }
    } else {
        SanitizedMessage::Legacy(message())
    };
    ReplicaTransactionInfo {
        signature: vec![0xAB; 64],
        is_vote,
        transaction: SanitizedTransaction { signatures: vec![vec![0xAB; 64], vec![0xCD; 64]], message },
        transaction_status_meta: meta,
        index,
    }
}

fn info_expected(t: &ReplicaTransactionInfo) -> Vec<u8> {
    let mut v = Vec::new();
    bytes_field(1, &t.signature, &mut v);
    if t.is_vote {
        prost::encoding::bool::encode(2, &true, &mut v);
    }
    let mut tx = Vec::new();
    for s in &t.transaction.signatures {
        bytes_field(1, s, &mut tx);
    }
    let m = match &t.transaction.message {
        SanitizedMessage::Legacy(m) => message_expected(m, false, &[]),
        SanitizedMessage::V0 { message, address_table_lookups } => message_expected(message, true, address_table_lookups),
    };
    nested(2, &m, &mut tx);
    nested(3, &tx, &mut v);
    nested(4, &meta_expected(&t.transaction_status_meta), &mut v);
    if t.index != 0 {
        prost::encoding::uint64::encode(5, &(t.index as u64), &mut v);
    }
    v
}

#[test]
fn header_fields() {
    let h = header();
    assert_eq!(h.encode_body(), vec![0x08, 0x01, 0x18, 0x02]);
    assert_eq!(h.encode_body(), header_expected(&h));
    let zero = MessageHeader { num_required_signatures: 0, num_readonly_signed_accounts: 0, num_readonly_unsigned_accounts: 0 };
    assert!(zero.encode_body().is_empty());
}

#[test]
fn token_amount_float_bits() {
    for bits in [
        Some(1.5f64.to_bits()),
        Some(0f64.to_bits()),
        Some((-0f64).to_bits()),
        Some(f64::NAN.to_bits()),
        Some((-2.25f64).to_bits()),
        None,
    ] {
        let a = amount(bits);
        assert_eq!(a.encode_body(), amount_expected(&a));
    }
    // 1.5 is 0x3FF8_0000_0000_0000, written little-endian after key 0x09.
    let a = UiTokenAmount { ui_amount: Some(1.5f64.to_bits()), decimals: 0, amount: String::new(), ui_amount_string: String::new() };
    assert_eq!(a.encode_body(), vec![0x09, 0, 0, 0, 0, 0, 0, 0xF8, 0x3F]);
}

#[test]
fn legacy_and_versioned_messages() {
    let legacy = SanitizedMessage::Legacy(message());
    assert_eq!(legacy.encode_body(), message_expected(&message(), false, &[]));
    let v0 = SanitizedMessage::V0 { message: message(), address_table_lookups: vec![lookup()] };
    assert_eq!(v0.encode_body(), message_expected(&message(), true, &[lookup()]));
}

#[test]
fn status_meta_matches_prost() {
    for m in [meta_full(), meta_empty()] {
        assert_eq!(m.encode_body(), meta_expected(&m));
    }
}

#[test]
fn packed_balances_exact_bytes() {
    let mut m = meta_empty();
    m.post_balances = vec![1, 300];
    let v = m.encode_body();
    // Field 4, three bytes of varints: 1, then 300 as 0xAC 0x02.
    assert_eq!(&v[..5], &[0x22, 0x03, 0x01, 0xAC, 0x02]);
}

#[test]
fn transaction_info_matches_prost() {
    for t in [info(false, meta_full(), false, 0), info(true, meta_empty(), true, 17)] {
        assert_eq!(t.encode_body(), info_expected(&t));
    }
}

#[test]
fn transaction_update_and_message() {
    let t = info(true, meta_full(), false, 3);
    let mut expected = Vec::new();
    nested(1, &info_expected(&t), &mut expected);
    prost::encoding::uint64::encode(2, &99u64, &mut expected);
    assert_eq!(encode_transaction(99, &t), expected);

    let mut zero_slot = Vec::new();
    nested(1, &info_expected(&t), &mut zero_slot);
    assert_eq!(encode_transaction(0, &t), zero_slot);

    let created_at = Timestamp { seconds: 5, nanos: 0 };
    let m = ProtobufMessage::Transaction { slot: 99, transaction: t };
    assert_eq!(m.get_slot(), 99);
    assert_eq!(m.get_plugin_notification(), PluginNotification::Transaction);
    let mut whole = Vec::new();
    nested(4, &expected, &mut whole);
    let mut time = Vec::new();
    prost::encoding::int64::encode(1, &5i64, &mut time);
    nested(11, &time, &mut whole);
    assert_eq!(m.encode_raw(created_at), whole);
}
