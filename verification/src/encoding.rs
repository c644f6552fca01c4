//! Raw protobuf encoding of the plugin's messages: each Geyser notification
//! becomes a `SubscribeUpdate` with one update field and the creation time,
//! written field by field without building intermediate message objects.
use vstd::prelude::*;
use crate::wire::{
    spec_varint, spec_uint64_field, spec_bool_field, spec_bytes_field, spec_i64_bits, valid_tag,
    encode_uint64, encode_bool, bytes_encode, lemma_varint_len, lemma_key_len, spec_key, WIRE_LEN,
};
use crate::plugin::{PluginNotification, ProtobufEncoder};
use crate::transaction::{ReplicaTransactionInfo, spec_transaction, encode_transaction, fits};

verus! {

/// A point in time as protobuf's `Timestamp`: seconds and nanoseconds since
/// the Unix epoch.
#[derive(Debug, Clone, Copy, PartialEq, Eq, Structural)]
pub struct Timestamp {
    pub seconds: i64,
    pub nanos: i32,
}

/// How far the clock reads from the Unix epoch, from
/// `std::time::SystemTime::now` and `duration_since(UNIX_EPOCH)`: `Ok` with
/// whole seconds and nanoseconds at or after the epoch, `Err` with the same
/// before it. The reading depends on the clock; only that the nanoseconds
/// are a fraction of a second (`Duration::subsec_nanos`) is stated.
#[verifier::external_body]
fn clock_since_epoch() -> (r: Result<(u64, u32), (u64, u32)>)
    ensures
        match r {
            Ok((_, n)) => n < 1_000_000_000,
            Err((_, n)) => n < 1_000_000_000,
        },
{
    match std::time::SystemTime::now().duration_since(std::time::UNIX_EPOCH) {
        Ok(d) => Ok((d.as_secs(), d.subsec_nanos())),
        Err(e) => Err((e.duration().as_secs(), e.duration().subsec_nanos())),
    }
}

/// A clock reading as a protobuf `Timestamp`: after the epoch the seconds
/// and nanoseconds as they are; before it, negative seconds with the
/// nanoseconds counted forward from them. `None` when the seconds do not fit
/// an `i64`.
pub open spec fn clock_timestamp(clock: Result<(u64, u32), (u64, u32)>) -> Option<Timestamp> {
    match clock {
        Ok((s, n)) => if s <= i64::MAX {
            Some(Timestamp { seconds: s as i64, nanos: n as i32 })
        } else {
            None
        },
        Err((s, n)) => if s > i64::MAX {
            None
        } else if n == 0 {
            Some(Timestamp { seconds: -s as i64, nanos: 0 })
        } else {
            Some(Timestamp { seconds: (-s - 1) as i64, nanos: (1_000_000_000 - n) as i32 })
        },
    }
}

/// Converts a clock reading (see `clock_timestamp`).
pub fn timestamp_from_clock(clock: Result<(u64, u32), (u64, u32)>) -> (t: Option<Timestamp>)
    requires
        match clock {
            Ok((_, n)) => n < 1_000_000_000,
            Err((_, n)) => n < 1_000_000_000,
        },
    ensures
        t == clock_timestamp(clock),
{
    match clock {
        Ok((s, n)) => if s <= 9_223_372_036_854_775_807u64 {
            Some(Timestamp { seconds: s as i64, nanos: n as i32 })
        } else {
            None
        },
        Err((s, n)) => if s > 9_223_372_036_854_775_807u64 {
            None
        } else if n == 0 {
            Some(Timestamp { seconds: -(s as i64), nanos: 0 })
        } else {
            Some(Timestamp { seconds: -(s as i64) - 1, nanos: 1_000_000_000 - (n as i32) })
        },
    }
}

/// The current time as a `Timestamp` (see `clock_timestamp`); the epoch when
/// the clock reads more than `i64::MAX` seconds from it.
pub(crate) fn timestamp_now() -> (t: Timestamp) {
    match timestamp_from_clock(clock_since_epoch()) {
        Some(t) => t,
        None => Timestamp { seconds: 0, nanos: 0 },
    }
}

/// A varint field that proto3 leaves out when it holds zero.
pub open spec fn spec_u64_field(tag: u32, v: u64) -> Seq<u8> {
    if v != 0 {
        spec_uint64_field(tag, v)
    } else {
        Seq::empty()
    }
}

/// A signed varint field (sign-extended to 64 bits), left out when zero.
pub open spec fn spec_i64_field(tag: u32, v: i64) -> Seq<u8> {
    if v != 0 {
        spec_uint64_field(tag, spec_i64_bits(v))
    } else {
        Seq::empty()
    }
}

/// A bytes or string field, left out when empty.
pub open spec fn spec_nonempty_bytes_field(tag: u32, b: Seq<u8>) -> Seq<u8> {
    if b.len() > 0 {
        spec_bytes_field(tag, b)
    } else {
        Seq::empty()
    }
}

/// A field that is present exactly when the option is.
pub open spec fn spec_opt_u64_field(tag: u32, v: Option<u64>) -> Seq<u8> {
    match v {
        Some(x) => spec_uint64_field(tag, x),
        None => Seq::empty(),
    }
}

/// The fields of a `Timestamp`.
pub open spec fn spec_timestamp(t: Timestamp) -> Seq<u8> {
    spec_i64_field(1, t.seconds) + spec_i64_field(2, t.nanos as i64)
}

/// Appends a varint field unless it holds zero.
pub fn encode_u64_field(tag: u32, value: u64, buf: &mut Vec<u8>)
    requires
        valid_tag(tag),
        old(buf)@.len() + 20 <= usize::MAX,
    ensures
        final(buf)@ == old(buf)@ + spec_u64_field(tag, value),
{
    if value != 0 {
        encode_uint64(tag, value, buf);
    } else {
        assert(buf@ =~= old(buf)@ + Seq::<u8>::empty());
    }
}

/// Appends a signed varint field unless it holds zero.
pub fn encode_i64_field(tag: u32, value: i64, buf: &mut Vec<u8>)
    requires
        valid_tag(tag),
        old(buf)@.len() + 20 <= usize::MAX,
    ensures
        final(buf)@ == old(buf)@ + spec_i64_field(tag, value),
{
    if value != 0 {
        let bits: u64 = if value >= 0 {
            value as u64
        } else {
            let neg: u64 = (-(value + 1)) as u64;
            u64::MAX - neg
        };
        encode_uint64(tag, bits, buf);
    } else {
        assert(buf@ =~= old(buf)@ + Seq::<u8>::empty());
    }
}

/// Appends a bytes field unless it is empty.
pub fn encode_nonempty_bytes_field(tag: u32, value: &[u8], buf: &mut Vec<u8>)
    requires
        valid_tag(tag),
        old(buf)@.len() + value@.len() + 20 <= usize::MAX,
    ensures
        final(buf)@ == old(buf)@ + spec_nonempty_bytes_field(tag, value@),
{
    if value.len() > 0 {
        bytes_encode(tag, value, buf);
    } else {
        assert(buf@ =~= old(buf)@ + Seq::<u8>::empty());
    }
}

/// Appends a field when the option holds a value.
pub fn encode_opt_u64_field(tag: u32, value: Option<u64>, buf: &mut Vec<u8>)
    requires
        valid_tag(tag),
        old(buf)@.len() + 20 <= usize::MAX,
    ensures
        final(buf)@ == old(buf)@ + spec_opt_u64_field(tag, value),
{
    match value {
        Some(v) => encode_uint64(tag, v, buf),
        None => {
            assert(buf@ =~= old(buf)@ + Seq::<u8>::empty());
        },
    }
}

impl Timestamp {
    /// The encoded fields of the timestamp.
    pub fn encode_fields(&self) -> (v: Vec<u8>)
        ensures
            v@ == spec_timestamp(*self),
            v@.len() <= 30,
    {
        let mut v: Vec<u8> = Vec::new();
        proof {
            lemma_u64_field_len(1, spec_i64_bits(self.seconds));
            lemma_u64_field_len(2, spec_i64_bits(self.nanos as i64));
        }
        encode_i64_field(1, self.seconds, &mut v);
        encode_i64_field(2, self.nanos as i64, &mut v);
        proof {
            assert(v@ =~= spec_timestamp(*self));
        }
        v
    }
}

/// A varint field with a small tag takes at most 15 bytes.
pub proof fn lemma_u64_field_len(tag: u32, v: u64)
    requires
        valid_tag(tag),
    ensures
        spec_uint64_field(tag, v).len() <= 15,
        spec_u64_field(tag, v).len() <= 15,
{
    lemma_key_len(tag);
    lemma_varint_len(v);
    lemma_varint_len((tag * 8) as u64);
}


/// Status of a slot reported by the validator.
#[derive(Debug, Clone, PartialEq, Eq)]
pub enum SlotStatus {
    Processed,
    Rooted,
    Confirmed,
    FirstShredReceived,
    Completed,
    CreatedBank,
    Dead(String),
}

/// The number of a slot status on the wire: processed 0, confirmed 1,
/// finalized (rooted) 2, first shred received 3, completed 4, created bank 5,
/// dead 6.
pub open spec fn spec_status_number(s: SlotStatus) -> u64 {
    match s {
        SlotStatus::Processed => 0,
        SlotStatus::Confirmed => 1,
        SlotStatus::Rooted => 2,
        SlotStatus::FirstShredReceived => 3,
        SlotStatus::Completed => 4,
        SlotStatus::CreatedBank => 5,
        SlotStatus::Dead(_) => 6,
    }
}

/// UTF-8 bytes of a string.
pub open spec fn utf8(s: Seq<char>) -> Seq<u8> {
    vstd::utf8::encode_utf8(s)
}

/// The fields of a slot update: slot, parent when known, status, and the
/// error of a dead slot.
pub open spec fn spec_slot(slot: u64, parent: Option<u64>, status: SlotStatus) -> Seq<u8> {
    spec_u64_field(1, slot) + spec_opt_u64_field(2, parent) + spec_u64_field(3, spec_status_number(status))
        + match status {
        SlotStatus::Dead(e) => spec_bytes_field(4, utf8(e@)),
        _ => Seq::empty(),
    }
}

/// Whether a slot status can be encoded in memory.
pub open spec fn status_fits(status: SlotStatus) -> bool {
    match status {
        SlotStatus::Dead(e) => utf8(e@).len() <= usize::MAX / 2,
        _ => true,
    }
}

impl SlotStatus {
    /// The wire number of the status.
    pub fn number(&self) -> (n: u64)
        ensures
            n == spec_status_number(*self),
    {
        match self {
            SlotStatus::Processed => 0,
            SlotStatus::Confirmed => 1,
            SlotStatus::Rooted => 2,
            SlotStatus::FirstShredReceived => 3,
            SlotStatus::Completed => 4,
            SlotStatus::CreatedBank => 5,
            SlotStatus::Dead(_) => 6,
        }
    }
}

/// The encoded fields of a slot update.
pub fn encode_slot(slot: u64, parent: Option<u64>, status: &SlotStatus) -> (v: Vec<u8>)
    requires
        status_fits(*status),
    ensures
        v@ == spec_slot(slot, parent, *status),
        v@.len() <= usize::MAX / 2 + 100,
{
    let mut v: Vec<u8> = Vec::new();
    proof {
        lemma_u64_field_len(1, slot);
        lemma_u64_field_len(2, parent.unwrap_or(0));
        lemma_u64_field_len(3, spec_status_number(*status));
    }
    encode_u64_field(1, slot, &mut v);
    encode_opt_u64_field(2, parent, &mut v);
    encode_u64_field(3, status.number(), &mut v);
    let ghost before = v@;
    match status {
        SlotStatus::Dead(e) => {
            let b = e.as_str().as_bytes();
            bytes_encode(4, b, &mut v);
        },
        _ => {},
    }
    proof {
        if status is Dead {
            lemma_bytes_field_len(4, utf8(status->0@));
        }
        assert(v@ =~= spec_slot(slot, parent, *status));
    }
    v
}

/// An entry of a block as the validator reports it.
#[derive(Debug, Clone)]
pub struct ReplicaEntryInfo {
    pub slot: u64,
    pub index: usize,
    pub num_hashes: u64,
    pub hash: Vec<u8>,
    pub executed_transaction_count: u64,
    pub starting_transaction_index: usize,
}

/// The fields of an entry update.
pub open spec fn spec_entry(e: ReplicaEntryInfo) -> Seq<u8> {
    spec_u64_field(1, e.slot) + spec_u64_field(2, e.index as u64) + spec_u64_field(3, e.num_hashes)
        + spec_nonempty_bytes_field(4, e.hash@) + spec_u64_field(5, e.executed_transaction_count)
        + spec_u64_field(6, e.starting_transaction_index as u64)
}

impl ReplicaEntryInfo {
    /// The encoded fields of the entry update.
    pub fn encode_fields(&self) -> (v: Vec<u8>)
        requires
            self.hash@.len() <= usize::MAX / 2,
        ensures
            v@ == spec_entry(*self),
            v@.len() <= self.hash@.len() + 100,
    {
        let mut v: Vec<u8> = Vec::new();
        proof {
            lemma_u64_field_len(1, self.slot);
            lemma_u64_field_len(2, self.index as u64);
            lemma_u64_field_len(3, self.num_hashes);
            lemma_u64_field_len(5, self.executed_transaction_count);
            lemma_u64_field_len(6, self.starting_transaction_index as u64);
        }
        encode_u64_field(1, self.slot, &mut v);
        encode_u64_field(2, self.index as u64, &mut v);
        encode_u64_field(3, self.num_hashes, &mut v);
        encode_nonempty_bytes_field(4, self.hash.as_slice(), &mut v);
        proof {
            lemma_nonempty_bytes_field_len(4, self.hash@);
        }
        encode_u64_field(5, self.executed_transaction_count, &mut v);
        encode_u64_field(6, self.starting_transaction_index as u64, &mut v);
        proof {
            assert(v@ =~= spec_entry(*self));
        }
        v
    }
}

/// A length-delimited field adds at most 15 bytes to its payload.
pub proof fn lemma_bytes_field_len(tag: u32, b: Seq<u8>)
    requires
        valid_tag(tag),
        b.len() <= u64::MAX,
    ensures
        spec_bytes_field(tag, b).len() <= b.len() + 15,
        spec_bytes_field(tag, b).len() >= b.len(),
{
    lemma_key_len(tag);
    lemma_varint_len(b.len() as u64);
}

/// The same bound for a field left out when empty.
pub proof fn lemma_nonempty_bytes_field_len(tag: u32, b: Seq<u8>)
    requires
        valid_tag(tag),
        b.len() <= u64::MAX,
    ensures
        spec_nonempty_bytes_field(tag, b).len() <= b.len() + 15,
{
    lemma_bytes_field_len(tag, b);
}


/// An account update as the validator reports it.
#[derive(Debug, Clone)]
pub struct ReplicaAccountInfo {
    pub pubkey: Vec<u8>,
    pub lamports: u64,
    pub owner: Vec<u8>,
    pub executable: bool,
    pub rent_epoch: u64,
    pub data: Vec<u8>,
    pub write_version: u64,
    /// Signature of the transaction that changed the account, if any.
    pub txn_signature: Option<Vec<u8>>,
}

/// The fields of an account's state: key and owner always, the other fields
/// when they differ from their default.
pub open spec fn spec_account_info(a: ReplicaAccountInfo) -> Seq<u8> {
    spec_bytes_field(1, a.pubkey@) + spec_u64_field(2, a.lamports) + spec_bytes_field(3, a.owner@)
        + (if a.executable {
        spec_bool_field(4, true)
    } else {
        Seq::empty()
    }) + spec_u64_field(5, a.rent_epoch) + spec_nonempty_bytes_field(6, a.data@) + spec_u64_field(
        7,
        a.write_version,
    ) + match a.txn_signature {
        Some(sig) => spec_bytes_field(8, sig@),
        None => Seq::empty(),
    }
}

/// The fields of an account update: the account's state and the slot.
pub open spec fn spec_account(slot: u64, a: ReplicaAccountInfo) -> Seq<u8> {
    spec_bytes_field(1, spec_account_info(a)) + spec_u64_field(2, slot)
}

/// Total size of the variable parts of an account.
pub open spec fn account_payload(a: ReplicaAccountInfo) -> nat {
    a.pubkey@.len() + a.owner@.len() + a.data@.len() + match a.txn_signature {
        Some(sig) => sig@.len(),
        None => 0,
    }
}

impl ReplicaAccountInfo {
    /// The encoded fields of the account's state.
    pub fn encode_info(&self) -> (v: Vec<u8>)
        requires
            account_payload(*self) <= usize::MAX / 2,
        ensures
            v@ == spec_account_info(*self),
            v@.len() <= account_payload(*self) + 120,
    {
        let mut v: Vec<u8> = Vec::new();
        proof {
            lemma_bytes_field_len(1, self.pubkey@);
            lemma_bytes_field_len(3, self.owner@);
            lemma_nonempty_bytes_field_len(6, self.data@);
            lemma_u64_field_len(2, self.lamports);
            lemma_u64_field_len(4, 1);
            lemma_u64_field_len(5, self.rent_epoch);
            lemma_u64_field_len(7, self.write_version);
            if self.txn_signature is Some {
                lemma_bytes_field_len(8, self.txn_signature->0@);
            }
        }
        bytes_encode(1, self.pubkey.as_slice(), &mut v);
        encode_u64_field(2, self.lamports, &mut v);
        bytes_encode(3, self.owner.as_slice(), &mut v);
        if self.executable {
            encode_bool(4, true, &mut v);
        }
        encode_u64_field(5, self.rent_epoch, &mut v);
        encode_nonempty_bytes_field(6, self.data.as_slice(), &mut v);
        encode_u64_field(7, self.write_version, &mut v);
        match &self.txn_signature {
            Some(sig) => bytes_encode(8, sig.as_slice(), &mut v),
            None => {},
        }
        proof {
            assert(v@ =~= spec_account_info(*self));
        }
        v
    }
}

/// The encoded fields of an account update.
pub fn encode_account(slot: u64, account: &ReplicaAccountInfo) -> (v: Vec<u8>)
    requires
        account_payload(*account) <= usize::MAX / 2,
    ensures
        v@ == spec_account(slot, *account),
        v@.len() <= account_payload(*account) + 150,
{
    let info = account.encode_info();
    let mut v: Vec<u8> = Vec::new();
    bytes_encode(1, info.as_slice(), &mut v);
    proof {
        lemma_bytes_field_len(1, info@);
        lemma_u64_field_len(2, slot);
    }
    encode_u64_field(2, slot, &mut v);
    proof {
        assert(v@ =~= spec_account(slot, *account));
    }
    v
}

/// Kind of a reward.
#[derive(Debug, Clone, Copy, PartialEq, Eq, Structural)]
pub enum RewardType {
    Fee,
    Rent,
    Staking,
    Voting,
}

/// A reward paid in a block.
#[derive(Debug, Clone)]
pub struct Reward {
    pub pubkey: String,
    pub lamports: i64,
    pub post_balance: u64,
    pub reward_type: Option<RewardType>,
    pub commission: Option<u8>,
}

/// The wire number of a reward type: unspecified 0, fee 1, rent 2,
/// staking 3, voting 4.
pub open spec fn spec_reward_type_number(t: Option<RewardType>) -> u64 {
    match t {
        None => 0,
        Some(RewardType::Fee) => 1,
        Some(RewardType::Rent) => 2,
        Some(RewardType::Staking) => 3,
        Some(RewardType::Voting) => 4,
    }
}

/// Decimal digits of `n`, most significant first, without leading zeros.
pub open spec fn spec_decimal(n: nat) -> Seq<u8>
    decreases n,
{
    if n < 10 {
        seq![(n + 48) as u8]
    } else {
        spec_decimal(n / 10).push((n % 10 + 48) as u8)
    }
}

/// The commission as text: its decimal digits, or empty when unknown.
pub open spec fn spec_commission(c: Option<u8>) -> Seq<u8> {
    match c {
        Some(x) => spec_decimal(x as nat),
        None => Seq::empty(),
    }
}

/// The fields of a reward.
pub open spec fn spec_reward(r: Reward) -> Seq<u8> {
    spec_nonempty_bytes_field(1, utf8(r.pubkey@)) + spec_i64_field(2, r.lamports) + spec_u64_field(
        3,
        r.post_balance,
    ) + spec_u64_field(4, spec_reward_type_number(r.reward_type)) + spec_nonempty_bytes_field(
        5,
        spec_commission(r.commission),
    )
}

/// Decimal text of a byte value.
pub fn decimal_u8(n: u8) -> (v: Vec<u8>)
    ensures
        v@ == spec_decimal(n as nat),
        1 <= v@.len() <= 3,
{
    let mut v: Vec<u8> = Vec::new();
    if n >= 100 {
        v.push(n / 100 + 48);
        v.push(n / 10 % 10 + 48);
        v.push(n % 10 + 48);
        proof {
            reveal_with_fuel(spec_decimal, 3);
            assert(v@ =~= spec_decimal(n as nat));
        }
    } else if n >= 10 {
        v.push(n / 10 + 48);
        v.push(n % 10 + 48);
        proof {
            reveal_with_fuel(spec_decimal, 2);
            assert(v@ =~= spec_decimal(n as nat));
        }
    } else {
        v.push(n + 48);
        proof {
            assert(v@ =~= spec_decimal(n as nat));
        }
    }
    v
}

impl RewardType {
    /// The wire number of the reward type.
    pub fn number(t: Option<RewardType>) -> (n: u64)
        ensures
            n == spec_reward_type_number(t),
    {
        match t {
            None => 0,
            Some(RewardType::Fee) => 1,
            Some(RewardType::Rent) => 2,
            Some(RewardType::Staking) => 3,
            Some(RewardType::Voting) => 4,
        }
    }
}

impl Reward {
    /// The encoded fields of the reward.
    pub fn encode_fields(&self) -> (v: Vec<u8>)
        requires
            utf8(self.pubkey@).len() <= usize::MAX / 2,
        ensures
            v@ == spec_reward(*self),
            v@.len() <= utf8(self.pubkey@).len() + 80,
    {
        let mut v: Vec<u8> = Vec::new();
        proof {
            lemma_nonempty_bytes_field_len(1, utf8(self.pubkey@));
            lemma_u64_field_len(2, spec_i64_bits(self.lamports));
            lemma_u64_field_len(3, self.post_balance);
            lemma_u64_field_len(4, spec_reward_type_number(self.reward_type));
        }
        encode_nonempty_bytes_field(1, self.pubkey.as_str().as_bytes(), &mut v);
        encode_i64_field(2, self.lamports, &mut v);
        encode_u64_field(3, self.post_balance, &mut v);
        encode_u64_field(4, RewardType::number(self.reward_type), &mut v);
        let commission: Vec<u8> = match self.commission {
            Some(c) => decimal_u8(c),
            None => Vec::new(),
        };
        proof {
            assert(commission@ =~= spec_commission(self.commission));
            lemma_nonempty_bytes_field_len(5, commission@);
        }
        encode_nonempty_bytes_field(5, commission.as_slice(), &mut v);
        proof {
            assert(v@ =~= spec_reward(*self));
        }
        v
    }
}


/// A block's metadata as the validator reports it.
#[derive(Debug, Clone)]
pub struct ReplicaBlockInfo {
    pub slot: u64,
    pub blockhash: String,
    pub rewards: Vec<Reward>,
    pub num_partitions: Option<u64>,
    pub block_time: Option<i64>,
    pub block_height: Option<u64>,
    pub parent_slot: u64,
    pub parent_blockhash: String,
    pub executed_transaction_count: u64,
    pub entry_count: u64,
}

/// The repeated reward fields of a list of rewards, in order.
pub open spec fn spec_reward_list(rs: Seq<Reward>) -> Seq<u8>
    decreases rs.len(),
{
    if rs.len() == 0 {
        Seq::empty()
    } else {
        spec_reward_list(rs.drop_last()) + spec_bytes_field(1, spec_reward(rs.last()))
    }
}

/// The fields of a block's rewards: each reward, then the number of
/// partitions when known.
pub open spec fn spec_rewards(rs: Seq<Reward>, num_partitions: Option<u64>) -> Seq<u8> {
    spec_reward_list(rs) + match num_partitions {
        Some(n) => spec_bytes_field(2, spec_u64_field(1, n)),
        None => Seq::empty(),
    }
}

/// The fields of a block-meta update.
pub open spec fn spec_block_meta(b: ReplicaBlockInfo) -> Seq<u8> {
    spec_u64_field(1, b.slot) + spec_nonempty_bytes_field(2, utf8(b.blockhash@)) + spec_bytes_field(
        3,
        spec_rewards(b.rewards@, b.num_partitions),
    ) + match b.block_time {
        Some(t) => spec_bytes_field(4, spec_i64_field(1, t)),
        None => Seq::empty(),
    } + match b.block_height {
        Some(h) => spec_bytes_field(5, spec_u64_field(1, h)),
        None => Seq::empty(),
    } + spec_u64_field(6, b.parent_slot) + spec_nonempty_bytes_field(7, utf8(b.parent_blockhash@))
        + spec_u64_field(8, b.executed_transaction_count) + spec_u64_field(9, b.entry_count)
}

/// Size bound of the rewards of a block: each reward's key plus the room
/// its other fields take.
pub open spec fn rewards_payload(rs: Seq<Reward>) -> nat
    decreases rs.len(),
{
    if rs.len() == 0 {
        0
    } else {
        rewards_payload(rs.drop_last()) + utf8(rs.last().pubkey@).len() + 100
    }
}

/// Total size of the variable parts of a block's metadata.
pub open spec fn block_payload(b: ReplicaBlockInfo) -> nat {
    utf8(b.blockhash@).len() + utf8(b.parent_blockhash@).len() + rewards_payload(b.rewards@)
}

/// The rewards of the first `i` rewards grow with `i` and stay within the
/// size bound.
proof fn lemma_reward_list_prefix(rs: Seq<Reward>, i: int)
    requires
        0 <= i < rs.len(),
        rewards_payload(rs) <= usize::MAX,
    ensures
        spec_reward_list(rs.take(i + 1)) == spec_reward_list(rs.take(i)) + spec_bytes_field(
            1,
            spec_reward(rs[i]),
        ),
        rewards_payload(rs.take(i + 1)) == rewards_payload(rs.take(i)) + utf8(rs[i].pubkey@).len() + 100,
{
    assert(rs.take(i + 1).drop_last() =~= rs.take(i));
}

/// The size bound grows along prefixes.
proof fn lemma_rewards_payload_prefix(rs: Seq<Reward>, i: int)
    requires
        0 <= i <= rs.len(),
    ensures
        rewards_payload(rs.take(i)) <= rewards_payload(rs),
    decreases rs.len(),
{
    if i < rs.len() {
        lemma_rewards_payload_prefix(rs.drop_last(), i);
        assert(rs.drop_last().take(i) =~= rs.take(i));
    } else {
        assert(rs.take(i) =~= rs);
    }
}

/// A reward's fields take at most its key and 80 bytes.
proof fn lemma_reward_len(r: Reward)
    requires
        utf8(r.pubkey@).len() + 100 <= u64::MAX,
    ensures
        spec_reward(r).len() <= utf8(r.pubkey@).len() + 80,
{
    lemma_nonempty_bytes_field_len(1, utf8(r.pubkey@));
    lemma_u64_field_len(2, spec_i64_bits(r.lamports));
    lemma_u64_field_len(3, r.post_balance);
    lemma_u64_field_len(4, spec_reward_type_number(r.reward_type));
    reveal_with_fuel(spec_decimal, 3);
    lemma_nonempty_bytes_field_len(5, spec_commission(r.commission));
}

/// Encodes the rewards of a block.
pub fn encode_rewards(rewards: &Vec<Reward>, num_partitions: Option<u64>) -> (v: Vec<u8>)
    requires
        rewards_payload(rewards@) <= usize::MAX / 2,
    ensures
        v@ == spec_rewards(rewards@, num_partitions),
        v@.len() <= rewards_payload(rewards@) + 30,
{
    let mut v: Vec<u8> = Vec::new();
    let mut i: usize = 0;
    while i < rewards.len()
        invariant
            i <= rewards@.len(),
            v@ == spec_reward_list(rewards@.take(i as int)),
            v@.len() <= rewards_payload(rewards@.take(i as int)),
            rewards_payload(rewards@) <= usize::MAX / 2,
        decreases rewards@.len() - i,
    {
        proof {
            lemma_reward_list_prefix(rewards@, i as int);
            lemma_rewards_payload_prefix(rewards@, i as int + 1);
            lemma_reward_len(rewards@[i as int]);
            lemma_bytes_field_len(1, spec_reward(rewards@[i as int]));
        }
        let r = rewards[i].encode_fields();
        bytes_encode(1, r.as_slice(), &mut v);
        i = i + 1;
    }
    proof {
        assert(rewards@.take(rewards@.len() as int) =~= rewards@);
    }
    match num_partitions {
        Some(n) => {
            let mut inner: Vec<u8> = Vec::new();
            proof {
                lemma_u64_field_len(1, n);
            }
            encode_u64_field(1, n, &mut inner);
            proof {
                lemma_bytes_field_len(2, inner@);
            }
            bytes_encode(2, inner.as_slice(), &mut v);
        },
        None => {},
    }
    proof {
        assert(v@ =~= spec_rewards(rewards@, num_partitions));
    }
    v
}


impl ReplicaBlockInfo {
    /// The encoded fields of the block-meta update.
    pub fn encode_fields(&self) -> (v: Vec<u8>)
        requires
            block_payload(*self) <= usize::MAX / 4,
        ensures
            v@ == spec_block_meta(*self),
            v@.len() <= block_payload(*self) + 300,
    {
        let mut v: Vec<u8> = Vec::new();
        proof {
            lemma_u64_field_len(1, self.slot);
            lemma_nonempty_bytes_field_len(2, utf8(self.blockhash@));
        }
        encode_u64_field(1, self.slot, &mut v);
        encode_nonempty_bytes_field(2, self.blockhash.as_str().as_bytes(), &mut v);
        let rewards = encode_rewards(&self.rewards, self.num_partitions);
        proof {
            lemma_bytes_field_len(3, rewards@);
        }
        bytes_encode(3, rewards.as_slice(), &mut v);
        match self.block_time {
            Some(t) => {
                let mut inner: Vec<u8> = Vec::new();
                proof {
                    lemma_u64_field_len(1, spec_i64_bits(t));
                }
                encode_i64_field(1, t, &mut inner);
                bytes_encode(4, inner.as_slice(), &mut v);
            },
            None => {},
        }
        match self.block_height {
            Some(h) => {
                let mut inner: Vec<u8> = Vec::new();
                proof {
                    lemma_u64_field_len(1, h);
                }
                encode_u64_field(1, h, &mut inner);
                bytes_encode(5, inner.as_slice(), &mut v);
            },
            None => {},
        }
        proof {
            lemma_bytes_field_len(4, spec_i64_field(1, self.block_time.unwrap_or(0)));
            lemma_bytes_field_len(5, spec_u64_field(1, self.block_height.unwrap_or(0)));
            lemma_u64_field_len(1, spec_i64_bits(self.block_time.unwrap_or(0)));
            lemma_u64_field_len(1, self.block_height.unwrap_or(0));
            lemma_u64_field_len(6, self.parent_slot);
        }
        encode_u64_field(6, self.parent_slot, &mut v);
        proof {
            lemma_nonempty_bytes_field_len(7, utf8(self.parent_blockhash@));
        }
        encode_nonempty_bytes_field(7, self.parent_blockhash.as_str().as_bytes(), &mut v);
        proof {
            lemma_u64_field_len(8, self.executed_transaction_count);
            lemma_u64_field_len(9, self.entry_count);
        }
        encode_u64_field(8, self.executed_transaction_count, &mut v);
        encode_u64_field(9, self.entry_count, &mut v);
        proof {
            assert(v@ =~= spec_block_meta(*self));
        }
        v
    }
}

/// A Geyser notification turned into a message for subscribers.
#[derive(Debug, Clone)]
pub enum ProtobufMessage {
    Account { slot: u64, account: ReplicaAccountInfo },
    Slot { slot: u64, parent: Option<u64>, status: SlotStatus },
    Transaction { slot: u64, transaction: ReplicaTransactionInfo },
    Entry { entry: ReplicaEntryInfo },
    BlockMeta { blockinfo: ReplicaBlockInfo },
}

/// The update field a message goes in: account 2, slot 3, transaction 4,
/// block meta 7, entry 8.
pub open spec fn spec_update_tag(m: ProtobufMessage) -> u32 {
    match m {
        ProtobufMessage::Account { .. } => 2,
        ProtobufMessage::Slot { .. } => 3,
        ProtobufMessage::Transaction { .. } => 4,
        ProtobufMessage::BlockMeta { .. } => 7,
        ProtobufMessage::Entry { .. } => 8,
    }
}

/// The fields of the update a message carries.
pub open spec fn spec_update(m: ProtobufMessage) -> Seq<u8> {
    match m {
        ProtobufMessage::Account { slot, account } => spec_account(slot, account),
        ProtobufMessage::Slot { slot, parent, status } => spec_slot(slot, parent, status),
        ProtobufMessage::Transaction { slot, transaction } => spec_transaction(slot, transaction),
        ProtobufMessage::Entry { entry } => spec_entry(entry),
        ProtobufMessage::BlockMeta { blockinfo } => spec_block_meta(blockinfo),
    }
}

/// The encoded `SubscribeUpdate`: the update in its field, then the creation
/// time in field 11.
pub open spec fn spec_message(m: ProtobufMessage, created_at: Timestamp) -> Seq<u8> {
    spec_bytes_field(spec_update_tag(m), spec_update(m)) + spec_bytes_field(11, spec_timestamp(created_at))
}

/// Whether a message can be encoded in memory.
pub open spec fn message_fits(m: ProtobufMessage) -> bool {
    match m {
        ProtobufMessage::Account { account, .. } => account_payload(account) <= usize::MAX / 4,
        ProtobufMessage::Slot { status, .. } => status_fits(status),
        ProtobufMessage::Transaction { slot, transaction } => fits(spec_transaction(slot, transaction)),
        ProtobufMessage::Entry { entry } => entry.hash@.len() <= usize::MAX / 4,
        ProtobufMessage::BlockMeta { blockinfo } => block_payload(blockinfo) <= usize::MAX / 4,
    }
}

/// The kind of notification of a message.
pub open spec fn spec_notification(m: ProtobufMessage) -> PluginNotification {
    match m {
        ProtobufMessage::Account { .. } => PluginNotification::Account,
        ProtobufMessage::Slot { .. } => PluginNotification::Slot,
        ProtobufMessage::Transaction { .. } => PluginNotification::Transaction,
        ProtobufMessage::Entry { .. } => PluginNotification::Entry,
        ProtobufMessage::BlockMeta { .. } => PluginNotification::BlockMeta,
    }
}

/// The slot a message belongs to.
pub open spec fn spec_message_slot(m: ProtobufMessage) -> u64 {
    match m {
        ProtobufMessage::Account { slot, .. } => slot,
        ProtobufMessage::Slot { slot, .. } => slot,
        ProtobufMessage::Transaction { slot, .. } => slot,
        ProtobufMessage::Entry { entry } => entry.slot,
        ProtobufMessage::BlockMeta { blockinfo } => blockinfo.slot,
    }
}

impl ProtobufMessage {
    /// The kind of notification of the message.
    pub fn get_plugin_notification(&self) -> (n: PluginNotification)
        ensures
            n == spec_notification(*self),
    {
        match self {
            ProtobufMessage::Account { .. } => PluginNotification::Account,
            ProtobufMessage::Slot { .. } => PluginNotification::Slot,
            ProtobufMessage::Transaction { .. } => PluginNotification::Transaction,
            ProtobufMessage::Entry { .. } => PluginNotification::Entry,
            ProtobufMessage::BlockMeta { .. } => PluginNotification::BlockMeta,
        }
    }

    /// The slot the message belongs to.
    pub fn get_slot(&self) -> (s: u64)
        ensures
            s == spec_message_slot(*self),
    {
        match self {
            ProtobufMessage::Account { slot, .. } => *slot,
            ProtobufMessage::Slot { slot, .. } => *slot,
            ProtobufMessage::Transaction { slot, .. } => *slot,
            ProtobufMessage::Entry { entry } => entry.slot,
            ProtobufMessage::BlockMeta { blockinfo } => blockinfo.slot,
        }
    }

    /// The message encoded field by field.
    pub fn encode_raw(&self, created_at: Timestamp) -> (v: Vec<u8>)
        requires
            message_fits(*self),
        ensures
            v@ == spec_message(*self, created_at),
    {
        let (tag, update): (u32, Vec<u8>) = match self {
            ProtobufMessage::Account { slot, account } => (2, encode_account(*slot, account)),
            ProtobufMessage::Slot { slot, parent, status } => (3, encode_slot(*slot, *parent, status)),
            ProtobufMessage::Transaction { slot, transaction } => (4, encode_transaction(*slot, transaction)),
            ProtobufMessage::Entry { entry } => (8, entry.encode_fields()),
            ProtobufMessage::BlockMeta { blockinfo } => (7, blockinfo.encode_fields()),
        };
        let time = created_at.encode_fields();
        let mut v: Vec<u8> = Vec::new();
        bytes_encode(tag, update.as_slice(), &mut v);
        proof {
            lemma_bytes_field_len(tag, update@);
        }
        bytes_encode(11, time.as_slice(), &mut v);
        proof {
            assert(v@ =~= spec_message(*self, created_at));
        }
        v
    }

    /// The message encoded for the configured encoder, stamped with the
    /// current time. The time depends on the clock, so only the shape of the
    /// bytes is stated.
    pub fn encode(&self, encoder: ProtobufEncoder) -> (v: Vec<u8>)
        requires
            message_fits(*self),
        ensures
            exists|t: Timestamp| v@ == spec_message(*self, t),
    {
        let created_at = timestamp_now();
        self.encode_with_timestamp(encoder, created_at)
    }

    /// The message encoded for the configured encoder. Both encoders give the
    /// same bytes, so both are served by the field-by-field encoding.
    pub fn encode_with_timestamp(&self, encoder: ProtobufEncoder, created_at: Timestamp) -> (v: Vec<u8>)
        requires
            message_fits(*self),
        ensures
            v@ == spec_message(*self, created_at),
    {
        match encoder {
            ProtobufEncoder::Prost => self.encode_raw(created_at),
            ProtobufEncoder::Raw => self.encode_raw(created_at),
        }
    }

}


/// Slot statuses a fuzzer draws.
#[derive(Debug, Clone, Copy, PartialEq, Eq, Structural)]
pub enum FuzzSlotStatus {
    Processed,
    Rooted,
    Confirmed,
    FirstShredReceived,
    Completed,
    CreatedBank,
    Dead,
}

/// The slot status a drawn status stands for; a dead slot has an empty
/// error.
pub open spec fn fuzz_status_of(f: FuzzSlotStatus, s: SlotStatus) -> bool {
    match f {
        FuzzSlotStatus::Processed => s == SlotStatus::Processed,
        FuzzSlotStatus::Rooted => s == SlotStatus::Rooted,
        FuzzSlotStatus::Confirmed => s == SlotStatus::Confirmed,
        FuzzSlotStatus::FirstShredReceived => s == SlotStatus::FirstShredReceived,
        FuzzSlotStatus::Completed => s == SlotStatus::Completed,
        FuzzSlotStatus::CreatedBank => s == SlotStatus::CreatedBank,
        FuzzSlotStatus::Dead => (s matches SlotStatus::Dead(e) && e@.len() == 0),
    }
}

impl FuzzSlotStatus {
    /// The slot status drawn; a dead slot has an empty error.
    pub fn to_slot_status(self) -> (s: SlotStatus)
        ensures
            fuzz_status_of(self, s),
    {
        match self {
            FuzzSlotStatus::Processed => SlotStatus::Processed,
            FuzzSlotStatus::Rooted => SlotStatus::Rooted,
            FuzzSlotStatus::Confirmed => SlotStatus::Confirmed,
            FuzzSlotStatus::FirstShredReceived => SlotStatus::FirstShredReceived,
            FuzzSlotStatus::Completed => SlotStatus::Completed,
            FuzzSlotStatus::CreatedBank => SlotStatus::CreatedBank,
            FuzzSlotStatus::Dead => SlotStatus::Dead(String::new()),
        }
    }
}

/// A slot update a fuzzer draws.
#[derive(Debug, Clone, Copy, PartialEq, Eq, Structural)]
pub struct FuzzSlot {
    pub slot: u64,
    pub parent: Option<u64>,
    pub status: FuzzSlotStatus,
}

impl FuzzSlot {
    /// The slot message drawn.
    pub fn to_message(self) -> (m: ProtobufMessage)
        ensures
            m matches ProtobufMessage::Slot { slot, parent, status } && slot == self.slot && parent
                == self.parent && fuzz_status_of(self.status, status) && status_fits(status),
    {
        ProtobufMessage::Slot { slot: self.slot, parent: self.parent, status: self.status.to_slot_status() }
    }
}

/// An entry a fuzzer draws.
#[derive(Debug, Clone)]
pub struct FuzzEntry {
    pub slot: u64,
    pub index: usize,
    pub num_hashes: u64,
    pub hash: Vec<u8>,
    pub executed_transaction_count: u64,
    pub starting_transaction_index: usize,
}

impl FuzzEntry {
    /// The entry message drawn.
    pub fn to_message(self) -> (m: ProtobufMessage)
        ensures
            m matches ProtobufMessage::Entry { entry } && entry.slot == self.slot && entry.index == self.index
                && entry.num_hashes == self.num_hashes && entry.hash@ == self.hash@
                && entry.executed_transaction_count == self.executed_transaction_count
                && entry.starting_transaction_index == self.starting_transaction_index,
    {
        ProtobufMessage::Entry {
            entry: ReplicaEntryInfo {
                slot: self.slot,
                index: self.index,
                num_hashes: self.num_hashes,
                hash: self.hash,
                executed_transaction_count: self.executed_transaction_count,
                starting_transaction_index: self.starting_transaction_index,
            },
        }
    }
}

/// A ping to a subscriber: an empty ping update and the creation time.
pub open spec fn spec_ping(created_at: Timestamp) -> Seq<u8> {
    spec_bytes_field(6, Seq::empty()) + spec_bytes_field(11, spec_timestamp(created_at))
}

/// The answer to a ping with id `id`: a pong update carrying it and the
/// creation time.
pub open spec fn spec_pong(id: i32, created_at: Timestamp) -> Seq<u8> {
    spec_bytes_field(9, spec_i64_field(1, id as i64)) + spec_bytes_field(11, spec_timestamp(created_at))
}

/// Encodes a ping.
pub fn encode_ping(created_at: Timestamp) -> (v: Vec<u8>)
    ensures
        v@ == spec_ping(created_at),
{
    let time = created_at.encode_fields();
    let empty: Vec<u8> = Vec::new();
    let mut v: Vec<u8> = Vec::new();
    bytes_encode(6, empty.as_slice(), &mut v);
    proof {
        lemma_bytes_field_len(6, empty@);
    }
    bytes_encode(11, time.as_slice(), &mut v);
    proof {
        assert(v@ =~= spec_ping(created_at));
    }
    v
}

/// Encodes a pong.
pub fn encode_pong(id: i32, created_at: Timestamp) -> (v: Vec<u8>)
    ensures
        v@ == spec_pong(id, created_at),
{
    let time = created_at.encode_fields();
    let mut inner: Vec<u8> = Vec::new();
    proof {
        lemma_u64_field_len(1, spec_i64_bits(id as i64));
    }
    encode_i64_field(1, id as i64, &mut inner);
    let mut v: Vec<u8> = Vec::new();
    bytes_encode(9, inner.as_slice(), &mut v);
    proof {
        lemma_bytes_field_len(9, inner@);
    }
    bytes_encode(11, time.as_slice(), &mut v);
    proof {
        assert(v@ =~= spec_pong(id, created_at));
    }
    v
}

/// The reward type a number names in the `RewardType` enum of the Geyser
/// protobuf schema (`Unspecified = 0; Fee = 1; Rent = 2; Staking = 3;
/// Voting = 4;`), unspecified read as no type; `None` for numbers the
/// schema does not define.
pub open spec fn schema_reward_type(n: u64) -> Option<Option<RewardType>> {
    if n == 0 {
        Some(None)
    } else if n == 1 {
        Some(Some(RewardType::Fee))
    } else if n == 2 {
        Some(Some(RewardType::Rent))
    } else if n == 3 {
        Some(Some(RewardType::Staking))
    } else if n == 4 {
        Some(Some(RewardType::Voting))
    } else {
        None
    }
}

/// The number written in a reward's type field reads back, under the
/// schema's numbering, as the reward's type: every reward type is sent as
/// its own schema number.
pub proof fn lemma_reward_type_reads_back(t: Option<RewardType>)
    ensures
        schema_reward_type(spec_reward_type_number(t)) == Some(t),
{
}

/// An encoded reward carries its type as field 4 right after its first
/// three fields, and that field's value reads back as the reward's type
/// (no field when the type is unspecified, as proto3 leaves zero out).
pub proof fn lemma_reward_type_field(r: Reward)
    ensures
        exists|head: Seq<u8>, tail: Seq<u8>, n: u64| {
            &&& spec_reward(r) == head + spec_u64_field(4, n) + tail
            &&& schema_reward_type(n) == Some(r.reward_type)
            &&& head == spec_reward(Reward { reward_type: None, ..r }).take(head.len() as int)
        },
{
    let n = spec_reward_type_number(r.reward_type);
    let r0 = Reward { reward_type: None, ..r };
    let head = spec_nonempty_bytes_field(1, utf8(r.pubkey@)) + spec_i64_field(2, r.lamports) + spec_u64_field(
        3,
        r.post_balance,
    );
    let tail = spec_nonempty_bytes_field(5, spec_commission(r.commission));
    assert(spec_reward(r) =~= head + spec_u64_field(4, n) + tail);
    assert(spec_reward(r0) =~= head + spec_u64_field(4, 0) + tail);
    assert(spec_u64_field(4, 0) =~= Seq::<u8>::empty());
    assert(spec_reward(r0).take(head.len() as int) =~= head);
    assert(schema_reward_type(n) == Some(r.reward_type));
}

/// A block whose time is known is encoded as the same block without a time
/// with exactly one field inserted: field 4, the `UnixTimestamp` message
/// holding the time. So the field is there exactly when the time is known.
pub proof fn lemma_block_time_field(b: ReplicaBlockInfo, t: i64)
    requires
        b.block_time is None,
    ensures
        exists|p: Seq<u8>, s: Seq<u8>| {
            &&& spec_block_meta(b) == p + s
            &&& spec_block_meta(ReplicaBlockInfo { block_time: Some(t), ..b }) == p + spec_bytes_field(
                4,
                spec_i64_field(1, t),
            ) + s
        },
        spec_block_meta(b).len() + 2 <= spec_block_meta(ReplicaBlockInfo { block_time: Some(t), ..b }).len(),
{
    let b2 = ReplicaBlockInfo { block_time: Some(t), ..b };
    let p = spec_u64_field(1, b.slot) + spec_nonempty_bytes_field(2, utf8(b.blockhash@)) + spec_bytes_field(
        3,
        spec_rewards(b.rewards@, b.num_partitions),
    );
    let s = match b.block_height {
        Some(h) => spec_bytes_field(5, spec_u64_field(1, h)),
        None => Seq::empty(),
    } + spec_u64_field(6, b.parent_slot) + spec_nonempty_bytes_field(7, utf8(b.parent_blockhash@))
        + spec_u64_field(8, b.executed_transaction_count) + spec_u64_field(9, b.entry_count);
    assert(spec_block_meta(b) =~= p + s);
    assert(spec_block_meta(b2) =~= p + spec_bytes_field(4, spec_i64_field(1, t)) + s);
    lemma_varint_len(36);
    lemma_varint_len(spec_i64_field(1, t).len() as u64);
}

/// Whether `n` is the number the Geyser protobuf schema's `SlotStatus` enum
/// gives the status `s` (`SLOT_PROCESSED = 0; SLOT_CONFIRMED = 1;
/// SLOT_FINALIZED = 2; SLOT_FIRST_SHRED_RECEIVED = 3; SLOT_COMPLETED = 4;
/// SLOT_CREATED_BANK = 5; SLOT_DEAD = 6;`).
pub open spec fn schema_slot_status(n: u64, s: SlotStatus) -> bool {
    ||| n == 0 && s is Processed
    ||| n == 1 && s is Confirmed
    ||| n == 2 && s is Rooted
    ||| n == 3 && s is FirstShredReceived
    ||| n == 4 && s is Completed
    ||| n == 5 && s is CreatedBank
    ||| n == 6 && s is Dead
}

/// Every slot status is sent as its own schema number.
pub proof fn lemma_slot_status_number_reads_back(s: SlotStatus)
    ensures
        schema_slot_status(spec_status_number(s), s),
        forall|t: SlotStatus| schema_slot_status(spec_status_number(s), t) ==> (t is Dead <==> s is Dead) && (
        !(s is Dead) ==> t == s),
{
}

/// Whether `tag` is the field the Geyser schema's `SubscribeUpdate` uses for
/// the update `m` carries (`account = 2; slot = 3; transaction = 4;
/// block_meta = 7; entry = 8;`).
pub open spec fn schema_update_field(tag: u32, m: ProtobufMessage) -> bool {
    match m {
        ProtobufMessage::Account { .. } => tag == 2,
        ProtobufMessage::Slot { .. } => tag == 3,
        ProtobufMessage::Transaction { .. } => tag == 4,
        ProtobufMessage::BlockMeta { .. } => tag == 7,
        ProtobufMessage::Entry { .. } => tag == 8,
    }
}

/// An encoded message is its update, in the schema's field for the kind of
/// notification, followed by the creation time in field 11.
pub proof fn lemma_message_fields(m: ProtobufMessage, created_at: Timestamp)
    ensures
        exists|tag: u32, body: Seq<u8>| {
            &&& spec_message(m, created_at) == spec_bytes_field(tag, body) + spec_bytes_field(
                11,
                spec_timestamp(created_at),
            )
            &&& schema_update_field(tag, m)
        },
{
    let tag = spec_update_tag(m);
    let body = spec_update(m);
    assert(schema_update_field(tag, m));
    assert(spec_message(m, created_at) == spec_bytes_field(tag, body) + spec_bytes_field(11, spec_timestamp(created_at)));
}

/// A block whose height is known is encoded as the same block without a
/// height with exactly one field inserted: field 5, the `BlockHeight`
/// message holding the height. So the field is there exactly when the
/// height is known.
pub proof fn lemma_block_height_field(b: ReplicaBlockInfo, h: u64)
    requires
        b.block_height is None,
    ensures
        exists|p: Seq<u8>, s: Seq<u8>| {
            &&& spec_block_meta(b) == p + s
            &&& spec_block_meta(ReplicaBlockInfo { block_height: Some(h), ..b }) == p + spec_bytes_field(
                5,
                spec_u64_field(1, h),
            ) + s
        },
        spec_block_meta(b).len() + 2 <= spec_block_meta(ReplicaBlockInfo { block_height: Some(h), ..b }).len(),
{
    let b2 = ReplicaBlockInfo { block_height: Some(h), ..b };
    let p = spec_u64_field(1, b.slot) + spec_nonempty_bytes_field(2, utf8(b.blockhash@)) + spec_bytes_field(
        3,
        spec_rewards(b.rewards@, b.num_partitions),
    ) + match b.block_time {
        Some(t) => spec_bytes_field(4, spec_i64_field(1, t)),
        None => Seq::empty(),
    };
    let s = spec_u64_field(6, b.parent_slot) + spec_nonempty_bytes_field(7, utf8(b.parent_blockhash@))
        + spec_u64_field(8, b.executed_transaction_count) + spec_u64_field(9, b.entry_count);
    assert(spec_block_meta(b) =~= p + s);
    assert(spec_block_meta(b2) =~= p + spec_bytes_field(5, spec_u64_field(1, h)) + s);
    lemma_varint_len(44);
    lemma_varint_len(spec_u64_field(1, h).len() as u64);
}

} // verus!
