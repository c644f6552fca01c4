//! Raw protobuf encoding of transaction notifications: the signed message,
//! the status metadata the runtime reports for it, and the update that
//! carries both, written field by field.
//!
//! Keys, signatures and hashes are held as their bytes. A transaction error
//! is held as the bytes the wire carries for it (the error serialized with
//! bincode), and a token's UI amount as the bit pattern of its 64-bit float.
use vstd::prelude::*;
use crate::wire::{spec_varint, spec_bytes_field, spec_bool_field, spec_key, valid_tag, encode_bool, bytes_encode,
    encode_key, encode_varint};
use crate::encoding::{
    spec_u64_field, spec_nonempty_bytes_field, spec_opt_u64_field, utf8, encode_u64_field,
    encode_nonempty_bytes_field, encode_opt_u64_field, Reward, spec_reward,
};

verus! {

/// Wire type of fixed 64-bit fields.
pub const WIRE_FIXED64: u64 = 1;

/// Whether an encoding is small enough to be built in memory.
pub open spec fn fits(s: Seq<u8>) -> bool {
    s.len() <= usize::MAX / 2
}

/// A value encoded as a nested protobuf message.
pub trait NestedMessage {
    /// The encoded fields of the message.
    spec fn spec_body(&self) -> Seq<u8>;

    /// Encodes the fields of the message.
    fn encode_body(&self) -> (v: Vec<u8>)
        requires
            fits(self.spec_body()),
        ensures
            v@ == self.spec_body(),
    ;
}

/// Each part as a length-delimited field `tag`, in order.
pub open spec fn spec_repeated(tag: u32, parts: Seq<Seq<u8>>) -> Seq<u8>
    decreases parts.len(),
{
    if parts.len() == 0 {
        Seq::empty()
    } else {
        spec_repeated(tag, parts.drop_last()) + spec_bytes_field(tag, parts.last())
    }
}

/// The encoded bodies of a list of messages.
pub open spec fn bodies<T: NestedMessage>(items: Seq<T>) -> Seq<Seq<u8>> {
    items.map_values(|x: T| x.spec_body())
}

/// The bytes of a list of byte strings.
pub open spec fn byte_views(items: Seq<Vec<u8>>) -> Seq<Seq<u8>> {
    items.map_values(|x: Vec<u8>| x@)
}

/// The UTF-8 bytes of a list of strings.
pub open spec fn string_views(items: Seq<String>) -> Seq<Seq<u8>> {
    items.map_values(|x: String| utf8(x@))
}

/// One more part adds its field at the end, and a prefix is never longer
/// than the whole list.
proof fn lemma_repeated_step(tag: u32, parts: Seq<Seq<u8>>, i: int)
    requires
        0 <= i < parts.len(),
    ensures
        spec_repeated(tag, parts.take(i + 1)) == spec_repeated(tag, parts.take(i)) + spec_bytes_field(tag, parts[i]),
        spec_repeated(tag, parts.take(i + 1)).len() <= spec_repeated(tag, parts).len(),
        parts[i].len() <= spec_bytes_field(tag, parts[i]).len(),
{
    assert(parts.take(i + 1).drop_last() =~= parts.take(i));
    lemma_repeated_prefix_len(tag, parts, i + 1);
}

/// A prefix of a list encodes to no more bytes than the list.
proof fn lemma_repeated_prefix_len(tag: u32, parts: Seq<Seq<u8>>, j: int)
    requires
        0 <= j <= parts.len(),
    ensures
        spec_repeated(tag, parts.take(j)).len() <= spec_repeated(tag, parts).len(),
    decreases parts.len(),
{
    if j < parts.len() {
        lemma_repeated_prefix_len(tag, parts.drop_last(), j);
        assert(parts.drop_last().take(j) =~= parts.take(j));
    } else {
        assert(parts.take(j) =~= parts);
    }
}

/// A field left out when empty still holds all of its bytes.
proof fn lemma_nonempty_field_covers(tag: u32, b: Seq<u8>)
    ensures
        spec_nonempty_bytes_field(tag, b).len() >= b.len(),
{
}

/// Appends each message as a length-delimited field `tag`.
fn encode_repeated_messages<T: NestedMessage>(tag: u32, items: &Vec<T>, buf: &mut Vec<u8>)
    requires
        valid_tag(tag),
        old(buf)@.len() + spec_repeated(tag, bodies(items@)).len() <= usize::MAX / 2,
    ensures
        final(buf)@ == old(buf)@ + spec_repeated(tag, bodies(items@)),
{
    let ghost start = buf@;
    let ghost parts = bodies(items@);
    let mut i: usize = 0;
    while i < items.len()
        invariant
            i <= items@.len(),
            valid_tag(tag),
            parts == bodies(items@),
            parts.len() == items@.len(),
            buf@ == start + spec_repeated(tag, parts.take(i as int)),
            start.len() + spec_repeated(tag, parts).len() <= usize::MAX / 2,
        decreases items@.len() - i,
    {
        proof {
            lemma_repeated_step(tag, parts, i as int);
            assert(parts[i as int] == items@[i as int].spec_body());
        }
        let e = items[i].encode_body();
        bytes_encode(tag, e.as_slice(), buf);
        proof {
            assert(buf@ =~= start + spec_repeated(tag, parts.take(i + 1)));
        }
        i = i + 1;
    }
    proof {
        assert(parts.take(i as int) =~= parts);
    }
}

/// Appends each byte string as a length-delimited field `tag`.
fn encode_repeated_bytes(tag: u32, items: &Vec<Vec<u8>>, buf: &mut Vec<u8>)
    requires
        valid_tag(tag),
        old(buf)@.len() + spec_repeated(tag, byte_views(items@)).len() <= usize::MAX / 2,
    ensures
        final(buf)@ == old(buf)@ + spec_repeated(tag, byte_views(items@)),
{
    let ghost start = buf@;
    let ghost parts = byte_views(items@);
    let mut i: usize = 0;
    while i < items.len()
        invariant
            i <= items@.len(),
            valid_tag(tag),
            parts == byte_views(items@),
            parts.len() == items@.len(),
            buf@ == start + spec_repeated(tag, parts.take(i as int)),
            start.len() + spec_repeated(tag, parts).len() <= usize::MAX / 2,
        decreases items@.len() - i,
    {
        proof {
            lemma_repeated_step(tag, parts, i as int);
            assert(parts[i as int] == items@[i as int]@);
        }
        bytes_encode(tag, items[i].as_slice(), buf);
        proof {
            assert(buf@ =~= start + spec_repeated(tag, parts.take(i + 1)));
        }
        i = i + 1;
    }
    proof {
        assert(parts.take(i as int) =~= parts);
    }
}

/// Appends each string as a length-delimited field `tag`.
fn encode_repeated_strings(tag: u32, items: &Vec<String>, buf: &mut Vec<u8>)
    requires
        valid_tag(tag),
        old(buf)@.len() + spec_repeated(tag, string_views(items@)).len() <= usize::MAX / 2,
    ensures
        final(buf)@ == old(buf)@ + spec_repeated(tag, string_views(items@)),
{
    let ghost start = buf@;
    let ghost parts = string_views(items@);
    let mut i: usize = 0;
    while i < items.len()
        invariant
            i <= items@.len(),
            valid_tag(tag),
            parts == string_views(items@),
            parts.len() == items@.len(),
            buf@ == start + spec_repeated(tag, parts.take(i as int)),
            start.len() + spec_repeated(tag, parts).len() <= usize::MAX / 2,
        decreases items@.len() - i,
    {
        proof {
            lemma_repeated_step(tag, parts, i as int);
            assert(parts[i as int] == utf8(items@[i as int]@));
        }
        bytes_encode(tag, items[i].as_str().as_bytes(), buf);
        proof {
            assert(buf@ =~= start + spec_repeated(tag, parts.take(i + 1)));
        }
        i = i + 1;
    }
    proof {
        assert(parts.take(i as int) =~= parts);
    }
}

/// The varints of a list of numbers, one after the other.
pub open spec fn spec_varints(vs: Seq<u64>) -> Seq<u8>
    decreases vs.len(),
{
    if vs.len() == 0 {
        Seq::empty()
    } else {
        spec_varints(vs.drop_last()) + spec_varint(vs.last())
    }
}

/// A packed list of numbers: one length-delimited field holding their
/// varints, left out when the list is empty.
pub open spec fn spec_packed(tag: u32, vs: Seq<u64>) -> Seq<u8> {
    if vs.len() == 0 {
        Seq::empty()
    } else {
        spec_bytes_field(tag, spec_varints(vs))
    }
}

/// The varints of a non-empty list are not empty.
proof fn lemma_varints_nonempty(vs: Seq<u64>)
    requires
        vs.len() > 0,
    ensures
        spec_varints(vs).len() > 0,
{
    crate::wire::lemma_varint_len(vs.last());
}

/// The varints of a prefix grow by one varint and stay within the whole.
proof fn lemma_varints_step(vs: Seq<u64>, i: int)
    requires
        0 <= i < vs.len(),
    ensures
        spec_varints(vs.take(i + 1)) == spec_varints(vs.take(i)) + spec_varint(vs[i]),
        spec_varints(vs.take(i + 1)).len() <= spec_varints(vs).len(),
{
    assert(vs.take(i + 1).drop_last() =~= vs.take(i));
    lemma_varints_prefix_len(vs, i + 1);
}

/// A prefix's varints are no longer than the whole list's.
proof fn lemma_varints_prefix_len(vs: Seq<u64>, j: int)
    requires
        0 <= j <= vs.len(),
    ensures
        spec_varints(vs.take(j)).len() <= spec_varints(vs).len(),
    decreases vs.len(),
{
    if j < vs.len() {
        lemma_varints_prefix_len(vs.drop_last(), j);
        assert(vs.drop_last().take(j) =~= vs.take(j));
    } else {
        assert(vs.take(j) =~= vs);
    }
}

/// Appends a packed list of numbers.
fn encode_packed(tag: u32, values: &Vec<u64>, buf: &mut Vec<u8>)
    requires
        valid_tag(tag),
        old(buf)@.len() + spec_packed(tag, values@).len() <= usize::MAX / 2,
    ensures
        final(buf)@ == old(buf)@ + spec_packed(tag, values@),
{
    if values.len() == 0 {
        assert(buf@ =~= old(buf)@ + spec_packed(tag, values@));
        return;
    }
    let mut inner: Vec<u8> = Vec::new();
    let mut i: usize = 0;
    while i < values.len()
        invariant
            i <= values@.len(),
            values@.len() > 0,
            inner@ == spec_varints(values@.take(i as int)),
            spec_varints(values@).len() <= usize::MAX / 2,
        decreases values@.len() - i,
    {
        proof {
            lemma_varints_step(values@, i as int);
        }
        encode_varint(values[i], &mut inner);
        i = i + 1;
    }
    proof {
        assert(values@.take(i as int) =~= values@);
        lemma_varints_nonempty(values@);
    }
    bytes_encode(tag, inner.as_slice(), buf);
}

/// Little-endian bytes of a 64-bit number.
pub open spec fn spec_le_u64(v: u64) -> Seq<u8> {
    Seq::new(8, |i: int| ((v >> ((i * 8) as u64)) & 0xff) as u8)
}

/// A `double` field given by the bits of the float: key, then the bits in
/// little-endian order.
pub open spec fn spec_fixed64_field(tag: u32, bits: u64) -> Seq<u8> {
    spec_key(tag, WIRE_FIXED64) + spec_le_u64(bits)
}

/// Whether the float with these bits differs from zero (of either sign).
pub open spec fn float_nonzero(bits: u64) -> bool {
    bits & 0x7fff_ffff_ffff_ffff != 0
}

/// Appends a `double` field given by the bits of the float.
fn encode_fixed64(tag: u32, bits: u64, buf: &mut Vec<u8>)
    requires
        valid_tag(tag),
        old(buf)@.len() + 30 <= usize::MAX,
    ensures
        final(buf)@ == old(buf)@ + spec_fixed64_field(tag, bits),
{
    encode_key(tag, WIRE_FIXED64, buf);
    let ghost start = buf@;
    let mut k: usize = 0;
    while k < 8
        invariant
            k <= 8,
            buf@ == start + spec_le_u64(bits).take(k as int),
            start.len() + 20 <= usize::MAX,
        decreases 8 - k,
    {
        let shift: u64 = (k as u64) * 8;
        let byte: u8 = ((bits >> shift) & 0xff) as u8;
        proof {
            assert(spec_le_u64(bits)[k as int] == byte);
            assert(spec_le_u64(bits).take(k + 1) =~= spec_le_u64(bits).take(k as int).push(byte));
        }
        buf.push(byte);
        k = k + 1;
    }
    proof {
        assert(spec_le_u64(bits).take(8) =~= spec_le_u64(bits));
        assert(final(buf)@ =~= old(buf)@ + spec_fixed64_field(tag, bits));
    }
}

/// The counts of required and read-only accounts of a message.
#[derive(Debug, Clone, Copy, PartialEq, Eq, Structural)]
pub struct MessageHeader {
    pub num_required_signatures: u8,
    pub num_readonly_signed_accounts: u8,
    pub num_readonly_unsigned_accounts: u8,
}

/// The fields of a message header, each left out when zero.
pub open spec fn spec_header(h: MessageHeader) -> Seq<u8> {
    spec_u64_field(1, h.num_required_signatures as u64) + spec_u64_field(2, h.num_readonly_signed_accounts as u64)
        + spec_u64_field(3, h.num_readonly_unsigned_accounts as u64)
}

impl NestedMessage for MessageHeader {
    open spec fn spec_body(&self) -> Seq<u8> {
        spec_header(*self)
    }

    fn encode_body(&self) -> (v: Vec<u8>) {
        let mut v: Vec<u8> = Vec::new();
        encode_u64_field(1, self.num_required_signatures as u64, &mut v);
        encode_u64_field(2, self.num_readonly_signed_accounts as u64, &mut v);
        encode_u64_field(3, self.num_readonly_unsigned_accounts as u64, &mut v);
        proof {
            assert(v@ =~= spec_header(*self));
        }
        v
    }
}

/// An instruction of a message: the index of its program among the
/// message's accounts, the indices of its accounts, and its data.
#[derive(Debug, Clone)]
pub struct CompiledInstruction {
    pub program_id_index: u8,
    pub accounts: Vec<u8>,
    pub data: Vec<u8>,
}

/// The fields of an instruction, each left out when zero or empty.
pub open spec fn spec_compiled_instruction(c: CompiledInstruction) -> Seq<u8> {
    spec_u64_field(1, c.program_id_index as u64) + spec_nonempty_bytes_field(2, c.accounts@)
        + spec_nonempty_bytes_field(3, c.data@)
}

impl NestedMessage for CompiledInstruction {
    open spec fn spec_body(&self) -> Seq<u8> {
        spec_compiled_instruction(*self)
    }

    fn encode_body(&self) -> (v: Vec<u8>) {
        let mut v: Vec<u8> = Vec::new();
        encode_u64_field(1, self.program_id_index as u64, &mut v);
        encode_nonempty_bytes_field(2, self.accounts.as_slice(), &mut v);
        encode_nonempty_bytes_field(3, self.data.as_slice(), &mut v);
        proof {
            assert(v@ =~= spec_compiled_instruction(*self));
        }
        v
    }
}

/// An address table a versioned message loads accounts from: the table's
/// key and the indices of the writable and read-only accounts it loads.
#[derive(Debug, Clone)]
pub struct MessageAddressTableLookup {
    pub account_key: Vec<u8>,
    pub writable_indexes: Vec<u8>,
    pub readonly_indexes: Vec<u8>,
}

/// The fields of an address table lookup: the key always, the index lists
/// when not empty.
pub open spec fn spec_lookup(l: MessageAddressTableLookup) -> Seq<u8> {
    spec_bytes_field(1, l.account_key@) + spec_nonempty_bytes_field(2, l.writable_indexes@)
        + spec_nonempty_bytes_field(3, l.readonly_indexes@)
}

impl NestedMessage for MessageAddressTableLookup {
    open spec fn spec_body(&self) -> Seq<u8> {
        spec_lookup(*self)
    }

    fn encode_body(&self) -> (v: Vec<u8>) {
        let mut v: Vec<u8> = Vec::new();
        bytes_encode(1, self.account_key.as_slice(), &mut v);
        encode_nonempty_bytes_field(2, self.writable_indexes.as_slice(), &mut v);
        encode_nonempty_bytes_field(3, self.readonly_indexes.as_slice(), &mut v);
        proof {
            assert(v@ =~= spec_lookup(*self));
        }
        v
    }
}

/// The parts every message has: header, account keys, recent blockhash and
/// instructions.
#[derive(Debug, Clone)]
pub struct LegacyMessage {
    pub header: MessageHeader,
    pub account_keys: Vec<Vec<u8>>,
    pub recent_blockhash: Vec<u8>,
    pub instructions: Vec<CompiledInstruction>,
}

/// A message as the runtime sanitized it: a legacy message, or a versioned
/// one that also loads accounts from address tables.
#[derive(Debug, Clone)]
pub enum SanitizedMessage {
    Legacy(LegacyMessage),
    V0 { message: LegacyMessage, address_table_lookups: Vec<MessageAddressTableLookup> },
}

/// The fields of a message: header, keys, blockhash, instructions, `true`
/// in field 5 when versioned, then the address table lookups.
pub open spec fn spec_message_parts(
    m: LegacyMessage,
    versioned: bool,
    lookups: Seq<MessageAddressTableLookup>,
) -> Seq<u8> {
    spec_bytes_field(1, spec_header(m.header)) + spec_repeated(2, byte_views(m.account_keys@)) + spec_bytes_field(
        3,
        m.recent_blockhash@,
    ) + spec_repeated(4, bodies(m.instructions@)) + (if versioned {
        spec_bool_field(5, true)
    } else {
        Seq::empty()
    }) + spec_repeated(6, bodies(lookups))
}

/// The fields of a sanitized message; a legacy message has no lookups.
pub open spec fn spec_sanitized_message(m: SanitizedMessage) -> Seq<u8> {
    match m {
        SanitizedMessage::Legacy(l) => spec_message_parts(l, false, Seq::empty()),
        SanitizedMessage::V0 { message, address_table_lookups } => spec_message_parts(
            message,
            true,
            address_table_lookups@,
        ),
    }
}

/// Encodes the fields of a message.
fn encode_message_parts(m: &LegacyMessage, versioned: bool, lookups: &Vec<MessageAddressTableLookup>) -> (v: Vec<u8>)
    requires
        fits(spec_message_parts(*m, versioned, lookups@)),
    ensures
        v@ == spec_message_parts(*m, versioned, lookups@),
{
    let mut v: Vec<u8> = Vec::new();
    let h = m.header.encode_body();
    bytes_encode(1, h.as_slice(), &mut v);
    encode_repeated_bytes(2, &m.account_keys, &mut v);
    bytes_encode(3, m.recent_blockhash.as_slice(), &mut v);
    encode_repeated_messages(4, &m.instructions, &mut v);
    if versioned {
        encode_bool(5, true, &mut v);
    }
    encode_repeated_messages(6, lookups, &mut v);
    proof {
        assert(v@ =~= spec_message_parts(*m, versioned, lookups@));
    }
    v
}

impl NestedMessage for SanitizedMessage {
    open spec fn spec_body(&self) -> Seq<u8> {
        spec_sanitized_message(*self)
    }

    fn encode_body(&self) -> (v: Vec<u8>) {
        match self {
            SanitizedMessage::Legacy(l) => {
                let none: Vec<MessageAddressTableLookup> = Vec::new();
                proof {
                    assert(none@ =~= Seq::<MessageAddressTableLookup>::empty());
                }
                encode_message_parts(l, false, &none)
            },
            SanitizedMessage::V0 { message, address_table_lookups } => encode_message_parts(
                message,
                true,
                address_table_lookups,
            ),
        }
    }
}

/// A transaction as the runtime sanitized it: its signatures and message.
#[derive(Debug, Clone)]
pub struct SanitizedTransaction {
    pub signatures: Vec<Vec<u8>>,
    pub message: SanitizedMessage,
}

/// The fields of a transaction: each signature, then the message.
pub open spec fn spec_sanitized_transaction(t: SanitizedTransaction) -> Seq<u8> {
    spec_repeated(1, byte_views(t.signatures@)) + spec_bytes_field(2, spec_sanitized_message(t.message))
}

impl NestedMessage for SanitizedTransaction {
    open spec fn spec_body(&self) -> Seq<u8> {
        spec_sanitized_transaction(*self)
    }

    fn encode_body(&self) -> (v: Vec<u8>) {
        let mut v: Vec<u8> = Vec::new();
        encode_repeated_bytes(1, &self.signatures, &mut v);
        let m = self.message.encode_body();
        bytes_encode(2, m.as_slice(), &mut v);
        proof {
            assert(v@ =~= spec_sanitized_transaction(*self));
        }
        v
    }
}

/// An instruction a program invoked while the transaction ran, with the
/// depth of the invocation when known.
#[derive(Debug, Clone)]
pub struct InnerInstruction {
    pub instruction: CompiledInstruction,
    pub stack_height: Option<u32>,
}

/// The fields of an inner instruction: those of its instruction, then the
/// stack height when known.
pub open spec fn spec_inner_instruction(i: InnerInstruction) -> Seq<u8> {
    spec_compiled_instruction(i.instruction) + spec_opt_u64_field(
        4,
        match i.stack_height {
            Some(h) => Some(h as u64),
            None => None,
        },
    )
}

impl NestedMessage for InnerInstruction {
    open spec fn spec_body(&self) -> Seq<u8> {
        spec_inner_instruction(*self)
    }

    fn encode_body(&self) -> (v: Vec<u8>) {
        let mut v = self.instruction.encode_body();
        let h: Option<u64> = match self.stack_height {
            Some(h) => Some(h as u64),
            None => None,
        };
        encode_opt_u64_field(4, h, &mut v);
        v
    }
}

/// The inner instructions of one instruction of the transaction, by its
/// index.
#[derive(Debug, Clone)]
pub struct InnerInstructions {
    pub index: u8,
    pub instructions: Vec<InnerInstruction>,
}

/// The fields of a group of inner instructions.
pub open spec fn spec_inner_instructions(i: InnerInstructions) -> Seq<u8> {
    spec_u64_field(1, i.index as u64) + spec_repeated(2, bodies(i.instructions@))
}

impl NestedMessage for InnerInstructions {
    open spec fn spec_body(&self) -> Seq<u8> {
        spec_inner_instructions(*self)
    }

    fn encode_body(&self) -> (v: Vec<u8>) {
        let mut v: Vec<u8> = Vec::new();
        encode_u64_field(1, self.index as u64, &mut v);
        encode_repeated_messages(2, &self.instructions, &mut v);
        proof {
            assert(v@ =~= spec_inner_instructions(*self));
        }
        v
    }
}

/// A token amount: the UI amount as the bits of a 64-bit float (absent
/// counts as zero), the decimals, the raw amount and the UI amount as text.
#[derive(Debug, Clone)]
pub struct UiTokenAmount {
    pub ui_amount: Option<u64>,
    pub decimals: u8,
    pub amount: String,
    pub ui_amount_string: String,
}

/// The fields of a token amount; the float is left out when it is zero of
/// either sign.
pub open spec fn spec_ui_token_amount(a: UiTokenAmount) -> Seq<u8> {
    let bits: u64 = match a.ui_amount {
        Some(b) => b,
        None => 0,
    };
    (if float_nonzero(bits) {
        spec_fixed64_field(1, bits)
    } else {
        Seq::empty()
    }) + spec_u64_field(2, a.decimals as u64) + spec_nonempty_bytes_field(3, utf8(a.amount@))
        + spec_nonempty_bytes_field(4, utf8(a.ui_amount_string@))
}

impl NestedMessage for UiTokenAmount {
    open spec fn spec_body(&self) -> Seq<u8> {
        spec_ui_token_amount(*self)
    }

    fn encode_body(&self) -> (v: Vec<u8>) {
        let mut v: Vec<u8> = Vec::new();
        let bits: u64 = match self.ui_amount {
            Some(b) => b,
            None => 0,
        };
        if bits & 0x7fff_ffff_ffff_ffff != 0 {
            encode_fixed64(1, bits, &mut v);
        }
        encode_u64_field(2, self.decimals as u64, &mut v);
        let amount = self.amount.as_str().as_bytes();
        let text = self.ui_amount_string.as_str().as_bytes();
        proof {
            lemma_nonempty_field_covers(3, amount@);
            lemma_nonempty_field_covers(4, text@);
            let head = (if float_nonzero(bits) {
                spec_fixed64_field(1, bits)
            } else {
                Seq::empty()
            }) + spec_u64_field(2, self.decimals as u64);
            assert(v@ =~= head);
            assert(spec_ui_token_amount(*self) =~= head + spec_nonempty_bytes_field(3, amount@)
                + spec_nonempty_bytes_field(4, text@));
            assert(fits(self.spec_body()));
            assert(spec_ui_token_amount(*self).len() <= usize::MAX / 2);
            assert(v@.len() + amount@.len() + 20 <= usize::MAX);
        }
        encode_nonempty_bytes_field(3, amount, &mut v);
        encode_nonempty_bytes_field(4, text, &mut v);
        proof {
            assert(v@ =~= spec_ui_token_amount(*self));
        }
        v
    }
}

/// A token balance of an account of the transaction.
#[derive(Debug, Clone)]
pub struct TransactionTokenBalance {
    pub account_index: u8,
    pub mint: String,
    pub ui_token_amount: UiTokenAmount,
    pub owner: String,
    pub program_id: String,
}

/// The fields of a token balance; the amount is always present.
pub open spec fn spec_token_balance(b: TransactionTokenBalance) -> Seq<u8> {
    spec_u64_field(1, b.account_index as u64) + spec_nonempty_bytes_field(2, utf8(b.mint@)) + spec_bytes_field(
        3,
        spec_ui_token_amount(b.ui_token_amount),
    ) + spec_nonempty_bytes_field(4, utf8(b.owner@)) + spec_nonempty_bytes_field(5, utf8(b.program_id@))
}

impl NestedMessage for TransactionTokenBalance {
    open spec fn spec_body(&self) -> Seq<u8> {
        spec_token_balance(*self)
    }

    fn encode_body(&self) -> (v: Vec<u8>) {
        let mut v: Vec<u8> = Vec::new();
        encode_u64_field(1, self.account_index as u64, &mut v);
        encode_nonempty_bytes_field(2, self.mint.as_str().as_bytes(), &mut v);
        let a = self.ui_token_amount.encode_body();
        bytes_encode(3, a.as_slice(), &mut v);
        encode_nonempty_bytes_field(4, self.owner.as_str().as_bytes(), &mut v);
        encode_nonempty_bytes_field(5, self.program_id.as_str().as_bytes(), &mut v);
        proof {
            assert(v@ =~= spec_token_balance(*self));
        }
        v
    }
}

impl NestedMessage for Reward {
    open spec fn spec_body(&self) -> Seq<u8> {
        spec_reward(*self)
    }

    fn encode_body(&self) -> (v: Vec<u8>) {
        proof {
            crate::encoding::lemma_nonempty_bytes_field_len(1, utf8(self.pubkey@));
        }
        self.encode_fields()
    }
}

/// What the transaction's program returned: the program and the data.
#[derive(Debug, Clone)]
pub struct TransactionReturnData {
    pub program_id: Vec<u8>,
    pub data: Vec<u8>,
}

/// The fields of return data: the program always, the data when not empty.
pub open spec fn spec_return_data(r: TransactionReturnData) -> Seq<u8> {
    spec_bytes_field(1, r.program_id@) + spec_nonempty_bytes_field(2, r.data@)
}

impl NestedMessage for TransactionReturnData {
    open spec fn spec_body(&self) -> Seq<u8> {
        spec_return_data(*self)
    }

    fn encode_body(&self) -> (v: Vec<u8>) {
        let mut v: Vec<u8> = Vec::new();
        bytes_encode(1, self.program_id.as_slice(), &mut v);
        encode_nonempty_bytes_field(2, self.data.as_slice(), &mut v);
        proof {
            assert(v@ =~= spec_return_data(*self));
        }
        v
    }
}

/// Accounts a versioned transaction loaded from address tables.
#[derive(Debug, Clone)]
pub struct LoadedAddresses {
    pub writable: Vec<Vec<u8>>,
    pub readonly: Vec<Vec<u8>>,
}

/// The status metadata of an executed transaction.
#[derive(Debug, Clone)]
pub struct TransactionStatusMeta {
    /// The error the transaction failed with, as the bytes the wire carries
    /// for it; `None` when it succeeded.
    pub error: Option<Vec<u8>>,
    pub fee: u64,
    pub pre_balances: Vec<u64>,
    pub post_balances: Vec<u64>,
    pub inner_instructions: Option<Vec<InnerInstructions>>,
    pub log_messages: Option<Vec<String>>,
    pub pre_token_balances: Option<Vec<TransactionTokenBalance>>,
    pub post_token_balances: Option<Vec<TransactionTokenBalance>>,
    pub rewards: Option<Vec<Reward>>,
    pub loaded_addresses: LoadedAddresses,
    pub return_data: Option<TransactionReturnData>,
    pub compute_units_consumed: Option<u64>,
}

/// The error of a failed transaction: a message holding its bytes (left out
/// when empty).
pub open spec fn spec_error(e: Option<Vec<u8>>) -> Seq<u8> {
    match e {
        Some(b) => spec_bytes_field(1, spec_nonempty_bytes_field(1, b@)),
        None => Seq::empty(),
    }
}

/// A repeated field of messages when the list is known.
pub open spec fn spec_opt_repeated<T: NestedMessage>(tag: u32, items: Option<Vec<T>>) -> Seq<u8> {
    match items {
        Some(v) => spec_repeated(tag, bodies(v@)),
        None => Seq::empty(),
    }
}

/// `true` in field `tag` when `set` holds.
pub open spec fn spec_true_flag(tag: u32, set: bool) -> Seq<u8> {
    if set {
        spec_bool_field(tag, true)
    } else {
        Seq::empty()
    }
}

/// The first fields of the metadata: error, fee, balances before and after.
pub open spec fn spec_meta_head(m: TransactionStatusMeta) -> Seq<u8> {
    spec_error(m.error) + spec_u64_field(2, m.fee) + spec_packed(3, m.pre_balances@) + spec_packed(
        4,
        m.post_balances@,
    )
}

/// The lists of the metadata: inner instructions, logs, token balances
/// before and after, rewards; each when known.
pub open spec fn spec_meta_lists(m: TransactionStatusMeta) -> Seq<u8> {
    spec_opt_repeated(5, m.inner_instructions) + match m.log_messages {
        Some(l) => spec_repeated(6, string_views(l@)),
        None => Seq::empty(),
    } + spec_opt_repeated(7, m.pre_token_balances) + spec_opt_repeated(8, m.post_token_balances)
        + spec_opt_repeated(9, m.rewards)
}

/// The last fields of the metadata: which lists are unknown, the loaded
/// addresses, the return data (or `true` in field 15 when there is none)
/// and the compute units when known.
pub open spec fn spec_meta_tail(m: TransactionStatusMeta) -> Seq<u8> {
    spec_true_flag(10, m.inner_instructions is None) + spec_true_flag(11, m.log_messages is None)
        + spec_repeated(12, byte_views(m.loaded_addresses.writable@)) + spec_repeated(
        13,
        byte_views(m.loaded_addresses.readonly@),
    ) + match m.return_data {
        Some(r) => spec_bytes_field(14, spec_return_data(r)),
        None => spec_bool_field(15, true),
    } + spec_opt_u64_field(16, m.compute_units_consumed)
}

/// The fields of a transaction's status metadata.
pub open spec fn spec_status_meta(m: TransactionStatusMeta) -> Seq<u8> {
    spec_meta_head(m) + spec_meta_lists(m) + spec_meta_tail(m)
}

/// Appends a repeated field of messages when the list is known.
fn encode_opt_repeated<T: NestedMessage>(tag: u32, items: &Option<Vec<T>>, buf: &mut Vec<u8>)
    requires
        valid_tag(tag),
        old(buf)@.len() + spec_opt_repeated(tag, *items).len() <= usize::MAX / 2,
    ensures
        final(buf)@ == old(buf)@ + spec_opt_repeated(tag, *items),
{
    match items {
        Some(v) => encode_repeated_messages(tag, v, buf),
        None => {
            assert(buf@ =~= old(buf)@ + spec_opt_repeated(tag, *items));
        },
    }
}

impl TransactionStatusMeta {
    /// Appends the first fields of the metadata.
    fn encode_head(&self, buf: &mut Vec<u8>)
        requires
            old(buf)@.len() + spec_meta_head(*self).len() <= usize::MAX / 2,
        ensures
            final(buf)@ == old(buf)@ + spec_meta_head(*self),
    {
        let ghost start = buf@;
        match &self.error {
            Some(e) => {
                let mut inner: Vec<u8> = Vec::new();
                encode_nonempty_bytes_field(1, e.as_slice(), &mut inner);
                bytes_encode(1, inner.as_slice(), buf);
            },
            None => {},
        }
        proof {
            assert(buf@ =~= start + spec_error(self.error));
        }
        encode_u64_field(2, self.fee, buf);
        encode_packed(3, &self.pre_balances, buf);
        encode_packed(4, &self.post_balances, buf);
        proof {
            assert(buf@ =~= start + spec_meta_head(*self));
        }
    }

    /// Appends the lists of the metadata.
    fn encode_lists(&self, buf: &mut Vec<u8>)
        requires
            old(buf)@.len() + spec_meta_lists(*self).len() <= usize::MAX / 2,
        ensures
            final(buf)@ == old(buf)@ + spec_meta_lists(*self),
    {
        let ghost start = buf@;
        encode_opt_repeated(5, &self.inner_instructions, buf);
        match &self.log_messages {
            Some(l) => encode_repeated_strings(6, l, buf),
            None => {},
        }
        proof {
            assert(buf@ =~= start + spec_opt_repeated(5, self.inner_instructions) + match self.log_messages {
                Some(l) => spec_repeated(6, string_views(l@)),
                None => Seq::empty(),
            });
        }
        encode_opt_repeated(7, &self.pre_token_balances, buf);
        encode_opt_repeated(8, &self.post_token_balances, buf);
        encode_opt_repeated(9, &self.rewards, buf);
        proof {
            assert(buf@ =~= start + spec_meta_lists(*self));
        }
    }

    /// Appends the last fields of the metadata.
    fn encode_tail(&self, buf: &mut Vec<u8>)
        requires
            old(buf)@.len() + spec_meta_tail(*self).len() <= usize::MAX / 2,
        ensures
            final(buf)@ == old(buf)@ + spec_meta_tail(*self),
    {
        let ghost start = buf@;
        if self.inner_instructions.is_none() {
            encode_bool(10, true, buf);
        }
        if self.log_messages.is_none() {
            encode_bool(11, true, buf);
        }
        proof {
            assert(buf@ =~= start + spec_true_flag(10, self.inner_instructions is None) + spec_true_flag(
                11,
                self.log_messages is None,
            ));
        }
        encode_repeated_bytes(12, &self.loaded_addresses.writable, buf);
        encode_repeated_bytes(13, &self.loaded_addresses.readonly, buf);
        match &self.return_data {
            Some(r) => {
                let d = r.encode_body();
                bytes_encode(14, d.as_slice(), buf);
            },
            None => {
                encode_bool(15, true, buf);
            },
        }
        encode_opt_u64_field(16, self.compute_units_consumed, buf);
        proof {
            assert(buf@ =~= start + spec_meta_tail(*self));
        }
    }
}

impl NestedMessage for TransactionStatusMeta {
    open spec fn spec_body(&self) -> Seq<u8> {
        spec_status_meta(*self)
    }

    fn encode_body(&self) -> (v: Vec<u8>) {
        let mut v: Vec<u8> = Vec::new();
        self.encode_head(&mut v);
        self.encode_lists(&mut v);
        self.encode_tail(&mut v);
        proof {
            assert(v@ =~= spec_status_meta(*self));
        }
        v
    }
}

/// A transaction notification: the first signature, whether it is a vote,
/// the transaction, its status metadata and its index in the block.
#[derive(Debug, Clone)]
pub struct ReplicaTransactionInfo {
    pub signature: Vec<u8>,
    pub is_vote: bool,
    pub transaction: SanitizedTransaction,
    pub transaction_status_meta: TransactionStatusMeta,
    pub index: usize,
}

/// The fields of a transaction notification.
pub open spec fn spec_transaction_info(t: ReplicaTransactionInfo) -> Seq<u8> {
    spec_bytes_field(1, t.signature@) + spec_true_flag(2, t.is_vote) + spec_bytes_field(
        3,
        spec_sanitized_transaction(t.transaction),
    ) + spec_bytes_field(4, spec_status_meta(t.transaction_status_meta)) + spec_u64_field(5, t.index as u64)
}

impl NestedMessage for ReplicaTransactionInfo {
    open spec fn spec_body(&self) -> Seq<u8> {
        spec_transaction_info(*self)
    }

    fn encode_body(&self) -> (v: Vec<u8>) {
        let mut v: Vec<u8> = Vec::new();
        bytes_encode(1, self.signature.as_slice(), &mut v);
        if self.is_vote {
            encode_bool(2, true, &mut v);
        }
        let t = self.transaction.encode_body();
        bytes_encode(3, t.as_slice(), &mut v);
        let m = self.transaction_status_meta.encode_body();
        bytes_encode(4, m.as_slice(), &mut v);
        encode_u64_field(5, self.index as u64, &mut v);
        proof {
            assert(v@ =~= spec_transaction_info(*self));
        }
        v
    }
}

/// The fields of a transaction update: the notification, then the slot
/// when not zero.
pub open spec fn spec_transaction(slot: u64, t: ReplicaTransactionInfo) -> Seq<u8> {
    spec_bytes_field(1, spec_transaction_info(t)) + spec_u64_field(2, slot)
}

/// The encoded fields of a transaction update.
pub fn encode_transaction(slot: u64, transaction: &ReplicaTransactionInfo) -> (v: Vec<u8>)
    requires
        fits(spec_transaction(slot, *transaction)),
    ensures
        v@ == spec_transaction(slot, *transaction),
{
    let info = transaction.encode_body();
    let mut v: Vec<u8> = Vec::new();
    bytes_encode(1, info.as_slice(), &mut v);
    encode_u64_field(2, slot, &mut v);
    proof {
        assert(v@ =~= spec_transaction(slot, *transaction));
    }
    v
}

} // verus!
