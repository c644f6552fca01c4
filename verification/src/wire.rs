//! Protobuf wire format: base-128 varints, field keys and the field shapes
//! (varint, length-delimited) that the raw message encoders are built from.
use vstd::prelude::*;

verus! {

/// Wire type of varint fields.
pub const WIRE_VARINT: u64 = 0;

/// Wire type of length-delimited fields.
pub const WIRE_LEN: u64 = 2;

/// Smallest field number protobuf accepts.
pub const MIN_TAG: u32 = 1;

/// Largest field number protobuf accepts.
pub const MAX_TAG: u32 = 536_870_911;

/// Base-128 little-endian encoding of `v`: seven bits per byte, the high bit
/// set on every byte but the last.
pub open spec fn spec_varint(v: u64) -> Seq<u8>
    decreases v,
{
    if v < 128 {
        seq![v as u8]
    } else {
        seq![(v % 128 + 128) as u8] + spec_varint(v / 128)
    }
}

/// A field number is valid when it lies in `[MIN_TAG, MAX_TAG]`.
pub open spec fn valid_tag(tag: u32) -> bool {
    MIN_TAG <= tag <= MAX_TAG
}

/// The key of a field: the varint of `tag << 3 | wire_type`.
pub open spec fn spec_key(tag: u32, wire_type: u64) -> Seq<u8> {
    spec_varint((tag * 8 + wire_type) as u64)
}

/// A varint field: key, then the value.
pub open spec fn spec_uint64_field(tag: u32, v: u64) -> Seq<u8> {
    spec_key(tag, WIRE_VARINT) + spec_varint(v)
}

/// A `bool` field: key, then `1` or `0`.
pub open spec fn spec_bool_field(tag: u32, b: bool) -> Seq<u8> {
    spec_uint64_field(tag, if b { 1 } else { 0 })
}

/// A length-delimited field: key, the length of the payload, the payload.
pub open spec fn spec_bytes_field(tag: u32, value: Seq<u8>) -> Seq<u8> {
    spec_key(tag, WIRE_LEN) + spec_varint(value.len() as u64) + value
}

/// The sign-extended two's complement of an `int64`/`int32` value, as sent on
/// the wire.
pub open spec fn spec_i64_bits(v: i64) -> u64 {
    if v >= 0 {
        v as u64
    } else {
        (v + 0x1_0000_0000_0000_0000int) as u64
    }
}

/// Length of a varint: one byte per started group of seven bits.
pub open spec fn spec_varint_len(v: u64) -> nat
    decreases v,
{
    if v < 128 {
        1
    } else {
        1 + spec_varint_len(v / 128)
    }
}

/// The length of the varint encoding is `spec_varint_len`, between 1 and 10.
pub proof fn lemma_varint_len(v: u64)
    ensures
        spec_varint(v).len() == spec_varint_len(v),
        1 <= spec_varint_len(v) <= 10,
        v < 128 ==> spec_varint_len(v) == 1,
        v < 0x4000 ==> spec_varint_len(v) <= 2,
        v < 0x20_0000 ==> spec_varint_len(v) <= 3,
        v < 0x1000_0000 ==> spec_varint_len(v) <= 4,
        v < 0x8_0000_0000 ==> spec_varint_len(v) <= 5,
        v < 0x400_0000_0000 ==> spec_varint_len(v) <= 6,
        v < 0x2_0000_0000_0000 ==> spec_varint_len(v) <= 7,
        v < 0x100_0000_0000_0000 ==> spec_varint_len(v) <= 8,
        v < 0x8000_0000_0000_0000 ==> spec_varint_len(v) <= 9,
    decreases v,
{
    if v >= 128 {
        lemma_varint_len(v / 128);
    }
}

/// Appends the varint encoding of `value` to `buf`.
pub fn encode_varint(value: u64, buf: &mut Vec<u8>)
    requires
        old(buf)@.len() + 10 <= usize::MAX,
    ensures
        final(buf)@ == old(buf)@ + spec_varint(value),
        spec_varint(value).len() <= 10,
{
    let mut v = value;
    proof {
        lemma_varint_len(value);
    }
    while v >= 128
        invariant
            buf@ + spec_varint(v) == old(buf)@ + spec_varint(value),
            buf@.len() + spec_varint_len(v) == old(buf)@.len() + spec_varint_len(value),
            old(buf)@.len() + 10 <= usize::MAX,
            spec_varint_len(value) <= 10,
        decreases v,
    {
        let ghost prev = buf@;
        buf.push((v % 128 + 128) as u8);
        proof {
            assert(buf@ + spec_varint(v / 128) == prev + spec_varint(v));
        }
        v = v / 128;
    }
    buf.push(v as u8);
}

/// Number of bytes of the varint encoding of `value`.
pub fn encoded_len_varint(value: u64) -> (n: usize)
    ensures
        n == spec_varint(value).len(),
        1 <= n <= 10,
{
    proof {
        lemma_varint_len(value);
    }
    let mut v = value;
    let mut n: usize = 1;
    while v >= 128
        invariant
            n + spec_varint_len(v) == 1 + spec_varint_len(value),
            spec_varint_len(value) <= 10,
            1 <= n,
        decreases v,
    {
        v = v / 128;
        n = n + 1;
    }
    n
}

/// Appends the key of field `tag` with wire type `wire_type`.
pub fn encode_key(tag: u32, wire_type: u64, buf: &mut Vec<u8>)
    requires
        valid_tag(tag),
        wire_type < 8,
        old(buf)@.len() + 10 <= usize::MAX,
    ensures
        final(buf)@ == old(buf)@ + spec_key(tag, wire_type),
        spec_key(tag, wire_type).len() <= 5,
{
    proof {
        lemma_varint_len((tag * 8 + wire_type) as u64);
    }
    let key: u64 = (tag as u64) * 8 + wire_type;
    encode_varint(key, buf);
}

/// Number of bytes of a field key (the wire type does not change it).
pub fn key_len(tag: u32) -> (n: usize)
    requires
        valid_tag(tag),
    ensures
        n == spec_key(tag, WIRE_VARINT).len(),
        n == spec_key(tag, WIRE_LEN).len(),
        1 <= n <= 5,
{
    let n = encoded_len_varint((tag as u64) * 8);
    proof {
        lemma_key_len(tag);
    }
    n
}

/// The wire type never changes the length of a key.
pub proof fn lemma_key_len(tag: u32)
    requires
        valid_tag(tag),
    ensures
        spec_key(tag, WIRE_VARINT).len() == spec_varint((tag * 8) as u64).len(),
        spec_key(tag, WIRE_LEN).len() == spec_varint((tag * 8) as u64).len(),
        spec_key(tag, WIRE_LEN).len() <= 5,
{
    lemma_varint_same_len((tag * 8) as u64, (tag * 8 + 2) as u64);
    lemma_varint_len((tag * 8) as u64);
    lemma_varint_len((tag * 8 + 2) as u64);
}

/// Adding less than eight to a multiple of eight does not change how many
/// groups of seven bits a value needs.
proof fn lemma_varint_same_len(a: u64, b: u64)
    requires
        a % 8 == 0,
        a <= b < a + 8,
    ensures
        spec_varint_len(a) == spec_varint_len(b),
{
    assert(b / 128 == a / 128 && (a < 128 <==> b < 128)) by (bit_vector)
        requires
            a % 8 == 0,
            a <= b,
            b < a + 8,
    ;
}

/// Appends a varint field.
pub fn encode_uint64(tag: u32, value: u64, buf: &mut Vec<u8>)
    requires
        valid_tag(tag),
        old(buf)@.len() + 20 <= usize::MAX,
    ensures
        final(buf)@ == old(buf)@ + spec_uint64_field(tag, value),
{
    encode_key(tag, WIRE_VARINT, buf);
    encode_varint(value, buf);
    proof {
        assert(final(buf)@ =~= old(buf)@ + spec_uint64_field(tag, value));
    }
}

/// Appends a `bool` field.
pub fn encode_bool(tag: u32, value: bool, buf: &mut Vec<u8>)
    requires
        valid_tag(tag),
        old(buf)@.len() + 20 <= usize::MAX,
    ensures
        final(buf)@ == old(buf)@ + spec_bool_field(tag, value),
{
    encode_uint64(tag, if value { 1 } else { 0 }, buf);
}

/// Number of bytes of a varint field.
pub fn uint64_encoded_len(tag: u32, value: u64) -> (n: usize)
    requires
        valid_tag(tag),
    ensures
        n == spec_uint64_field(tag, value).len(),
        n <= 15,
{
    key_len(tag) + encoded_len_varint(value)
}

/// Number of bytes of a `bool` field.
pub fn bool_encoded_len(tag: u32, value: bool) -> (n: usize)
    requires
        valid_tag(tag),
    ensures
        n == spec_bool_field(tag, value).len(),
        n <= 15,
{
    uint64_encoded_len(tag, if value { 1 } else { 0 })
}

/// Appends a length-delimited field holding `value`.
pub fn bytes_encode(tag: u32, value: &[u8], buf: &mut Vec<u8>)
    requires
        valid_tag(tag),
        old(buf)@.len() + value@.len() + 20 <= usize::MAX,
    ensures
        final(buf)@ == old(buf)@ + spec_bytes_field(tag, value@),
{
    encode_key(tag, WIRE_LEN, buf);
    encode_varint(value.len() as u64, buf);
    let ghost before = buf@;
    let mut i: usize = 0;
    while i < value.len()
        invariant
            i <= value@.len(),
            buf@ == before + value@.subrange(0, i as int),
            before.len() + value@.len() <= usize::MAX,
        decreases value@.len() - i,
    {
        buf.push(value[i]);
        proof {
            assert(value@.subrange(0, i + 1) =~= value@.subrange(0, i as int).push(value@[i as int]));
        }
        i = i + 1;
    }
    proof {
        assert(value@.subrange(0, value@.len() as int) =~= value@);
        assert(final(buf)@ =~= old(buf)@ + spec_bytes_field(tag, value@));
    }
}

/// Number of bytes of a length-delimited field holding `len` bytes.
pub fn bytes_encoded_len(tag: u32, len: usize) -> (n: usize)
    requires
        valid_tag(tag),
        len + 15 <= usize::MAX,
    ensures
        forall|v: Seq<u8>| v.len() == len ==> n == #[trigger] spec_bytes_field(tag, v).len(),
        n == len + spec_key(tag, WIRE_LEN).len() + spec_varint(len as u64).len(),
{
    proof {
        lemma_key_len(tag);
    }
    key_len(tag) + encoded_len_varint(len as u64) + len
}

} // verus!
