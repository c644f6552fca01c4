use richat::wire::{
    bool_encoded_len, bytes_encode, bytes_encoded_len, encode_bool, encode_key, encode_uint64,
    encode_varint, encoded_len_varint, key_len, uint64_encoded_len, WIRE_LEN, WIRE_VARINT,
};

fn prost_varint(v: u64) -> Vec<u8> {
    let mut buf = Vec::new();
    prost::encoding::encode_varint(v, &mut buf);
    buf
}

#[test]
fn varint_known_values() {
    let mut buf = Vec::new();
    encode_varint(300, &mut buf);
    assert_eq!(buf, vec![0xAC, 0x02]);
    let mut buf = Vec::new();
    encode_varint(0, &mut buf);
    assert_eq!(buf, vec![0x00]);
    let mut buf = Vec::new();
    encode_varint(u64::MAX, &mut buf);
    assert_eq!(buf.len(), 10);
    assert_eq!(buf[9], 0x01);
}

#[test]
fn varint_matches_prost() {
    for v in [0u64, 1, 127, 128, 255, 16_383, 16_384, 1 << 35, u64::MAX - 1, u64::MAX] {
        let mut buf = Vec::new();
        encode_varint(v, &mut buf);
        assert_eq!(buf, prost_varint(v));
        assert_eq!(encoded_len_varint(v), prost::encoding::encoded_len_varint(v));
    }
}

#[test]
fn varint_appends_to_existing_bytes() {
    let mut buf = vec![7u8, 9];
    encode_varint(150, &mut buf);
    assert_eq!(buf, vec![7, 9, 0x96, 0x01]);
}

#[test]
fn keys_match_prost() {
    for tag in [1u32, 15, 16, 2047, 2048, 536_870_911] {
        let mut ours = Vec::new();
        encode_key(tag, WIRE_LEN, &mut ours);
        let mut theirs = Vec::new();
        prost::encoding::encode_key(tag, prost::encoding::WireType::LengthDelimited, &mut theirs);
        assert_eq!(ours, theirs);
        assert_eq!(key_len(tag), prost::encoding::key_len(tag));
        let mut ours = Vec::new();
        encode_key(tag, WIRE_VARINT, &mut ours);
        let mut theirs = Vec::new();
        prost::encoding::encode_key(tag, prost::encoding::WireType::Varint, &mut theirs);
        assert_eq!(ours, theirs);
    }
}

#[test]
fn uint64_field_known_value() {
    let mut buf = Vec::new();
    encode_uint64(1, 150, &mut buf);
    assert_eq!(buf, vec![0x08, 0x96, 0x01]);
    assert_eq!(uint64_encoded_len(1, 150), 3);
}

#[test]
fn uint64_and_bool_fields_match_prost() {
    for (tag, v) in [(1u32, 0u64), (2, 1), (7, 300), (100, u64::MAX)] {
        let mut ours = Vec::new();
        encode_uint64(tag, v, &mut ours);
        let mut theirs = Vec::new();
        prost::encoding::uint64::encode(tag, &v, &mut theirs);
        assert_eq!(ours, theirs);
        assert_eq!(uint64_encoded_len(tag, v), ours.len());
    }
    for b in [false, true] {
        let mut ours = Vec::new();
        encode_bool(4, b, &mut ours);
        let mut theirs = Vec::new();
        prost::encoding::bool::encode(4, &b, &mut theirs);
        assert_eq!(ours, theirs);
        assert_eq!(bool_encoded_len(4, b), ours.len());
    }
}

#[test]
fn bytes_fields_match_prost() {
    for data in [vec![], vec![1u8, 2, 3], vec![0xAB; 200]] {
        let mut ours = Vec::new();
        bytes_encode(6, &data, &mut ours);
        let mut theirs = Vec::new();
        prost::encoding::bytes::encode(6, &data, &mut theirs);
        assert_eq!(ours, theirs);
        assert_eq!(bytes_encoded_len(6, data.len()), ours.len());
    }
}
