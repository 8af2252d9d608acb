use vimdow::neovim::codec::{decode, encode, DecodeError};
use vimdow::neovim::value::TaggedValue;

fn round_trip(v: TaggedValue) {
    let bytes = encode(&v);
    let expected = bytes.clone();
    let (back, used) = decode(&bytes).expect("decode of an encoding must succeed");
    assert_eq!(used, bytes.len());
    assert_eq!(encode(&back), expected);
}

#[test]
fn nil_encodes_to_the_nil_tag() {
    assert_eq!(encode(&TaggedValue::Nil), vec![0xc0]);
}

#[test]
fn booleans_have_their_own_tags() {
    assert_eq!(encode(&TaggedValue::Bool(false)), vec![0xc2]);
    assert_eq!(encode(&TaggedValue::Bool(true)), vec![0xc3]);
}

#[test]
fn small_ints_are_single_bytes() {
    assert_eq!(encode(&TaggedValue::Int(0)), vec![0x00]);
    assert_eq!(encode(&TaggedValue::Int(1)), vec![0x01]);
    assert_eq!(encode(&TaggedValue::Int(127)), vec![0x7f]);
    assert_eq!(encode(&TaggedValue::Int(-1)), vec![0xff]);
    assert_eq!(encode(&TaggedValue::Int(-32)), vec![0xe0]);
}

#[test]
fn wider_ints_use_the_shortest_form() {
    assert_eq!(encode(&TaggedValue::Int(128)), vec![0xcc, 0x80]);
    assert_eq!(encode(&TaggedValue::Int(256)), vec![0xcd, 0x01, 0x00]);
    assert_eq!(encode(&TaggedValue::Int(65536)), vec![0xce, 0x00, 0x01, 0x00, 0x00]);
    assert_eq!(encode(&TaggedValue::Int(-33)), vec![0xd0, 0xdf]);
    assert_eq!(encode(&TaggedValue::Int(-129)), vec![0xd1, 0xff, 0x7f]);
    assert_eq!(
        encode(&TaggedValue::UInt(u64::MAX)),
        vec![0xcf, 0xff, 0xff, 0xff, 0xff, 0xff, 0xff, 0xff, 0xff]
    );
}

#[test]
fn strings_are_length_prefixed_utf8() {
    assert_eq!(
        encode(&TaggedValue::Str("abc".to_string())),
        vec![0xa3, b'a', b'b', b'c']
    );
    let long = "x".repeat(40);
    let mut expected = vec![0xd9, 40];
    expected.extend_from_slice(long.as_bytes());
    assert_eq!(encode(&TaggedValue::Str(long)), expected);
}

#[test]
fn round_trips_cover_every_variant() {
    round_trip(TaggedValue::Nil);
    round_trip(TaggedValue::Bool(true));
    round_trip(TaggedValue::Int(-7));
    round_trip(TaggedValue::Int(i64::MIN));
    round_trip(TaggedValue::Int(i64::MAX));
    round_trip(TaggedValue::UInt(u64::MAX));
    round_trip(TaggedValue::F32(1.5f32.to_bits()));
    round_trip(TaggedValue::F64(core::f64::consts::PI.to_bits()));
    round_trip(TaggedValue::Str("grüße".to_string()));
    round_trip(TaggedValue::Bin(vec![0, 1, 2, 255]));
    round_trip(TaggedValue::Array(vec![
        TaggedValue::Int(1),
        TaggedValue::Str("two".to_string()),
        TaggedValue::Array(vec![TaggedValue::Nil]),
    ]));
    round_trip(TaggedValue::Dict(vec![
        (TaggedValue::Str("k".to_string()), TaggedValue::Int(1)),
        (TaggedValue::Int(2), TaggedValue::Bool(false)),
    ]));
    round_trip(TaggedValue::Ext(1, vec![42]));
    round_trip(TaggedValue::Ext(-7, vec![1, 2, 3]));
}

#[test]
fn decode_canonicalizes_integers() {
    // A u64 that fits in i64 comes back as the signed variant.
    let bytes = encode(&TaggedValue::UInt(5));
    let (v, _) = decode(&bytes).unwrap();
    assert!(matches!(v, TaggedValue::Int(5)));
    // A u64 above the signed maximum stays unsigned.
    let bytes = encode(&TaggedValue::UInt(u64::MAX));
    let (v, _) = decode(&bytes).unwrap();
    assert!(matches!(v, TaggedValue::UInt(u64::MAX)));
}

#[test]
fn truncated_input_is_reported_truncated() {
    assert!(matches!(decode(&[]), Err(DecodeError::Truncated)));
    assert!(matches!(decode(&[0xcc]), Err(DecodeError::Truncated)));
    assert!(matches!(decode(&[0xa3, b'a']), Err(DecodeError::Truncated)));
    assert!(matches!(decode(&[0x91]), Err(DecodeError::Truncated)));
}

#[test]
fn the_reserved_tag_is_malformed() {
    assert!(matches!(decode(&[0xc1]), Err(DecodeError::Malformed)));
}

#[test]
fn invalid_utf8_in_a_string_is_malformed() {
    assert!(matches!(decode(&[0xa1, 0xff]), Err(DecodeError::Malformed)));
}

#[test]
fn decode_reports_exact_consumption_with_trailing_bytes() {
    let mut bytes = encode(&TaggedValue::Int(300));
    let n = bytes.len();
    bytes.push(0xc0);
    let (v, used) = decode(&bytes).unwrap();
    assert_eq!(used, n);
    assert!(matches!(v, TaggedValue::Int(300)));
}

#[test]
fn float_bits_survive_exactly() {
    let bytes = encode(&TaggedValue::F32(f32::NAN.to_bits()));
    let (v, _) = decode(&bytes).unwrap();
    match v {
        TaggedValue::F32(bits) => assert_eq!(bits, f32::NAN.to_bits()),
        _ => panic!("expected a 32-bit float"),
    }
}
