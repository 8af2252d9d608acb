//! The codec against the reference implementation: bytes this crate encodes
//! must decode to the same value under rmpv, and bytes rmpv encodes must
//! decode to the same value here.

use vimdow::neovim::codec::{decode, encode};
use vimdow::neovim::value::TaggedValue;

fn to_rmpv(v: &TaggedValue) -> rmpv::Value {
    match v {
        TaggedValue::Nil => rmpv::Value::Nil,
        TaggedValue::Bool(b) => rmpv::Value::Boolean(*b),
        TaggedValue::Int(i) => rmpv::Value::Integer((*i).into()),
        TaggedValue::UInt(u) => rmpv::Value::Integer((*u).into()),
        TaggedValue::F32(bits) => rmpv::Value::F32(f32::from_bits(*bits)),
        TaggedValue::F64(bits) => rmpv::Value::F64(f64::from_bits(*bits)),
        TaggedValue::Str(s) => rmpv::Value::String(s.clone().into()),
        TaggedValue::Bin(b) => rmpv::Value::Binary(b.clone()),
        TaggedValue::Array(vs) => rmpv::Value::Array(vs.iter().map(to_rmpv).collect()),
        TaggedValue::Dict(ps) => rmpv::Value::Map(
            ps.iter().map(|(k, v)| (to_rmpv(k), to_rmpv(v))).collect(),
        ),
        TaggedValue::Ext(t, d) => rmpv::Value::Ext(*t, d.clone()),
    }
}

fn samples() -> Vec<TaggedValue> {
    vec![
        TaggedValue::Nil,
        TaggedValue::Bool(true),
        TaggedValue::Bool(false),
        TaggedValue::Int(0),
        TaggedValue::Int(127),
        TaggedValue::Int(128),
        TaggedValue::Int(-1),
        TaggedValue::Int(-33),
        TaggedValue::Int(-40000),
        TaggedValue::Int(i64::MIN),
        TaggedValue::Int(i64::MAX),
        TaggedValue::UInt(u64::MAX),
        TaggedValue::F32(2.5f32.to_bits()),
        TaggedValue::F64((-0.125f64).to_bits()),
        TaggedValue::Str(String::new()),
        TaggedValue::Str("redraw".to_string()),
        TaggedValue::Str("żółć".to_string()),
        TaggedValue::Str("y".repeat(300)),
        TaggedValue::Bin(vec![9, 8, 7]),
        TaggedValue::Array(vec![
            TaggedValue::Int(2),
            TaggedValue::Str("redraw".to_string()),
            TaggedValue::Array(vec![TaggedValue::Bool(true)]),
        ]),
        TaggedValue::Dict(vec![
            (
                TaggedValue::Str("ext_linegrid".to_string()),
                TaggedValue::Bool(true),
            ),
        ]),
        TaggedValue::Ext(0, vec![0x07]),
        TaggedValue::Ext(2, vec![0xcc, 0xff]),
    ]
}

#[test]
fn rmpv_reads_this_crates_encodings() {
    for v in samples() {
        let bytes = encode(&v);
        let got = rmpv::decode::read_value(&mut bytes.as_slice())
            .expect("rmpv must accept the encoding");
        assert_eq!(got, to_rmpv(&v));
    }
}

#[test]
fn this_crate_reads_rmpv_encodings() {
    for v in samples() {
        let reference = to_rmpv(&v);
        let mut bytes = Vec::new();
        rmpv::encode::write_value(&mut bytes, &reference).unwrap();
        let (back, used) = decode(&bytes).expect("this codec must accept rmpv bytes");
        assert_eq!(used, bytes.len());
        // Compare through rmpv's value equality.
        assert_eq!(to_rmpv(&back), reference);
    }
}

#[test]
fn byte_for_byte_agreement_on_scalars() {
    for v in samples() {
        let mine = encode(&v);
        let mut theirs = Vec::new();
        rmpv::encode::write_value(&mut theirs, &to_rmpv(&v)).unwrap();
        // Both encoders pick minimal forms for these samples.
        assert_eq!(mine, theirs);
    }
}
