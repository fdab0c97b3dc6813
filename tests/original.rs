use binserde::{
    decode, encode_into, encode_text, ByteOrder, DecodeStr, EnumSchema, FieldDescriptor,
    FieldKind, Prim, RecordSchema, Scalar, Terminator, Value, Variant,
};
use bytes::BytesMut;

fn field(name: &str, kind: FieldKind) -> FieldDescriptor {
    FieldDescriptor { name: name.to_string(), kind, default: None }
}

fn enum_e() -> EnumSchema {
    EnumSchema {
        name: "E".to_string(),
        repr: Prim::U8,
        variants: vec![Variant { name: "A".to_string(), discriminant: Scalar::Unsigned(1) }],
    }
}

#[test]
fn test() {
    let mut buf = BytesMut::new();
    let s = "123456";
    encode_text(s, &mut buf, Some(&[b'\0']));
    let res = String::decode_str(&buf, &mut 0, Some(&[b'\0'])).unwrap();
    assert_eq!(s, res);
    buf.clear();
}

#[test]
fn serde_derive_encode_decode_roundtrip() {
    let schema = RecordSchema::new(vec![
        field("a", FieldKind::Bitfield(Prim::U8, 2)),
        field("b", FieldKind::Bitfield(Prim::U8, 2)),
        field("c", FieldKind::Scalar(Prim::U8)),
        field("str_", FieldKind::Text(Terminator::Delimiter(vec![b'\0']))),
        field("vec", FieldKind::Bytes(Terminator::LengthOf(2))),
    ])
    .expect("valid schema");
    let p = vec![
        Value::Scalar(Scalar::Unsigned(3)),
        Value::Scalar(Scalar::Unsigned(2)),
        Value::Scalar(Scalar::Unsigned(2)),
        Value::Text("123456".to_string()),
        Value::Bytes(vec![123, 255]),
    ];
    let mut buf = BytesMut::with_capacity(64);
    encode_into(&schema, &p, ByteOrder::Be, &mut buf).expect("encode failed");
    let mut offset = 0;
    let decoded = decode(&schema, &buf, &mut offset, ByteOrder::Be).expect("decode failed");
    assert_eq!(decoded, p);
}

#[test]
fn encode_decode_roundtrip() {
    let schema = RecordSchema::new(vec![
        field("a", FieldKind::Bitfield(Prim::U8, 2)),
        field("b", FieldKind::Bitfield(Prim::U8, 2)),
        field("c", FieldKind::Scalar(Prim::U8)),
        field("str_", FieldKind::Text(Terminator::Delimiter(vec![b'\0']))),
        field("vec", FieldKind::Bytes(Terminator::LengthOf(2))),
        field("d", FieldKind::EnumBitfield(enum_e(), 2)),
    ])
    .expect("valid schema");
    let p = vec![
        Value::Scalar(Scalar::Unsigned(3)),
        Value::Scalar(Scalar::Unsigned(1)),
        Value::Scalar(Scalar::Unsigned(2)),
        Value::Text("123456".to_string()),
        Value::Bytes(vec![123, 255]),
        Value::Variant(0),
    ];
    let mut buf = BytesMut::with_capacity(64);
    encode_into(&schema, &p, ByteOrder::Le, &mut buf).expect("encode failed");
    let mut offset = 0;
    let decoded = decode(&schema, &buf, &mut offset, ByteOrder::Le).expect("decode failed");
    assert_eq!(decoded, p);
}
