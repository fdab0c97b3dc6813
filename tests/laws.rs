use binserde::{
    decode, decode_text, encode, encode_text, ByteOrder, DecodeError, EncodeError, EnumSchema,
    FieldDescriptor, FieldKind, Prim, RecordSchema, Scalar, Terminator, Value, Variant,
};
use bytes::BytesMut;

fn field(name: &str, kind: FieldKind) -> FieldDescriptor {
    FieldDescriptor { name: name.to_string(), kind, default: None }
}

fn u(v: u128) -> Value {
    Value::Scalar(Scalar::Unsigned(v))
}

fn ab_enum() -> EnumSchema {
    EnumSchema {
        name: "AB".to_string(),
        repr: Prim::U8,
        variants: vec![
            Variant { name: "A".to_string(), discriminant: Scalar::Unsigned(1) },
            Variant { name: "B".to_string(), discriminant: Scalar::Unsigned(2) },
        ],
    }
}

fn every_kind_schema() -> RecordSchema {
    RecordSchema::new(vec![
        field("flag", FieldKind::Scalar(Prim::Bool)),
        field("small", FieldKind::Scalar(Prim::I8)),
        field("word", FieldKind::Scalar(Prim::U16)),
        field("signed", FieldKind::Scalar(Prim::I32)),
        field("wide", FieldKind::Scalar(Prim::U64)),
        field("huge", FieldKind::Scalar(Prim::U128)),
        field("neg", FieldKind::Scalar(Prim::I128)),
        field("kind", FieldKind::Enum(ab_enum())),
        field("x", FieldKind::Bitfield(Prim::U8, 3)),
        field("y", FieldKind::Bitfield(Prim::Bool, 1)),
        field("z", FieldKind::EnumBitfield(ab_enum(), 2)),
        field("w", FieldKind::Bitfield(Prim::I16, 10)),
        field("count", FieldKind::Scalar(Prim::U8)),
        field("name", FieldKind::Text(Terminator::Delimiter(vec![0xFF, 0x00]))),
        field("raw", FieldKind::Bytes(Terminator::LengthOf(12))),
        field("arr", FieldKind::Array(Prim::I16, 3)),
        field("tail", FieldKind::Bytes(Terminator::Rest)),
    ])
    .expect("valid schema")
}

fn every_kind_values() -> Vec<Value> {
    vec![
        Value::Scalar(Scalar::Bool(true)),
        Value::Scalar(Scalar::Signed(-128)),
        u(0xBEEF),
        Value::Scalar(Scalar::Signed(-123456)),
        u(u64::MAX as u128),
        u(u128::MAX),
        Value::Scalar(Scalar::Signed(i128::MIN)),
        Value::Variant(1),
        u(5),
        Value::Scalar(Scalar::Bool(true)),
        Value::Variant(0),
        Value::Scalar(Scalar::Signed(1000)),
        u(3),
        Value::Text("héllo".to_string()),
        Value::Bytes(vec![1, 2, 3]),
        Value::Array(vec![Scalar::Signed(-1), Scalar::Signed(0), Scalar::Signed(32767)]),
        Value::Bytes(vec![7, 7, 7, 0xFF, 0x00]),
    ]
}

#[test]
fn round_trip_every_kind_big_endian() {
    let schema = every_kind_schema();
    let vals = every_kind_values();
    let bytes = encode(&schema, &vals, ByteOrder::Be).unwrap();
    let mut offset = 0;
    let back = decode(&schema, &bytes, &mut offset, ByteOrder::Be).unwrap();
    assert_eq!(back, vals);
    assert_eq!(offset, bytes.len());
}

#[test]
fn round_trip_every_kind_little_endian() {
    let schema = every_kind_schema();
    let vals = every_kind_values();
    let bytes = encode(&schema, &vals, ByteOrder::Le).unwrap();
    let mut offset = 0;
    let back = decode(&schema, &bytes, &mut offset, ByteOrder::Le).unwrap();
    assert_eq!(back, vals);
    assert_eq!(offset, bytes.len());
}

#[test]
fn round_trip_layout_is_exact() {
    let schema = every_kind_schema();
    let vals = every_kind_values();
    let be = encode(&schema, &vals, ByteOrder::Be).unwrap();
    // 1+1+2+4+8+16+16+1 scalar bytes, 2 section bytes (16 bits), 1 count,
    // 6 text bytes + 2 delimiter bytes, 3 raw, 6 array, 5 tail.
    assert_eq!(be.len(), 49 + 2 + 1 + 8 + 3 + 6 + 5);
    assert_eq!(&be[0..4], &[0x01, 0x80, 0xBE, 0xEF]);
    let le = encode(&schema, &vals, ByteOrder::Le).unwrap();
    assert_eq!(&le[0..4], &[0x01, 0x80, 0xEF, 0xBE]);
}

#[test]
fn overflow_rejected_naming_field() {
    let schema = RecordSchema::new(vec![
        field("a", FieldKind::Bitfield(Prim::U8, 2)),
        field("b", FieldKind::Bitfield(Prim::U8, 3)),
    ])
    .unwrap();
    let r = encode(&schema, &vec![u(1), u(8)], ByteOrder::Be);
    assert_eq!(
        r,
        Err(EncodeError::BitWidthOverflow { field: "b".to_string(), value: Scalar::Unsigned(8) })
    );
    let r = encode(&schema, &vec![u(4), u(8)], ByteOrder::Le);
    assert_eq!(
        r,
        Err(EncodeError::BitWidthOverflow { field: "a".to_string(), value: Scalar::Unsigned(4) })
    );
    assert!(encode(&schema, &vec![u(3), u(7)], ByteOrder::Be).is_ok());
}

#[test]
fn overflow_of_signed_and_enum_bitfields() {
    let schema = RecordSchema::new(vec![
        field("s", FieldKind::Bitfield(Prim::I8, 4)),
        field("e", FieldKind::EnumBitfield(ab_enum(), 1)),
    ])
    .unwrap();
    let r = encode(&schema, &vec![Value::Scalar(Scalar::Signed(-1)), Value::Variant(0)], ByteOrder::Be);
    assert_eq!(
        r,
        Err(EncodeError::BitWidthOverflow { field: "s".to_string(), value: Scalar::Signed(-1) })
    );
    let r = encode(&schema, &vec![Value::Scalar(Scalar::Signed(15)), Value::Variant(1)], ByteOrder::Be);
    assert_eq!(
        r,
        Err(EncodeError::BitWidthOverflow { field: "e".to_string(), value: Scalar::Unsigned(2) })
    );
}

fn truncation_schema(default: Option<Value>) -> RecordSchema {
    RecordSchema::new(vec![
        field("x", FieldKind::Scalar(Prim::U8)),
        FieldDescriptor { name: "y".to_string(), kind: FieldKind::Scalar(Prim::U16), default },
    ])
    .unwrap()
}

#[test]
fn truncation_with_fallback() {
    let schema = truncation_schema(Some(u(7)));
    let bytes = encode(&schema, &vec![u(9), u(0x1234)], ByteOrder::Be).unwrap();
    assert_eq!(bytes, vec![9, 0x12, 0x34]);
    let mut offset = 0;
    let back = decode(&schema, &bytes[..1], &mut offset, ByteOrder::Be).unwrap();
    assert_eq!(back, vec![u(9), u(7)]);
    assert_eq!(offset, 1);
}

#[test]
fn truncation_without_fallback() {
    let schema = truncation_schema(None);
    let bytes = encode(&schema, &vec![u(9), u(0x1234)], ByteOrder::Be).unwrap();
    let mut offset = 0;
    let r = decode(&schema, &bytes[..2], &mut offset, ByteOrder::Be);
    assert_eq!(r, Err(DecodeError::BufferTooShort));
    assert_eq!(offset, 0);
}

#[test]
fn delimiter_round_trip() {
    let mut buf = BytesMut::new();
    encode_text("abc", &mut buf, Some(&[0x00]));
    assert_eq!(&buf[..], b"abc\0");
    let mut offset = 0;
    let s = decode_text(&buf, &mut offset, Some(&[0x00])).unwrap();
    assert_eq!(s, "abc");
    assert_eq!(offset, 4);
}

#[test]
fn delimiter_not_found() {
    let mut offset = 0;
    let r = decode_text(b"abc", &mut offset, Some(&[0x00]));
    assert_eq!(r, Err(DecodeError::DelimiterNotFound));
    assert_eq!(offset, 0);
}

#[test]
fn length_sourced_vector() {
    let schema = RecordSchema::new(vec![
        field("c", FieldKind::Scalar(Prim::U8)),
        field("v", FieldKind::Bytes(Terminator::LengthOf(0))),
    ])
    .unwrap();
    let vals = vec![u(2), Value::Bytes(vec![9, 10])];
    let bytes = encode(&schema, &vals, ByteOrder::Be).unwrap();
    assert_eq!(bytes, vec![0x02, 0x09, 0x0A]);
    let mut offset = 0;
    assert_eq!(decode(&schema, &bytes, &mut offset, ByteOrder::Be).unwrap(), vals);
    assert_eq!(offset, 3);
}

#[test]
fn enum_round_trip() {
    let schema = RecordSchema::new(vec![field("e", FieldKind::Enum(ab_enum()))]).unwrap();
    let bytes = encode(&schema, &vec![Value::Variant(0)], ByteOrder::Be).unwrap();
    assert_eq!(bytes, vec![0x01]);
    let mut offset = 0;
    assert_eq!(decode(&schema, &bytes, &mut offset, ByteOrder::Be).unwrap(), vec![Value::Variant(0)]);
    let mut offset = 0;
    let r = decode(&schema, &[0x03], &mut offset, ByteOrder::Be);
    assert_eq!(
        r,
        Err(DecodeError::UnknownDiscriminant { enum_name: "AB".to_string(), value: Scalar::Unsigned(3) })
    );
    assert_eq!(offset, 0);
}

#[test]
fn concrete_bitfield_scenario() {
    let schema = RecordSchema::new(vec![
        field("a", FieldKind::Bitfield(Prim::U8, 2)),
        field("b", FieldKind::Bitfield(Prim::U8, 2)),
    ])
    .unwrap();
    let vals = vec![u(3), u(2)];
    // Big-endian: a's bits, most significant first, at section bits 0 and 1,
    // b's at bits 2 and 3; bit g is bit g % 8 of byte g / 8.
    let be = encode(&schema, &vals, ByteOrder::Be).unwrap();
    assert_eq!(be, vec![0x07]);
    // Little-endian: least significant bit first.
    let le = encode(&schema, &vals, ByteOrder::Le).unwrap();
    assert_eq!(le, vec![0x0B]);
    let mut offset = 0;
    assert_eq!(decode(&schema, &be, &mut offset, ByteOrder::Be).unwrap(), vals);
    let mut offset = 0;
    assert_eq!(decode(&schema, &le, &mut offset, ByteOrder::Le).unwrap(), vals);
}

#[test]
fn multi_byte_section_mirrors_bytes() {
    let schema = RecordSchema::new(vec![
        field("a", FieldKind::Bitfield(Prim::U8, 4)),
        field("b", FieldKind::Bitfield(Prim::U16, 8)),
    ])
    .unwrap();
    let vals = vec![u(0xA), u(0x3C)];
    let be = encode(&schema, &vals, ByteOrder::Be).unwrap();
    assert_eq!(be, vec![0xC5, 0x03]);
    let le = encode(&schema, &vals, ByteOrder::Le).unwrap();
    assert_eq!(le, vec![0x03, 0xCA]);
    let mut offset = 0;
    assert_eq!(decode(&schema, &be, &mut offset, ByteOrder::Be).unwrap(), vals);
    assert_eq!(offset, 2);
    let mut offset = 0;
    assert_eq!(decode(&schema, &le, &mut offset, ByteOrder::Le).unwrap(), vals);
}
