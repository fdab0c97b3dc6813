use binserde::{
    decode, decode_text, encode, encode_into, encode_text, mask_for_bits, ByteOrder,
    DecodeError, EncodeError, FieldDescriptor, FieldKind, Prim, RecordSchema, Scalar,
    Terminator, Value,
};
use bytes::BytesMut;

fn field(name: &str, kind: FieldKind) -> FieldDescriptor {
    FieldDescriptor { name: name.to_string(), kind, default: None }
}

fn u(v: u128) -> Value {
    Value::Scalar(Scalar::Unsigned(v))
}

#[test]
fn mask_values() {
    assert_eq!(mask_for_bits(0), 0);
    assert_eq!(mask_for_bits(1), 1);
    assert_eq!(mask_for_bits(3), 7);
    assert_eq!(mask_for_bits(63), u64::MAX >> 1);
    assert_eq!(mask_for_bits(64), u64::MAX);
    assert_eq!(mask_for_bits(70), u64::MAX);
}

#[test]
fn scalar_byte_orders() {
    let schema = RecordSchema::new(vec![
        field("a", FieldKind::Scalar(Prim::U32)),
        field("b", FieldKind::Scalar(Prim::I16)),
    ])
    .unwrap();
    let vals = vec![u(0x01020304), Value::Scalar(Scalar::Signed(-2))];
    assert_eq!(encode(&schema, &vals, ByteOrder::Be).unwrap(), vec![1, 2, 3, 4, 0xFF, 0xFE]);
    assert_eq!(encode(&schema, &vals, ByteOrder::Le).unwrap(), vec![4, 3, 2, 1, 0xFE, 0xFF]);
}

#[test]
fn bool_reads_one_as_true() {
    let schema = RecordSchema::new(vec![
        field("a", FieldKind::Scalar(Prim::Bool)),
        field("b", FieldKind::Scalar(Prim::Bool)),
        field("c", FieldKind::Scalar(Prim::Bool)),
    ])
    .unwrap();
    let mut offset = 0;
    let r = decode(&schema, &[1, 0, 2], &mut offset, ByteOrder::Be).unwrap();
    assert_eq!(
        r,
        vec![
            Value::Scalar(Scalar::Bool(true)),
            Value::Scalar(Scalar::Bool(false)),
            Value::Scalar(Scalar::Bool(false)),
        ]
    );
}

#[test]
fn decode_advances_from_offset() {
    let schema = RecordSchema::new(vec![field("a", FieldKind::Scalar(Prim::U16))]).unwrap();
    let mut offset = 1;
    let r = decode(&schema, &[9, 0x12, 0x34, 9], &mut offset, ByteOrder::Le).unwrap();
    assert_eq!(r, vec![u(0x3412)]);
    assert_eq!(offset, 3);
}

#[test]
fn mismatched_value_rejected() {
    let schema = RecordSchema::new(vec![
        field("a", FieldKind::Scalar(Prim::U8)),
        field("b", FieldKind::Scalar(Prim::U8)),
    ])
    .unwrap();
    let r = encode(&schema, &vec![u(1), u(256)], ByteOrder::Be);
    assert_eq!(r, Err(EncodeError::Mismatch { field: "b".to_string() }));
    let r = encode(&schema, &vec![Value::Scalar(Scalar::Signed(1)), u(2)], ByteOrder::Be);
    assert_eq!(r, Err(EncodeError::Mismatch { field: "a".to_string() }));
}

#[test]
fn wrong_field_count_rejected() {
    let schema = RecordSchema::new(vec![field("a", FieldKind::Scalar(Prim::U8))]).unwrap();
    let r = encode(&schema, &vec![u(1), u(2)], ByteOrder::Be);
    assert_eq!(r, Err(EncodeError::FieldCount { expected: 1, found: 2 }));
}

#[test]
fn encode_into_appends_after_existing_bytes() {
    let schema = RecordSchema::new(vec![field("a", FieldKind::Scalar(Prim::U16))]).unwrap();
    let mut buf = BytesMut::new();
    buf.extend_from_slice(&[0xAA]);
    encode_into(&schema, &vec![u(0x0102)], ByteOrder::Be, &mut buf).unwrap();
    assert_eq!(&buf[..], &[0xAA, 0x01, 0x02]);
    let r = encode_into(&schema, &vec![u(0x10000)], ByteOrder::Be, &mut buf);
    assert!(r.is_err());
    assert_eq!(&buf[..], &[0xAA, 0x01, 0x02]);
}

#[test]
fn encode_text_appends_without_delimiter() {
    let mut buf = BytesMut::new();
    encode_text("ab", &mut buf, None);
    encode_text("é", &mut buf, Some(&[0x0D, 0x0A]));
    assert_eq!(&buf[..], &[b'a', b'b', 0xC3, 0xA9, 0x0D, 0x0A]);
}

#[test]
fn decode_text_multi_byte_delimiter_later_in_buffer() {
    let buf = b"a\r\nb\r\nc";
    let mut offset = 0;
    assert_eq!(decode_text(buf, &mut offset, Some(b"\r\n")).unwrap(), "a");
    assert_eq!(offset, 3);
    assert_eq!(decode_text(buf, &mut offset, Some(b"\r\n")).unwrap(), "b");
    assert_eq!(offset, 6);
    assert_eq!(decode_text(buf, &mut offset, None).unwrap(), "c");
    assert_eq!(offset, 7);
}

#[test]
fn decode_text_replaces_invalid_utf8() {
    let buf = [b'x', 0xFF, b'y', 0];
    let mut offset = 0;
    assert_eq!(decode_text(&buf, &mut offset, Some(&[0])).unwrap(), "x\u{FFFD}y");
    assert_eq!(offset, 4);
}

#[test]
fn decode_text_past_end_is_too_short() {
    let mut offset = 5;
    assert_eq!(decode_text(b"abc", &mut offset, None), Err(DecodeError::BufferTooShort));
    assert_eq!(offset, 5);
}

#[test]
fn length_sourced_run_too_short() {
    let schema = RecordSchema::new(vec![
        field("c", FieldKind::Scalar(Prim::U8)),
        field("v", FieldKind::Bytes(Terminator::LengthOf(0))),
    ])
    .unwrap();
    let mut offset = 0;
    assert_eq!(decode(&schema, &[3, 1, 2], &mut offset, ByteOrder::Be), Err(DecodeError::BufferTooShort));
    assert_eq!(offset, 0);
}

#[test]
fn length_sourced_run_falls_back() {
    let schema = RecordSchema::new(vec![
        field("c", FieldKind::Scalar(Prim::U8)),
        FieldDescriptor {
            name: "v".to_string(),
            kind: FieldKind::Bytes(Terminator::LengthOf(0)),
            default: Some(Value::Bytes(vec![0xEE])),
        },
    ])
    .unwrap();
    let mut offset = 0;
    let r = decode(&schema, &[3, 1, 2], &mut offset, ByteOrder::Be).unwrap();
    assert_eq!(r, vec![u(3), Value::Bytes(vec![0xEE])]);
    assert_eq!(offset, 1);
}

#[test]
fn delimiter_error_is_not_absorbed() {
    let schema = RecordSchema::new(vec![FieldDescriptor {
        name: "s".to_string(),
        kind: FieldKind::Text(Terminator::Delimiter(vec![0])),
        default: Some(Value::Text(String::new())),
    }])
    .unwrap();
    let mut offset = 0;
    assert_eq!(decode(&schema, b"abc", &mut offset, ByteOrder::Be), Err(DecodeError::DelimiterNotFound));
}

#[test]
fn short_section_takes_defaults() {
    let with_defaults = RecordSchema::new(vec![
        field("x", FieldKind::Scalar(Prim::U8)),
        FieldDescriptor { name: "a".to_string(), kind: FieldKind::Bitfield(Prim::U8, 4), default: Some(u(1)) },
        FieldDescriptor { name: "b".to_string(), kind: FieldKind::Bitfield(Prim::U8, 4), default: Some(u(2)) },
    ])
    .unwrap();
    let mut offset = 0;
    let r = decode(&with_defaults, &[5], &mut offset, ByteOrder::Be).unwrap();
    assert_eq!(r, vec![u(5), u(1), u(2)]);
    assert_eq!(offset, 1);
    let one_without = RecordSchema::new(vec![
        field("x", FieldKind::Scalar(Prim::U8)),
        FieldDescriptor { name: "a".to_string(), kind: FieldKind::Bitfield(Prim::U8, 4), default: Some(u(1)) },
        field("b", FieldKind::Bitfield(Prim::U8, 4)),
    ])
    .unwrap();
    let mut offset = 0;
    assert_eq!(decode(&one_without, &[5], &mut offset, ByteOrder::Be), Err(DecodeError::BufferTooShort));
}

#[test]
fn unknown_discriminant_in_bitfield() {
    let e = binserde::EnumSchema {
        name: "E".to_string(),
        repr: Prim::U8,
        variants: vec![binserde::Variant { name: "A".to_string(), discriminant: Scalar::Unsigned(1) }],
    };
    let schema = RecordSchema::new(vec![field("d", FieldKind::EnumBitfield(e, 2))]).unwrap();
    let mut offset = 0;
    let r = decode(&schema, &[0x03], &mut offset, ByteOrder::Le);
    assert_eq!(
        r,
        Err(DecodeError::UnknownDiscriminant { enum_name: "E".to_string(), value: Scalar::Unsigned(3) })
    );
}

#[test]
fn array_too_short() {
    let schema = RecordSchema::new(vec![field("arr", FieldKind::Array(Prim::U16, 2))]).unwrap();
    let mut offset = 0;
    assert_eq!(decode(&schema, &[1, 2, 3], &mut offset, ByteOrder::Be), Err(DecodeError::BufferTooShort));
    let mut offset = 0;
    assert_eq!(
        decode(&schema, &[1, 2, 3, 4], &mut offset, ByteOrder::Be).unwrap(),
        vec![Value::Array(vec![Scalar::Unsigned(0x0102), Scalar::Unsigned(0x0304)])]
    );
}

#[test]
fn rest_run_takes_remainder() {
    let schema = RecordSchema::new(vec![
        field("a", FieldKind::Scalar(Prim::U8)),
        field("rest", FieldKind::Bytes(Terminator::Rest)),
    ])
    .unwrap();
    let mut offset = 0;
    let r = decode(&schema, &[1, 2, 3], &mut offset, ByteOrder::Be).unwrap();
    assert_eq!(r, vec![u(1), Value::Bytes(vec![2, 3])]);
    assert_eq!(offset, 3);
}
