use binserde::{
    decode, encode, ByteOrder, DecodeError, EncodeError, FieldDescriptor, FieldKind, Prim,
    RecordSchema, Scalar, Terminator, Value,
};

fn field(name: &str, kind: FieldKind) -> FieldDescriptor {
    FieldDescriptor { name: name.to_string(), kind, default: None }
}

fn u(v: u128) -> Value {
    Value::Scalar(Scalar::Unsigned(v))
}

fn inner() -> RecordSchema {
    RecordSchema::new(vec![
        field("hi", FieldKind::Bitfield(Prim::U8, 4)),
        field("lo", FieldKind::Bitfield(Prim::U8, 4)),
        field("len", FieldKind::Scalar(Prim::U8)),
        field("data", FieldKind::Bytes(Terminator::LengthOf(2))),
    ])
    .unwrap()
}

fn outer(default: Option<Value>) -> RecordSchema {
    RecordSchema::new(vec![
        field("tag", FieldKind::Bitfield(Prim::U8, 3)),
        field("body", FieldKind::Nested(inner())),
        FieldDescriptor { name: "tail".to_string(), kind: FieldKind::Nested(inner()), default },
    ])
    .unwrap()
}

fn body(hi: u128, lo: u128, data: Vec<u8>) -> Value {
    Value::Record(vec![u(hi), u(lo), u(data.len() as u128), Value::Bytes(data)])
}

#[test]
fn nested_round_trip_both_orders() {
    let schema = outer(None);
    let vals = vec![u(5), body(0xA, 0x3, vec![1, 2]), body(0, 0xF, vec![])];
    for order in [ByteOrder::Be, ByteOrder::Le] {
        let bytes = encode(&schema, &vals, order).unwrap();
        assert_eq!(bytes.len(), 1 + 4 + 2);
        let mut offset = 0;
        let back = decode(&schema, &bytes, &mut offset, order).unwrap();
        assert_eq!(back, vals);
        assert_eq!(offset, bytes.len());
    }
}

#[test]
fn nested_sections_stay_separate() {
    let schema = outer(None);
    let vals = vec![u(5), body(0xA, 0x3, vec![1, 2]), body(0, 0xF, vec![])];
    let bytes = encode(&schema, &vals, ByteOrder::Le).unwrap();
    // tag alone in its own byte; the nested record's section in the next.
    assert_eq!(bytes, vec![0x05, 0x3A, 0x02, 1, 2, 0xF0, 0x00]);
}

#[test]
fn nested_truncated_falls_back() {
    let schema = outer(Some(body(1, 2, vec![])));
    let vals = vec![u(5), body(0xA, 0x3, vec![1, 2]), body(0, 0xF, vec![9])];
    let bytes = encode(&schema, &vals, ByteOrder::Be).unwrap();
    let mut offset = 0;
    let back = decode(&schema, &bytes[..5], &mut offset, ByteOrder::Be).unwrap();
    assert_eq!(back, vec![u(5), body(0xA, 0x3, vec![1, 2]), body(1, 2, vec![])]);
    assert_eq!(offset, 5);
    let schema = outer(None);
    let mut offset = 0;
    assert_eq!(decode(&schema, &bytes[..6], &mut offset, ByteOrder::Be), Err(DecodeError::BufferTooShort));
}

#[test]
fn nested_errors_name_inner_field() {
    let schema = outer(None);
    let vals = vec![u(5), body(0x10, 0x3, vec![]), body(0, 0, vec![])];
    assert_eq!(
        encode(&schema, &vals, ByteOrder::Be),
        Err(EncodeError::BitWidthOverflow { field: "hi".to_string(), value: Scalar::Unsigned(0x10) })
    );
    let vals = vec![u(5), Value::Record(vec![u(1)]), body(0, 0, vec![])];
    assert_eq!(encode(&schema, &vals, ByteOrder::Be), Err(EncodeError::Mismatch { field: "body".to_string() }));
}

#[test]
fn nested_schema_validated() {
    let bad_inner = RecordSchema { fields: vec![field("x", FieldKind::Bitfield(Prim::U8, 9))] };
    assert!(!bad_inner.is_valid());
    assert!(RecordSchema::new(vec![field("n", FieldKind::Nested(bad_inner))]).is_none());
}
