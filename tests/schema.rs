use binserde::{
    decode, encode, encode_into, ByteOrder, EnumSchema, FieldDescriptor, FieldKind, Foo,
    MoterDriverParam, Prim, RecordSchema, Scalar, Terminator, Variant,
};
use bytes::BytesMut;

fn field(name: &str, kind: FieldKind) -> FieldDescriptor {
    FieldDescriptor { name: name.to_string(), kind, default: None }
}

#[test]
fn bit_width_must_be_below_natural_width() {
    assert!(RecordSchema::new(vec![field("a", FieldKind::Bitfield(Prim::U8, 8))]).is_none());
    assert!(RecordSchema::new(vec![field("a", FieldKind::Bitfield(Prim::U8, 0))]).is_none());
    assert!(RecordSchema::new(vec![field("a", FieldKind::Bitfield(Prim::U8, 7))]).is_some());
}

#[test]
fn section_must_fit_64_bits() {
    let fits = RecordSchema::new(vec![
        field("a", FieldKind::Bitfield(Prim::U64, 40)),
        field("b", FieldKind::Bitfield(Prim::U32, 24)),
    ]);
    assert!(fits.is_some());
    let over = RecordSchema::new(vec![
        field("a", FieldKind::Bitfield(Prim::U64, 40)),
        field("b", FieldKind::Bitfield(Prim::U32, 25)),
    ]);
    assert!(over.is_none());
    let split = RecordSchema::new(vec![
        field("a", FieldKind::Bitfield(Prim::U64, 40)),
        field("x", FieldKind::Scalar(Prim::U8)),
        field("b", FieldKind::Bitfield(Prim::U32, 25)),
    ]);
    assert!(split.is_some());
}

#[test]
fn length_source_must_come_first_and_be_unsigned() {
    let forward = RecordSchema::new(vec![
        field("v", FieldKind::Bytes(Terminator::LengthOf(1))),
        field("c", FieldKind::Scalar(Prim::U8)),
    ]);
    assert!(forward.is_none());
    let signed = RecordSchema::new(vec![
        field("c", FieldKind::Scalar(Prim::I8)),
        field("v", FieldKind::Bytes(Terminator::LengthOf(0))),
    ]);
    assert!(signed.is_none());
}

#[test]
fn enum_discriminants_distinct_and_fitting() {
    let dup = EnumSchema {
        name: "D".to_string(),
        repr: Prim::U8,
        variants: vec![
            Variant { name: "A".to_string(), discriminant: Scalar::Unsigned(1) },
            Variant { name: "B".to_string(), discriminant: Scalar::Unsigned(1) },
        ],
    };
    assert!(!dup.is_valid());
    let wide = EnumSchema {
        name: "W".to_string(),
        repr: Prim::U8,
        variants: vec![Variant { name: "A".to_string(), discriminant: Scalar::Unsigned(256) }],
    };
    assert!(!wide.is_valid());
    assert!(RecordSchema::new(vec![field("e", FieldKind::Enum(wide))]).is_none());
}

fn param() -> MoterDriverParam {
    MoterDriverParam {
        foo: Foo::A,
        readparam_result: 1,
        max_speed_limit: 2,
        max_acc_speed: 3,
        max_dec_speed: 4,
        di1: 5,
        di2: 6,
        di3: 7,
        di4: 8,
        di5: 9,
        di6: 10,
        di7: 11,
        di8: 12,
        max_output_current: 13,
        overcurrent_time_limit: 14,
        speed_following_fault_time: 15,
        motors_lines: 16,
        motor_poles: 17,
        speed_loop_kp: 18,
        speed_loop_ki: 19,
        motor_positive_dir: 20,
        position_loop_time: 21,
    }
}

#[test]
fn motor_params_encode() {
    let schema = MoterDriverParam::schema();
    let mut buf = BytesMut::new();
    encode_into(&schema, &param().to_values(), ByteOrder::Le, &mut buf).unwrap();
    assert_eq!(buf.len(), 2 + 1 + 20 * 4);
    assert_eq!(&buf[0..7], &[0x01, 0x00, 0x01, 0x02, 0x00, 0x00, 0x00]);
    assert_eq!(&buf[79..83], &[21, 0, 0, 0]);
}

#[test]
fn motor_params_round_trip() {
    let schema = MoterDriverParam::schema();
    let bytes = encode(&schema, &param().to_values(), ByteOrder::Be).unwrap();
    assert_eq!(&bytes[0..3], &[0x00, 0x01, 0x01]);
    let mut offset = 0;
    let vals = decode(&schema, &bytes, &mut offset, ByteOrder::Be).unwrap();
    assert_eq!(MoterDriverParam::from_values(&vals), Some(param()));
    assert_eq!(offset, bytes.len());
}

#[test]
fn motor_enum_b() {
    let schema = MoterDriverParam::schema();
    let mut p = param();
    p.foo = Foo::B;
    let bytes = encode(&schema, &p.to_values(), ByteOrder::Be).unwrap();
    assert_eq!(&bytes[0..2], &[0x00, 0x02]);
}
