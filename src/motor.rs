//! A motor driver's parameter record, with its schema written out by hand.
use vstd::prelude::*;
use crate::scalar::{Prim, Scalar};
use crate::schema::{
    data_of, Datum, EnumSchema, FieldDescriptor, FieldKind, RecordSchema, Value, Variant,
};

verus! {

/// The selector carried as a `u16`: `A` is 1, `B` is 2.
#[derive(Clone, Copy, Debug, PartialEq, Eq, Structural)]
pub enum Foo {
    A,
    B,
}

impl Foo {
    /// The index of the variant in the enum schema.
    pub open spec fn index(self) -> nat {
        match self {
            Foo::A => 0,
            Foo::B => 1,
        }
    }

    /// The schema of the enum: `A = 1`, `B = 2`, as a `u16`.
    pub fn schema() -> (r: EnumSchema)
        ensures
            r.wf(),
            r.repr == Prim::U16,
            r.variants@.len() == 2,
            r.disc(0) == Scalar::Unsigned(1),
            r.disc(1) == Scalar::Unsigned(2),
    {
        let mut variants: Vec<Variant> = Vec::new();
        variants.push(Variant { name: "A".to_owned(), discriminant: Scalar::Unsigned(1) });
        variants.push(Variant { name: "B".to_owned(), discriminant: Scalar::Unsigned(2) });
        let r = EnumSchema { name: "Foo".to_owned(), repr: Prim::U16, variants };
        proof {
            crate::digits::lemma_pow256_monotonic(1, 2);
            reveal_with_fuel(crate::digits::pow256, 3);
        }
        r
    }
}

/// The parameters of a motor driver.
#[derive(Clone, Debug, PartialEq)]
pub struct MoterDriverParam {
    pub foo: Foo,
    pub readparam_result: u8,
    /// Maximum speed (rpm).
    pub max_speed_limit: u32,
    /// Maximum acceleration (cnt/s/ms).
    pub max_acc_speed: u32,
    /// Maximum deceleration (cnt/s/ms).
    pub max_dec_speed: u32,
    /// Functions of the isolated inputs 1 to 8.
    pub di1: u32,
    pub di2: u32,
    pub di3: u32,
    pub di4: u32,
    pub di5: u32,
    pub di6: u32,
    pub di7: u32,
    pub di8: u32,
    /// Maximum output current.
    pub max_output_current: u32,
    /// Overcurrent time limit (ms).
    pub overcurrent_time_limit: u32,
    /// Speed-following fault tolerance time (ms).
    pub speed_following_fault_time: u32,
    /// Lines of the motor's incremental encoder.
    pub motors_lines: u32,
    /// Pole pairs of the motor.
    pub motor_poles: u32,
    pub speed_loop_kp: u32,
    pub speed_loop_ki: u32,
    /// Positive direction of rotation.
    pub motor_positive_dir: u32,
    pub position_loop_time: u32,
}

/// The number of `u32` fields.
pub const U32_FIELDS: usize = 20;

pub open spec fn u32_datum(x: u32) -> Datum {
    Datum::Scalar(Scalar::Unsigned(x as u128))
}

fn scalar_field(name: &str, p: Prim) -> (r: FieldDescriptor)
    ensures
        r.name@ == name@,
        r.kind == FieldKind::Scalar(p),
        r.default is None,
{
    FieldDescriptor { name: name.to_owned(), kind: FieldKind::Scalar(p), default: None }
}

fn unsigned_of(v: &Value) -> (r: Option<u32>)
    ensures
        r matches Some(x) ==> v@ == u32_datum(x),
        r is None ==> forall|x: u32| v@ != u32_datum(x),
{
    match v {
        Value::Scalar(Scalar::Unsigned(n)) => {
            if *n <= u32::MAX as u128 {
                Some(*n as u32)
            } else {
                None
            }
        },
        _ => None,
    }
}

impl MoterDriverParam {
    /// The `u32` fields, in order.
    pub open spec fn u32_data(&self) -> Seq<Datum> {
        seq![
            u32_datum(self.max_speed_limit),
            u32_datum(self.max_acc_speed),
            u32_datum(self.max_dec_speed),
            u32_datum(self.di1),
            u32_datum(self.di2),
            u32_datum(self.di3),
            u32_datum(self.di4),
            u32_datum(self.di5),
            u32_datum(self.di6),
            u32_datum(self.di7),
            u32_datum(self.di8),
            u32_datum(self.max_output_current),
            u32_datum(self.overcurrent_time_limit),
            u32_datum(self.speed_following_fault_time),
            u32_datum(self.motors_lines),
            u32_datum(self.motor_poles),
            u32_datum(self.speed_loop_kp),
            u32_datum(self.speed_loop_ki),
            u32_datum(self.motor_positive_dir),
            u32_datum(self.position_loop_time),
        ]
    }

    /// The record's field values, in wire order.
    pub open spec fn data(&self) -> Seq<Datum> {
        seq![
            Datum::Variant(self.foo.index()),
            Datum::Scalar(Scalar::Unsigned(self.readparam_result as u128)),
        ] + self.u32_data()
    }

    /// The record's schema: `foo` as a `u16` discriminant, `readparam_result`
    /// as a `u8`, then the `u32` fields in declaration order.
    pub fn schema() -> (r: RecordSchema)
        ensures
            r.wf(),
            r.fields@.len() == 22,
            r.fields@[0].kind matches FieldKind::Enum(e) && e.repr == Prim::U16 && e.variants@.len() == 2
                && e.disc(0) == Scalar::Unsigned(1) && e.disc(1) == Scalar::Unsigned(2),
            r.fields@[1].kind == FieldKind::Scalar(Prim::U8),
            forall|i: int| 2 <= i < 22 ==> (#[trigger] r.fields@[i]).kind == FieldKind::Scalar(Prim::U32),
    {
        let names: [&str; U32_FIELDS] = [
            "max_speed_limit",
            "max_acc_speed",
            "max_dec_speed",
            "di1",
            "di2",
            "di3",
            "di4",
            "di5",
            "di6",
            "di7",
            "di8",
            "max_output_current",
            "overcurrent_time_limit",
            "speed_following_fault_time",
            "motors_lines",
            "motor_poles",
            "speed_loop_kp",
            "speed_loop_ki",
            "motor_positive_dir",
            "position_loop_time",
        ];
        let mut fields: Vec<FieldDescriptor> = Vec::new();
        let foo = Foo::schema();
        fields.push(FieldDescriptor { name: "foo".to_owned(), kind: FieldKind::Enum(foo), default: None });
        fields.push(scalar_field("readparam_result", Prim::U8));
        let mut i: usize = 0;
        while i < U32_FIELDS
            invariant
                i <= U32_FIELDS,
                fields@.len() == i + 2,
                fields@[0].kind matches FieldKind::Enum(e) && e.wf() && e.repr == Prim::U16 && e.variants@.len() == 2
                    && e.disc(0) == Scalar::Unsigned(1) && e.disc(1) == Scalar::Unsigned(2),
                fields@[1].kind == FieldKind::Scalar(Prim::U8),
                forall|k: int| 2 <= k < i + 2 ==> (#[trigger] fields@[k]).kind == FieldKind::Scalar(Prim::U32),
            decreases U32_FIELDS - i,
        {
            fields.push(scalar_field(names[i], Prim::U32));
            i = i + 1;
        }
        let r = RecordSchema { fields };
        proof {
            assert forall|k: int| 0 <= k < r.fields@.len() implies crate::model::field_wf(r.fields@, k) by {
                if k >= 2 {
                    assert(r.fields@[k].kind == FieldKind::Scalar(Prim::U32));
                }
            }
            assert forall|k: nat| k < r.fields@.len() && (#[trigger] r.fields@[k as int]).kind.is_bitfield()
                implies crate::model::section_width(r.fields@, k, crate::model::run_end(r.fields@, k)) <= 64 by {
                if k >= 2 {
                    assert(r.fields@[k as int].kind == FieldKind::Scalar(Prim::U32));
                }
            }
        }
        r
    }

    /// The record's field values, in wire order.
    pub fn to_values(&self) -> (r: Vec<Value>)
        ensures
            data_of(r@) == self.data(),
    {
        let mut v: Vec<Value> = Vec::new();
        v.push(Value::Variant(match self.foo {
            Foo::A => 0,
            Foo::B => 1,
        }));
        v.push(Value::Scalar(Scalar::Unsigned(self.readparam_result as u128)));
        let xs: [u32; U32_FIELDS] = [
            self.max_speed_limit,
            self.max_acc_speed,
            self.max_dec_speed,
            self.di1,
            self.di2,
            self.di3,
            self.di4,
            self.di5,
            self.di6,
            self.di7,
            self.di8,
            self.max_output_current,
            self.overcurrent_time_limit,
            self.speed_following_fault_time,
            self.motors_lines,
            self.motor_poles,
            self.speed_loop_kp,
            self.speed_loop_ki,
            self.motor_positive_dir,
            self.position_loop_time,
        ];
        assert(xs@.map_values(|x: u32| u32_datum(x)) =~= self.u32_data());
        let mut i: usize = 0;
        while i < U32_FIELDS
            invariant
                i <= U32_FIELDS,
                xs@.map_values(|x: u32| u32_datum(x)) == self.u32_data(),
                data_of(v@) == seq![
                    Datum::Variant(self.foo.index()),
                    Datum::Scalar(Scalar::Unsigned(self.readparam_result as u128)),
                ] + self.u32_data().subrange(0, i as int),
            decreases U32_FIELDS - i,
        {
            let x = xs[i];
            assert(self.u32_data()[i as int] == xs@.map_values(|x: u32| u32_datum(x))[i as int]);
            let nv = Value::Scalar(Scalar::Unsigned(x as u128));
            proof {
                crate::section::lemma_data_of_push(v@, nv);
            }
            v.push(nv);
            i = i + 1;
            assert(data_of(v@) =~= seq![
                Datum::Variant(self.foo.index()),
                Datum::Scalar(Scalar::Unsigned(self.readparam_result as u128)),
            ] + self.u32_data().subrange(0, i as int));
        }
        assert(self.u32_data().subrange(0, U32_FIELDS as int) =~= self.u32_data());
        v
    }

    /// The record whose field values are `vals`, if they are of its fields'
    /// kinds.
    pub fn from_values(vals: &Vec<Value>) -> (r: Option<MoterDriverParam>)
        ensures
            r matches Some(p) ==> p.data() == data_of(vals@),
            r is None ==> forall|p: MoterDriverParam| p.data() != data_of(vals@),
    {
        if vals.len() != 22 {
            assert forall|p: MoterDriverParam| p.data() != data_of(vals@) by {
                assert(p.data().len() == 22);
            }
            return None;
        }
        let foo = match &vals[0] {
            Value::Variant(0) => Foo::A,
            Value::Variant(1) => Foo::B,
            _ => {
                assert forall|p: MoterDriverParam| p.data() != data_of(vals@) by {
                    if p.data() == data_of(vals@) {
                        assert(p.data()[0] == vals@[0]@);
                    }
                }
                return None;
            },
        };
        let readparam_result = match &vals[1] {
            Value::Scalar(Scalar::Unsigned(n)) => {
                if *n <= 255 {
                    *n as u8
                } else {
                    assert forall|p: MoterDriverParam| p.data() != data_of(vals@) by {
                        if p.data() == data_of(vals@) {
                            assert(p.data()[1] == vals@[1]@);
                        }
                    }
                    return None;
                }
            },
            _ => {
                assert forall|p: MoterDriverParam| p.data() != data_of(vals@) by {
                    if p.data() == data_of(vals@) {
                        assert(p.data()[1] == vals@[1]@);
                    }
                }
                return None;
            },
        };
        let mut xs: Vec<u32> = Vec::new();
        let mut i: usize = 2;
        while i < 22
            invariant
                vals@.len() == 22,
                2 <= i <= 22,
                xs@.len() == i - 2,
                forall|k: int| 0 <= k < xs@.len() ==> vals@[k + 2]@ == u32_datum(#[trigger] xs@[k]),
            decreases 22 - i,
        {
            match unsigned_of(&vals[i]) {
                Some(x) => xs.push(x),
                None => {
                    assert forall|p: MoterDriverParam| p.data() != data_of(vals@) by {
                        if p.data() == data_of(vals@) {
                            assert(p.data()[i as int] == vals@[i as int]@);
                            assert(p.data()[i as int] == p.u32_data()[i - 2]);
                        }
                    }
                    return None;
                },
            }
            i = i + 1;
        }
        let p = MoterDriverParam {
            foo,
            readparam_result,
            max_speed_limit: xs[0],
            max_acc_speed: xs[1],
            max_dec_speed: xs[2],
            di1: xs[3],
            di2: xs[4],
            di3: xs[5],
            di4: xs[6],
            di5: xs[7],
            di6: xs[8],
            di7: xs[9],
            di8: xs[10],
            max_output_current: xs[11],
            overcurrent_time_limit: xs[12],
            speed_following_fault_time: xs[13],
            motors_lines: xs[14],
            motor_poles: xs[15],
            speed_loop_kp: xs[16],
            speed_loop_ki: xs[17],
            motor_positive_dir: xs[18],
            position_loop_time: xs[19],
        };
        assert(p.data() =~= data_of(vals@));
        Some(p)
    }
}

} // verus!
