//! Record schemas, record values, and the errors of the codec.
use vstd::prelude::*;
use crate::scalar::{fits, Prim, Scalar};

verus! {

/// One variant of an enum: its name and its discriminant.
#[derive(Clone, Debug, PartialEq)]
pub struct Variant {
    pub name: String,
    pub discriminant: Scalar,
}

/// An enum carried on the wire as an integer discriminant of type `repr`.
#[derive(Clone, Debug, PartialEq)]
pub struct EnumSchema {
    pub name: String,
    pub repr: Prim,
    pub variants: Vec<Variant>,
}

/// How the end of a variable-length byte run is found.
#[derive(Clone, Debug, PartialEq)]
pub enum Terminator {
    /// The run is followed by this byte sequence.
    Delimiter(Vec<u8>),
    /// The run extends to the end of the input.
    Rest,
    /// The run's length is the value of the earlier field at this index.
    LengthOf(usize),
}

/// What a field holds and how it is laid out.
#[derive(Debug)]
pub enum FieldKind {
    /// A fixed-width primitive.
    Scalar(Prim),
    /// A primitive packed into the given number of bits of a bitfield section.
    Bitfield(Prim, u32),
    /// An enum, as its discriminant.
    Enum(EnumSchema),
    /// An enum whose discriminant is packed into the given number of bits.
    EnumBitfield(EnumSchema, u32),
    /// A run of raw bytes.
    Bytes(Terminator),
    /// A run of UTF-8 text.
    Text(Terminator),
    /// A fixed number of primitives, back to back.
    Array(Prim, usize),
    /// A record of its own, laid out in place.
    Nested(RecordSchema),
}

/// A named field, with the value that decoding substitutes when the input
/// runs out before it.
#[derive(Debug)]
pub struct FieldDescriptor {
    pub name: String,
    pub kind: FieldKind,
    pub default: Option<Value>,
}

/// The ordered fields of a record; their order is the wire order.
#[derive(Debug)]
pub struct RecordSchema {
    pub fields: Vec<FieldDescriptor>,
}

/// The value of one field.
#[derive(Debug)]
pub enum Value {
    Scalar(Scalar),
    /// The index of a variant in the field's enum schema.
    Variant(usize),
    Bytes(Vec<u8>),
    Text(String),
    Array(Vec<Scalar>),
    /// The values of a nested record's fields.
    Record(Vec<Value>),
}

/// The mathematical content of a `Value`.
pub enum Datum {
    Scalar(Scalar),
    Variant(nat),
    Bytes(Seq<u8>),
    Text(Seq<char>),
    Array(Seq<Scalar>),
    Record(Seq<Datum>),
}

impl View for Value {
    type V = Datum;

    open spec fn view(&self) -> Datum {
        datum_of(*self)
    }
}

/// The contents of a value.
pub open spec fn datum_of(v: Value) -> Datum
    decreases v,
{
    match v {
        Value::Scalar(s) => Datum::Scalar(s),
        Value::Variant(k) => Datum::Variant(k as nat),
        Value::Bytes(b) => Datum::Bytes(b@),
        Value::Text(t) => Datum::Text(t@),
        Value::Array(a) => Datum::Array(a@),
        Value::Record(vs) => Datum::Record(data_seq(vs@)),
    }
}

/// The contents of a sequence of values.
pub open spec fn data_seq(vs: Seq<Value>) -> Seq<Datum>
    decreases vs,
{
    if vs.len() == 0 {
        Seq::empty()
    } else {
        seq![datum_of(vs[0])] + data_seq(vs.subrange(1, vs.len() as int))
    }
}

/// The contents of a sequence of values.
pub open spec fn data_of(vals: Seq<Value>) -> Seq<Datum> {
    vals.map_values(|v: Value| v@)
}

/// Why a record could not be encoded.
#[derive(Clone, Debug, PartialEq)]
pub enum EncodeError {
    /// The number of values differs from the number of fields.
    FieldCount { expected: usize, found: usize },
    /// The value given for the field is not of the field's kind.
    Mismatch { field: String },
    /// A bitfield value does not fit in the field's width.
    BitWidthOverflow { field: String, value: Scalar },
}

/// Why input could not be decoded.
#[derive(Clone, Debug, PartialEq)]
pub enum DecodeError {
    /// Fewer bytes remain than the field needs.
    BufferTooShort,
    /// The field's delimiter does not occur in the rest of the input.
    DelimiterNotFound,
    /// The integer read for an enum field is no discriminant of the enum.
    UnknownDiscriminant { enum_name: String, value: Scalar },
}

/// The content of an `EncodeError`.
pub enum EncodeFault {
    FieldCount { expected: nat, found: nat },
    Mismatch { field: Seq<char> },
    BitWidthOverflow { field: Seq<char>, value: Scalar },
}

/// The content of a `DecodeError`.
pub enum DecodeFault {
    BufferTooShort,
    DelimiterNotFound,
    UnknownDiscriminant { enum_name: Seq<char>, value: Scalar },
}

impl View for EncodeError {
    type V = EncodeFault;

    open spec fn view(&self) -> EncodeFault {
        match self {
            EncodeError::FieldCount { expected, found } => EncodeFault::FieldCount {
                expected: *expected as nat,
                found: *found as nat,
            },
            EncodeError::Mismatch { field } => EncodeFault::Mismatch { field: field@ },
            EncodeError::BitWidthOverflow { field, value } => EncodeFault::BitWidthOverflow {
                field: field@,
                value: *value,
            },
        }
    }
}

impl View for DecodeError {
    type V = DecodeFault;

    open spec fn view(&self) -> DecodeFault {
        match self {
            DecodeError::BufferTooShort => DecodeFault::BufferTooShort,
            DecodeError::DelimiterNotFound => DecodeFault::DelimiterNotFound,
            DecodeError::UnknownDiscriminant { enum_name, value } => DecodeFault::UnknownDiscriminant {
                enum_name: enum_name@,
                value: *value,
            },
        }
    }
}

/// Whether a scalar is of the same family as the type (boolean, unsigned or
/// signed), whatever its size.
pub open spec fn same_family(p: Prim, s: Scalar) -> bool {
    match s {
        Scalar::Bool(_) => p == Prim::Bool,
        Scalar::Unsigned(_) => p.spec_is_unsigned(),
        Scalar::Signed(_) => p.spec_is_signed(),
    }
}

impl EnumSchema {
    /// The discriminant of the variant at index `k`.
    pub open spec fn disc(self, k: nat) -> Scalar {
        self.variants@[k as int].discriminant
    }

    /// The index of the first variant whose discriminant is `s`, searching
    /// from index `from`.
    pub open spec fn lookup_from(self, s: Scalar, from: nat) -> Option<nat>
        decreases self.variants@.len() - from,
    {
        if from >= self.variants@.len() {
            None
        } else if self.disc(from) == s {
            Some(from)
        } else {
            self.lookup_from(s, from + 1)
        }
    }

    /// The index of the first variant whose discriminant is `s`.
    pub open spec fn lookup(self, s: Scalar) -> Option<nat> {
        self.lookup_from(s, 0)
    }

    /// Discriminants fit the integer type `repr` and are distinct.
    pub open spec fn wf(self) -> bool {
        &&& self.repr != Prim::Bool
        &&& forall|k: int| 0 <= k < self.variants@.len() ==> fits(self.repr, #[trigger] self.variants@[k].discriminant)
        &&& forall|k: int, l: int|
            0 <= k < l < self.variants@.len() ==> #[trigger] self.variants@[k].discriminant != #[trigger] self.variants@[l].discriminant
    }
}

impl FieldKind {
    /// Whether the field is packed into a bitfield section.
    pub open spec fn is_bitfield(self) -> bool {
        match self {
            FieldKind::Bitfield(_, _) | FieldKind::EnumBitfield(_, _) => true,
            _ => false,
        }
    }

    /// The number of bits of a bitfield field.
    pub open spec fn width(self) -> nat {
        match self {
            FieldKind::Bitfield(_, w) => w as nat,
            FieldKind::EnumBitfield(_, w) => w as nat,
            _ => 0,
        }
    }
}

fn bytes_eq(a: &Vec<u8>, b: &Vec<u8>) -> (r: bool)
    ensures
        r == (a@ == b@),
{
    if a.len() != b.len() {
        return false;
    }
    let n = a.len();
    let mut i: usize = 0;
    while i < n
        invariant
            n == a@.len() == b@.len(),
            i <= n,
            forall|k: int| 0 <= k < i ==> a@[k] == b@[k],
        decreases n - i,
    {
        if a[i] != b[i] {
            return false;
        }
        i = i + 1;
    }
    assert(a@ =~= b@);
    true
}

fn scalars_eq(a: &Vec<Scalar>, b: &Vec<Scalar>) -> (r: bool)
    ensures
        r == (a@ == b@),
{
    if a.len() != b.len() {
        return false;
    }
    let n = a.len();
    let mut i: usize = 0;
    while i < n
        invariant
            n == a@.len() == b@.len(),
            i <= n,
            forall|k: int| 0 <= k < i ==> a@[k] == b@[k],
        decreases n - i,
    {
        if a[i] != b[i] {
            return false;
        }
        i = i + 1;
    }
    assert(a@ =~= b@);
    true
}

proof fn lemma_data_seq_index(vs: Seq<Value>)
    ensures
        data_seq(vs).len() == vs.len(),
        forall|k: int| 0 <= k < vs.len() ==> #[trigger] data_seq(vs)[k] == vs[k]@,
    decreases vs.len(),
{
    if vs.len() > 0 {
        let rest = vs.subrange(1, vs.len() as int);
        lemma_data_seq_index(rest);
        assert forall|k: int| 0 <= k < vs.len() implies #[trigger] data_seq(vs)[k] == vs[k]@ by {
            if k > 0 {
                assert(data_seq(vs)[k] == data_seq(rest)[k - 1]);
                assert(rest[k - 1] == vs[k]);
            }
        }
    }
}

/// Whether two values have the same content.
pub fn value_eq(a: &Value, b: &Value) -> (r: bool)
    ensures
        r == (a@ == b@),
    decreases a,
{
    match (a, b) {
        (Value::Scalar(x), Value::Scalar(y)) => *x == *y,
        (Value::Variant(x), Value::Variant(y)) => *x == *y,
        (Value::Bytes(x), Value::Bytes(y)) => bytes_eq(x, y),
        (Value::Text(x), Value::Text(y)) => x.eq(y),
        (Value::Array(x), Value::Array(y)) => scalars_eq(x, y),
        (Value::Record(x), Value::Record(y)) => {
            proof {
                lemma_data_seq_index(x@);
                lemma_data_seq_index(y@);
            }
            if x.len() != y.len() {
                return false;
            }
            let n = x.len();
            let mut i: usize = 0;
            while i < n
                invariant
                    *a == Value::Record(*x),
                    *b == Value::Record(*y),
                    n == x@.len() == y@.len(),
                    i <= n,
                    data_seq(x@).len() == n && data_seq(y@).len() == n,
                    forall|k: int| 0 <= k < n ==> #[trigger] data_seq(x@)[k] == x@[k]@,
                    forall|k: int| 0 <= k < n ==> #[trigger] data_seq(y@)[k] == y@[k]@,
                    forall|k: int| 0 <= k < i ==> x@[k]@ == y@[k]@,
                decreases n - i,
            {
                proof {
                    assert(decreases_to!(*a => a->Record_0));
                    assert(decreases_to!(*x => x@));
                    assert(decreases_to!(x@ => x@[i as int]));
                }
                if !value_eq(&x[i], &y[i]) {
                    proof {
                        assert(data_seq(x@)[i as int] != data_seq(y@)[i as int]);
                    }
                    return false;
                }
                i = i + 1;
            }
            proof {
                assert(data_seq(x@) =~= data_seq(y@));
            }
            true
        },
        _ => false,
    }
}

impl PartialEq for Value {
    fn eq(&self, other: &Value) -> (r: bool) {
        value_eq(self, other)
    }
}

impl vstd::std_specs::cmp::PartialEqSpecImpl for Value {
    open spec fn obeys_eq_spec() -> bool {
        true
    }

    open spec fn eq_spec(&self, other: &Value) -> bool {
        self@ == other@
    }
}

} // verus!
