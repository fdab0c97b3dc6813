//! What encoding and decoding a record mean, as functions on sequences.
use vstd::prelude::*;
use crate::bits::{bits_of, bits_value};
use crate::digits::{pow2, uint_bytes, uint_value, ByteOrder};
use crate::scalar::{scalar_bytes, scalar_of_bytes, fits, Prim, Scalar};
use crate::schema::{
    same_family, Datum, DecodeFault, EncodeFault, EnumSchema, FieldDescriptor, FieldKind,
    RecordSchema, Terminator,
};
use crate::text::{delimited_run, text_of};

verus! {

// ----- bitfield sections -----

/// The integer that a bitfield packs for a scalar.
pub open spec fn bit_number(s: Scalar) -> int {
    match s {
        Scalar::Bool(b) => if b { 1 } else { 0 },
        Scalar::Unsigned(v) => v as int,
        Scalar::Signed(v) => v as int,
    }
}

/// The scalar of type `p` that a bitfield holding `x` decodes to.
pub open spec fn from_bit_number(p: Prim, x: nat) -> Scalar {
    if p == Prim::Bool {
        Scalar::Bool(x == 1)
    } else if p.spec_is_signed() {
        Scalar::Signed(x as i128)
    } else {
        Scalar::Unsigned(x as u128)
    }
}

/// The scalar that a bitfield field packs for the value `d`, where `d` is of
/// the field's kind.
pub open spec fn bitfield_scalar(kind: FieldKind, d: Datum) -> Option<Scalar> {
    match kind {
        FieldKind::Bitfield(p, _) => match d {
            Datum::Scalar(s) => if same_family(p, s) { Some(s) } else { None },
            _ => None,
        },
        FieldKind::EnumBitfield(e, _) => match d {
            Datum::Variant(k) => if k < e.variants@.len() { Some(e.disc(k)) } else { None },
            _ => None,
        },
        _ => None,
    }
}

/// Why the value `d` cannot be packed into the bitfield field `f`, if it
/// cannot: it is not of the field's kind, or its integer is negative or not
/// below `2^width`.
pub open spec fn bitfield_fault(f: FieldDescriptor, d: Datum) -> Option<EncodeFault> {
    match bitfield_scalar(f.kind, d) {
        None => Some(EncodeFault::Mismatch { field: f.name@ }),
        Some(s) => if 0 <= bit_number(s) < pow2(f.kind.width()) {
            None
        } else {
            Some(EncodeFault::BitWidthOverflow { field: f.name@, value: s })
        },
    }
}

/// The bits that a bitfield field contributes to its section, in section
/// order: most significant first in big-endian mode, least significant first
/// in little-endian mode.
pub open spec fn field_bits(kind: FieldKind, d: Datum, order: ByteOrder) -> Seq<bool> {
    let x = bit_number(bitfield_scalar(kind, d).unwrap()) as nat;
    match order {
        ByteOrder::Le => bits_of(x, kind.width()),
        ByteOrder::Be => bits_of(x, kind.width()).reverse(),
    }
}

/// The total width of the fields from `i` up to `j`.
pub open spec fn section_width(fields: Seq<FieldDescriptor>, i: nat, j: nat) -> nat
    decreases j - i,
{
    if j <= i {
        0
    } else {
        section_width(fields, i, (j - 1) as nat) + fields[j - 1].kind.width()
    }
}

/// The first fault among the bitfield fields from `i` up to `j`.
pub open spec fn section_fault(fields: Seq<FieldDescriptor>, vals: Seq<Datum>, i: nat, j: nat) -> Option<EncodeFault>
    decreases j - i,
{
    if j <= i {
        None
    } else {
        match section_fault(fields, vals, i, (j - 1) as nat) {
            Some(f) => Some(f),
            None => bitfield_fault(fields[j - 1], vals[j - 1]),
        }
    }
}

/// The bits of the section of fields from `i` up to `j`, in section order.
pub open spec fn section_bits(fields: Seq<FieldDescriptor>, vals: Seq<Datum>, i: nat, j: nat, order: ByteOrder) -> Seq<bool>
    decreases j - i,
{
    if j <= i {
        Seq::empty()
    } else {
        section_bits(fields, vals, i, (j - 1) as nat, order) + field_bits(fields[j - 1].kind, vals[j - 1], order)
    }
}

/// The number of bytes that hold `bits` bits.
pub open spec fn byte_len(bits: nat) -> nat {
    (bits + 7) / 8
}

/// The bytes of a section. Section bit `g` is bit `g % 8` of byte `g / 8` in
/// big-endian mode, and of byte `len - 1 - g / 8` in little-endian mode.
pub open spec fn section_bytes(fields: Seq<FieldDescriptor>, vals: Seq<Datum>, i: nat, j: nat, order: ByteOrder) -> Seq<u8> {
    uint_bytes(
        bits_value(section_bits(fields, vals, i, j, order)),
        byte_len(section_width(fields, i, j)),
        order.flipped(),
    )
}

/// The end of the run of bitfield fields that contains field `i`.
pub open spec fn run_end(fields: Seq<FieldDescriptor>, i: nat) -> nat
    decreases fields.len() - i,
{
    if i >= fields.len() || !fields[i as int].kind.is_bitfield() {
        i
    } else {
        run_end(fields, i + 1)
    }
}

/// The value that a bitfield field holding the bits `g` decodes to.
pub open spec fn bitfield_datum(kind: FieldKind, g: Seq<bool>, order: ByteOrder) -> Result<Datum, DecodeFault> {
    let x = match order {
        ByteOrder::Le => bits_value(g),
        ByteOrder::Be => bits_value(g.reverse()),
    };
    bitfield_datum_of(kind, x)
}

/// The value that a bitfield field holding the integer `x` decodes to.
pub open spec fn bitfield_datum_of(kind: FieldKind, x: nat) -> Result<Datum, DecodeFault> {
    match kind {
        FieldKind::Bitfield(p, _) => Ok(Datum::Scalar(from_bit_number(p, x))),
        FieldKind::EnumBitfield(e, _) => enum_datum(e, from_bit_number(e.repr, x)),
        _ => Err(DecodeFault::BufferTooShort),
    }
}

/// The variant of `e` whose discriminant is `s`.
pub open spec fn enum_datum(e: EnumSchema, s: Scalar) -> Result<Datum, DecodeFault> {
    match e.lookup(s) {
        Some(k) => Ok(Datum::Variant(k)),
        None => Err(DecodeFault::UnknownDiscriminant { enum_name: e.name@, value: s }),
    }
}

/// The values of the bitfield fields from `i` up to `j`, read from the
/// section bits `g`.
pub open spec fn section_decode(fields: Seq<FieldDescriptor>, g: Seq<bool>, i: nat, j: nat, order: ByteOrder) -> Result<Seq<Datum>, DecodeFault>
    decreases j - i,
{
    if j <= i {
        Ok(Seq::empty())
    } else {
        match section_decode(fields, g, i, (j - 1) as nat, order) {
            Err(f) => Err(f),
            Ok(vs) => match bitfield_datum(
                fields[j - 1].kind,
                g.subrange(section_width(fields, i, (j - 1) as nat) as int, section_width(fields, i, j) as int),
                order,
            ) {
                Err(f) => Err(f),
                Ok(d) => Ok(vs.push(d)),
            },
        }
    }
}

/// The default values of the fields from `i` up to `j`, if each has one.
pub open spec fn section_defaults(fields: Seq<FieldDescriptor>, i: nat, j: nat) -> Option<Seq<Datum>>
    decreases j - i,
{
    if j <= i {
        Some(Seq::empty())
    } else {
        match section_defaults(fields, i, (j - 1) as nat) {
            None => None,
            Some(vs) => match fields[j - 1].default {
                Some(v) => Some(vs.push(v@)),
                None => None,
            },
        }
    }
}

/// Decoding the section of fields from `i` up to `j` at `pos`: its values and
/// the position after it.
pub open spec fn decode_section(fields: Seq<FieldDescriptor>, buf: Seq<u8>, i: nat, j: nat, pos: nat, order: ByteOrder) -> Result<(Seq<Datum>, nat), DecodeFault> {
    let w = section_width(fields, i, j);
    let len = byte_len(w);
    if pos + len > buf.len() {
        match section_defaults(fields, i, j) {
            Some(vs) => Ok((vs, pos)),
            None => Err(DecodeFault::BufferTooShort),
        }
    } else {
        let a = uint_value(buf.subrange(pos as int, (pos + len) as int), order.flipped());
        match section_decode(fields, bits_of(a, w), i, j, order) {
            Ok(vs) => Ok((vs, pos + len)),
            Err(f) => Err(f),
        }
    }
}

// ----- other fields -----

/// Whether `d` is a value of the (non-bitfield) kind `kind`.
pub open spec fn conforms(kind: FieldKind, d: Datum) -> bool {
    match kind {
        FieldKind::Scalar(p) => d matches Datum::Scalar(s) && fits(p, s),
        FieldKind::Enum(e) => d matches Datum::Variant(k) && k < e.variants@.len(),
        FieldKind::Bytes(_) => d is Bytes,
        FieldKind::Text(_) => d is Text,
        FieldKind::Array(p, n) => d matches Datum::Array(xs) && xs.len() == n && forall|k: int|
            0 <= k < xs.len() ==> fits(p, #[trigger] xs[k]),
        _ => false,
    }
}

/// The bytes of the primitives `xs` of type `p`, back to back.
pub open spec fn array_bytes(p: Prim, xs: Seq<Scalar>, order: ByteOrder) -> Seq<u8>
    decreases xs.len(),
{
    if xs.len() == 0 {
        Seq::empty()
    } else {
        array_bytes(p, xs.drop_last(), order) + scalar_bytes(p, xs.last(), order)
    }
}

/// The bytes a delimiter-terminated run ends with.
pub open spec fn terminator_bytes(t: Terminator) -> Seq<u8> {
    match t {
        Terminator::Delimiter(d) => d@,
        _ => Seq::empty(),
    }
}

/// The bytes of the value `d` of the (non-bitfield) kind `kind`.
pub open spec fn field_bytes(kind: FieldKind, d: Datum, order: ByteOrder) -> Seq<u8> {
    match kind {
        FieldKind::Scalar(p) => scalar_bytes(p, d->Scalar_0, order),
        FieldKind::Enum(e) => scalar_bytes(e.repr, e.disc(d->Variant_0), order),
        FieldKind::Bytes(t) => d->Bytes_0 + terminator_bytes(t),
        FieldKind::Text(t) => vstd::utf8::encode_utf8(d->Text_0) + terminator_bytes(t),
        FieldKind::Array(p, _) => array_bytes(p, d->Array_0, order),
        _ => Seq::empty(),
    }
}

/// The length that a length-source field's value gives.
pub open spec fn length_of(d: Datum) -> nat {
    match d {
        Datum::Scalar(Scalar::Unsigned(v)) => v as nat,
        _ => 0,
    }
}

/// Where a run that starts at `pos` ends: the end of its payload and the
/// position after it; `acc` holds the values decoded before it.
pub open spec fn terminator_run(t: Terminator, buf: Seq<u8>, pos: nat, acc: Seq<Datum>) -> Result<(nat, nat), DecodeFault> {
    match t {
        Terminator::Delimiter(d) => delimited_run(buf, pos, Some(d@)),
        Terminator::Rest => delimited_run(buf, pos, None),
        Terminator::LengthOf(k) => {
            let n = length_of(acc[k as int]);
            if pos + n <= buf.len() {
                Ok((pos + n, pos + n))
            } else {
                Err(DecodeFault::BufferTooShort)
            }
        },
    }
}

/// The `n` primitives of type `p` at `pos`, back to back.
pub open spec fn array_of_bytes(p: Prim, buf: Seq<u8>, pos: nat, n: nat, order: ByteOrder) -> Seq<Scalar>
    decreases n,
{
    if n == 0 {
        Seq::empty()
    } else {
        let size = p.spec_size();
        array_of_bytes(p, buf, pos, (n - 1) as nat, order).push(
            scalar_of_bytes(p, buf.subrange(pos + (n - 1) * size, (pos + n * size) as int), order),
        )
    }
}

/// Decoding a (non-bitfield) field of kind `kind` at `pos`, before any
/// default is substituted.
pub open spec fn decode_kind(kind: FieldKind, buf: Seq<u8>, pos: nat, acc: Seq<Datum>, order: ByteOrder) -> Result<(Datum, nat), DecodeFault> {
    match kind {
        FieldKind::Scalar(p) => if pos + p.spec_size() <= buf.len() {
            Ok((Datum::Scalar(scalar_of_bytes(p, buf.subrange(pos as int, (pos + p.spec_size()) as int), order)), pos + p.spec_size()))
        } else {
            Err(DecodeFault::BufferTooShort)
        },
        FieldKind::Enum(e) => if pos + e.repr.spec_size() <= buf.len() {
            match enum_datum(e, scalar_of_bytes(e.repr, buf.subrange(pos as int, (pos + e.repr.spec_size()) as int), order)) {
                Ok(d) => Ok((d, pos + e.repr.spec_size())),
                Err(f) => Err(f),
            }
        } else {
            Err(DecodeFault::BufferTooShort)
        },
        FieldKind::Bytes(t) => match terminator_run(t, buf, pos, acc) {
            Ok((e, n)) => Ok((Datum::Bytes(buf.subrange(pos as int, e as int)), n)),
            Err(f) => Err(f),
        },
        FieldKind::Text(t) => match terminator_run(t, buf, pos, acc) {
            Ok((e, n)) => Ok((Datum::Text(text_of(buf.subrange(pos as int, e as int))), n)),
            Err(f) => Err(f),
        },
        FieldKind::Array(p, n) => if pos + n * p.spec_size() <= buf.len() {
            Ok((Datum::Array(array_of_bytes(p, buf, pos, n as nat, order)), (pos + n * p.spec_size()) as nat))
        } else {
            Err(DecodeFault::BufferTooShort)
        },
        _ => Err(DecodeFault::BufferTooShort),
    }
}

/// Decoding the (non-bitfield) field `f` at `pos`: where the input runs out,
/// its default, if it has one, without advancing.
pub open spec fn decode_field(f: FieldDescriptor, buf: Seq<u8>, pos: nat, acc: Seq<Datum>, order: ByteOrder) -> Result<(Datum, nat), DecodeFault> {
    with_default(f, decode_kind(f.kind, buf, pos, acc, order), pos)
}

/// The outcome `raw` of decoding field `f` at `pos`, with the field's
/// default, if it has one, in place of running out of input.
pub open spec fn with_default(f: FieldDescriptor, raw: Result<(Datum, nat), DecodeFault>, pos: nat) -> Result<(Datum, nat), DecodeFault> {
    match raw {
        Err(DecodeFault::BufferTooShort) => match f.default {
            Some(v) => Ok((v@, pos)),
            None => Err(DecodeFault::BufferTooShort),
        },
        r => r,
    }
}

// ----- records -----

/// The bytes of the values `vals` of the fields from `i` on, or the first
/// fault.
pub open spec fn encode_from(fields: Seq<FieldDescriptor>, vals: Seq<Datum>, i: nat, order: ByteOrder) -> Result<Seq<u8>, EncodeFault>
    decreases fields, fields.len() - i,
{
    if i >= fields.len() {
        Ok(Seq::empty())
    } else if fields[i as int].kind.is_bitfield() {
        let j = run_end(fields, i);
        if j <= i || j > fields.len() {
            Ok(Seq::empty())
        } else {
            match section_fault(fields, vals, i, j) {
                Some(f) => Err(f),
                None => match encode_from(fields, vals, j, order) {
                    Ok(r) => Ok(section_bytes(fields, vals, i, j, order) + r),
                    Err(f) => Err(f),
                },
            }
        }
    } else if fields[i as int].kind is Nested {
        let r = fields[i as int].kind->Nested_0;
        if !(vals[i as int] matches Datum::Record(sub) && sub.len() == r.fields@.len()) {
            Err(EncodeFault::Mismatch { field: fields[i as int].name@ })
        } else {
            match encode_from(r.fields@, vals[i as int]->Record_0, 0, order) {
                Err(f) => Err(f),
                Ok(nb) => match encode_from(fields, vals, i + 1, order) {
                    Ok(rest) => Ok(nb + rest),
                    Err(f) => Err(f),
                },
            }
        }
    } else if !conforms(fields[i as int].kind, vals[i as int]) {
        Err(EncodeFault::Mismatch { field: fields[i as int].name@ })
    } else {
        match encode_from(fields, vals, i + 1, order) {
            Ok(r) => Ok(field_bytes(fields[i as int].kind, vals[i as int], order) + r),
            Err(f) => Err(f),
        }
    }
}

/// The bytes of a record with the values `vals`, or why it cannot be encoded.
pub open spec fn encoding(schema: RecordSchema, vals: Seq<Datum>, order: ByteOrder) -> Result<Seq<u8>, EncodeFault> {
    if vals.len() != schema.fields@.len() {
        Err(EncodeFault::FieldCount { expected: schema.fields@.len(), found: vals.len() })
    } else {
        encode_from(schema.fields@, vals, 0, order)
    }
}

/// Decoding the fields from `i` on at `pos`, after the values `acc`: all the
/// values and the position after the last field, or the first fault.
pub open spec fn decode_from(fields: Seq<FieldDescriptor>, buf: Seq<u8>, i: nat, pos: nat, acc: Seq<Datum>, order: ByteOrder) -> Result<(Seq<Datum>, nat), DecodeFault>
    decreases fields, fields.len() - i,
{
    if i >= fields.len() {
        Ok((acc, pos))
    } else if fields[i as int].kind.is_bitfield() {
        let j = run_end(fields, i);
        if j <= i || j > fields.len() {
            Err(DecodeFault::BufferTooShort)
        } else {
            match decode_section(fields, buf, i, j, pos, order) {
                Err(f) => Err(f),
                Ok((vs, p)) => decode_from(fields, buf, j, p, acc + vs, order),
            }
        }
    } else {
        let raw = if fields[i as int].kind is Nested {
            match decode_from(fields[i as int].kind->Nested_0.fields@, buf, 0, pos, Seq::empty(), order) {
                Ok((vs, p)) => Ok((Datum::Record(vs), p)),
                Err(f) => Err(f),
            }
        } else {
            decode_kind(fields[i as int].kind, buf, pos, acc, order)
        };
        match with_default(fields[i as int], raw, pos) {
            Err(f) => Err(f),
            Ok((d, p)) => decode_from(fields, buf, i + 1, p, acc.push(d), order),
        }
    }
}

/// Decoding a record at `pos`: its values and the position after it, or the
/// first fault.
pub open spec fn decoding(schema: RecordSchema, buf: Seq<u8>, pos: nat, order: ByteOrder) -> Result<(Seq<Datum>, nat), DecodeFault> {
    decode_from(schema.fields@, buf, 0, pos, Seq::empty(), order)
}

// ----- well-formed schemas -----

/// Whether a field may be the length source of a run.
pub open spec fn is_length_source(kind: FieldKind) -> bool {
    match kind {
        FieldKind::Scalar(p) => p.spec_is_unsigned(),
        FieldKind::Bitfield(p, _) => p.spec_is_unsigned(),
        _ => false,
    }
}

/// The conditions on field `i` of `fields`, apart from those on a nested
/// record's own fields.
pub open spec fn field_wf(fields: Seq<FieldDescriptor>, i: int) -> bool {
    match fields[i].kind {
        FieldKind::Bitfield(p, w) => 1 <= w && w < p.bits() && w <= 64,
        FieldKind::EnumBitfield(e, w) => e.wf() && 1 <= w && w < e.repr.bits() && w <= 64,
        FieldKind::Enum(e) => e.wf(),
        FieldKind::Bytes(Terminator::LengthOf(k)) | FieldKind::Text(Terminator::LengthOf(k)) => k < i
            && is_length_source(fields[k as int].kind),
        FieldKind::Array(_, n) => n * 16 <= usize::MAX,
        _ => true,
    }
}

/// Each field is well formed, nested records included, and each run of
/// bitfields fits in 64 bits.
pub open spec fn fields_wf(fields: Seq<FieldDescriptor>) -> bool
    decreases fields,
{
    &&& forall|i: int| 0 <= i < fields.len() ==> field_wf(fields, i)
    &&& forall|i: nat| i < fields.len() && (#[trigger] fields[i as int]).kind.is_bitfield()
        ==> section_width(fields, i, run_end(fields, i)) <= 64
    &&& forall|i: int| 0 <= i < fields.len() && (#[trigger] fields[i]).kind is Nested
        ==> fields_wf(fields[i].kind->Nested_0.fields@)
}

impl RecordSchema {
    /// Each field is well formed, nested records included, and each run of
    /// bitfields fits in 64 bits.
    pub open spec fn wf(self) -> bool {
        fields_wf(self.fields@)
    }
}

} // verus!
