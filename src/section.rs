//! Encoding and decoding one bitfield section.
use vstd::prelude::*;
use crate::bits::{
    bits_number, bits_of, bits_to_number, lemma_bits_of_len, lemma_bits_value_bound, lemma_pow2_64,
    mask_for_bits, push_bits, push_bits_msb_first,
};
use crate::digits::{
    lemma_pow2_monotonic, pow2, push_uint, read_uint, uint_value, ByteOrder,
};
use crate::model::{
    bit_number, bitfield_datum_of, bitfield_fault, bitfield_scalar, byte_len, decode_section,
    enum_datum, field_wf, from_bit_number, section_bits, section_bytes,
    section_decode, section_defaults, section_fault, section_width,
};
use crate::scalar::{Prim, Scalar};
use crate::schema::{
    data_of, data_seq, Datum, DecodeError, DecodeFault, EncodeError, EnumSchema, FieldDescriptor, FieldKind, Value,
};

verus! {

impl FieldKind {
    /// The width of a bitfield field; `None` for other fields.
    pub fn bit_width(&self) -> (r: Option<u32>)
        ensures
            r is Some <==> self.is_bitfield(),
            r matches Some(w) ==> w == self.width(),
    {
        match self {
            FieldKind::Bitfield(_, w) => Some(*w),
            FieldKind::EnumBitfield(_, w) => Some(*w),
            _ => None,
        }
    }
}

pub proof fn lemma_lookup_from(e: EnumSchema, s: Scalar, from: nat)
    ensures
        e.lookup_from(s, from) matches Some(k) ==> from <= k < e.variants@.len() && e.disc(k) == s,
    decreases e.variants@.len() - from,
{
    if from < e.variants@.len() && e.disc(from) != s {
        lemma_lookup_from(e, s, from + 1);
    }
}

/// The index of the first variant whose discriminant is `s`.
pub fn lookup_variant(e: &EnumSchema, s: Scalar) -> (r: Option<usize>)
    ensures
        match r {
            Some(k) => e.lookup(s) == Some(k as nat),
            None => e.lookup(s) is None,
        },
{
    let n = e.variants.len();
    let mut k: usize = 0;
    while k < n
        invariant
            n == e.variants@.len(),
            k <= n,
            e.lookup(s) == e.lookup_from(s, k as nat),
        decreases n - k,
    {
        if e.variants[k].discriminant == s {
            return Some(k);
        }
        k = k + 1;
    }
    None
}

/// The variant of `e` whose discriminant is `s`.
pub fn enum_value(e: &EnumSchema, s: Scalar) -> (r: Result<Value, DecodeError>)
    ensures
        match enum_datum(*e, s) {
            Ok(d) => r matches Ok(v) && v@ == d,
            Err(f) => r matches Err(err) && err@ == f,
        },
{
    proof {
        lemma_lookup_from(*e, s, 0);
    }
    match lookup_variant(e, s) {
        Some(k) => {
            Ok(Value::Variant(k))
        },
        None => Err(DecodeError::UnknownDiscriminant { enum_name: e.name.clone(), value: s }),
    }
}

/// A copy of the bytes.
pub fn copy_bytes(b: &Vec<u8>) -> (r: Vec<u8>)
    ensures
        r@ == b@,
{
    let mut out: Vec<u8> = Vec::new();
    let n = b.len();
    let mut i: usize = 0;
    while i < n
        invariant
            n == b@.len(),
            i <= n,
            out@ == b@.subrange(0, i as int),
        decreases n - i,
    {
        out.push(b[i]);
        i = i + 1;
        assert(out@ =~= b@.subrange(0, i as int));
    }
    assert(b@.subrange(0, n as int) =~= b@);
    out
}

/// A copy of the value.
pub fn copy_value(v: &Value) -> (r: Value)
    ensures
        r@ == v@,
    decreases v,
{
    match v {
        Value::Scalar(s) => Value::Scalar(*s),
        Value::Variant(k) => Value::Variant(*k),
        Value::Bytes(b) => Value::Bytes(copy_bytes(b)),
        Value::Text(t) => Value::Text(t.clone()),
        Value::Array(a) => {
            let mut out: Vec<Scalar> = Vec::new();
            let n = a.len();
            let mut i: usize = 0;
            while i < n
                invariant
                    n == a@.len(),
                    i <= n,
                    out@ == a@.subrange(0, i as int),
                decreases n - i,
            {
                out.push(a[i]);
                i = i + 1;
                assert(out@ =~= a@.subrange(0, i as int));
            }
            assert(a@.subrange(0, n as int) =~= a@);
            Value::Array(out)
        },
        Value::Record(vs) => {
            let mut out: Vec<Value> = Vec::new();
            let n = vs.len();
            let mut i: usize = 0;
            while i < n
                invariant
                    *v == Value::Record(*vs),
                    n == vs@.len(),
                    i <= n,
                    data_of(out@) == data_of(vs@.subrange(0, i as int)),
                decreases n - i,
            {
                proof {
                    assert(decreases_to!(*v => v->Record_0));
                    assert(decreases_to!(*vs => vs@));
                    assert(decreases_to!(vs@ => vs@[i as int]));
                }
                let c = copy_value(&vs[i]);
                proof {
                    lemma_data_of_push(out@, c);
                    lemma_data_of_push(vs@.subrange(0, i as int), vs@[i as int]);
                    assert(vs@.subrange(0, i as int).push(vs@[i as int]) =~= vs@.subrange(0, i + 1));
                }
                out.push(c);
                i = i + 1;
            }
            assert(vs@.subrange(0, n as int) =~= vs@);
            proof {
                lemma_data_seq(out@);
                lemma_data_seq(vs@);
            }
            Value::Record(out)
        },
    }
}

/// The recursive form of the contents of a sequence of values is its map.
pub proof fn lemma_data_seq(vs: Seq<Value>)
    ensures
        data_seq(vs) == data_of(vs),
    decreases vs.len(),
{
    if vs.len() > 0 {
        lemma_data_seq(vs.subrange(1, vs.len() as int));
        assert(data_seq(vs) =~= data_of(vs));
    } else {
        assert(data_seq(vs) =~= data_of(vs));
    }
}

pub proof fn lemma_data_of_push(vals: Seq<Value>, v: Value)
    ensures
        data_of(vals.push(v)) == data_of(vals).push(v@),
        data_of(vals).len() == vals.len(),
{
    assert(data_of(vals.push(v)) =~= data_of(vals).push(v@));
}

/// The integer that a bitfield field packs for the value `v`, or why it
/// cannot.
fn bitfield_number(f: &FieldDescriptor, v: &Value) -> (r: Result<u128, EncodeError>)
    requires
        f.kind.is_bitfield(),
        1 <= f.kind.width() <= 64,
    ensures
        match bitfield_fault(*f, v@) {
            Some(fault) => r matches Err(e) && e@ == fault,
            None => r matches Ok(x) && x as int == bit_number(bitfield_scalar(f.kind, v@).unwrap()),
        },
{
    let (s, w): (Scalar, u32) = match (&f.kind, v) {
        (FieldKind::Bitfield(p, w), Value::Scalar(s)) => {
            let ok = match s {
                Scalar::Bool(_) => *p == Prim::Bool,
                Scalar::Unsigned(_) => !p.is_signed() && *p != Prim::Bool,
                Scalar::Signed(_) => p.is_signed(),
            };
            if !ok {
                return Err(EncodeError::Mismatch { field: f.name.clone() });
            }
            (*s, *w)
        },
        (FieldKind::EnumBitfield(e, w), Value::Variant(k)) => {
            if *k >= e.variants.len() {
                return Err(EncodeError::Mismatch { field: f.name.clone() });
            }
            (e.variants[*k].discriminant, *w)
        },
        _ => {
            return Err(EncodeError::Mismatch { field: f.name.clone() });
        },
    };
    let mask = mask_for_bits(w);
    proof {
        if w < 64 {
            lemma_pow2_monotonic(w as nat, 64);
        }
        lemma_pow2_64();
        lemma_pow2_monotonic(1, w as nat);
        reveal_with_fuel(pow2, 2);
    }
    let x: u128 = match s {
        Scalar::Bool(b) => if b { 1 } else { 0 },
        Scalar::Unsigned(n) => {
            if n > mask as u128 {
                return Err(EncodeError::BitWidthOverflow { field: f.name.clone(), value: s });
            }
            n
        },
        Scalar::Signed(n) => {
            if n < 0 || n > mask as i128 {
                return Err(EncodeError::BitWidthOverflow { field: f.name.clone(), value: s });
            }
            n as u128
        },
    };
    Ok(x)
}

pub proof fn lemma_section_fault_prefix(fields: Seq<FieldDescriptor>, d: Seq<Datum>, i: nat, k: nat, j: nat)
    requires
        i <= k <= j,
        section_fault(fields, d, i, k) is Some,
    ensures
        section_fault(fields, d, i, j) == section_fault(fields, d, i, k),
    decreases j - k,
{
    if j > k {
        lemma_section_fault_prefix(fields, d, i, k, (j - 1) as nat);
    }
}

pub proof fn lemma_section_width_mono(fields: Seq<FieldDescriptor>, i: nat, k: nat, j: nat)
    requires
        k <= j,
    ensures
        section_width(fields, i, k) <= section_width(fields, i, j),
    decreases j - k,
{
    if j > k {
        lemma_section_width_mono(fields, i, k, (j - 1) as nat);
    }
}

pub proof fn lemma_section_bits_len(fields: Seq<FieldDescriptor>, d: Seq<Datum>, i: nat, k: nat, order: ByteOrder)
    ensures
        section_bits(fields, d, i, k, order).len() == section_width(fields, i, k),
    decreases k - i,
{
    if k > i {
        lemma_section_bits_len(fields, d, i, (k - 1) as nat, order);
        let kind = fields[k - 1].kind;
        lemma_bits_of_len(bit_number(bitfield_scalar(kind, d[k - 1]).unwrap()) as nat, kind.width());
    }
}

/// The conditions under which a run of fields is encoded or decoded as one
/// section.
pub open spec fn section_ok(fields: Seq<FieldDescriptor>, i: nat, j: nat) -> bool {
    &&& i < j <= fields.len()
    &&& forall|k: int| i <= k < j ==> (#[trigger] fields[k]).kind.is_bitfield() && field_wf(fields, k)
    &&& section_width(fields, i, j) <= 64
}

/// The total width of the fields from `i` up to `j`.
fn section_total(fields: &Vec<FieldDescriptor>, i: usize, j: usize) -> (r: u32)
    requires
        section_ok(fields@, i as nat, j as nat),
    ensures
        r == section_width(fields@, i as nat, j as nat),
{
    let mut t: u32 = 0;
    let mut k: usize = i;
    while k < j
        invariant
            section_ok(fields@, i as nat, j as nat),
            i <= k <= j,
            t == section_width(fields@, i as nat, k as nat),
        decreases j - k,
    {
        proof {
            lemma_section_width_mono(fields@, i as nat, (k + 1) as nat, j as nat);
        }
        let w = fields[k].kind.bit_width().unwrap();
        t = t + w;
        k = k + 1;
    }
    t
}

/// Appends the bytes of the section of fields from `i` up to `j`; fails
/// without appending at the first value that cannot be packed.
pub fn encode_section(
    fields: &Vec<FieldDescriptor>,
    vals: &Vec<Value>,
    i: usize,
    j: usize,
    order: ByteOrder,
    out: &mut Vec<u8>,
) -> (r: Result<(), EncodeError>)
    requires
        section_ok(fields@, i as nat, j as nat),
        vals@.len() == fields@.len(),
    ensures
        match section_fault(fields@, data_of(vals@), i as nat, j as nat) {
            Some(f) => r matches Err(e) && e@ == f && final(out)@ == old(out)@,
            None => r is Ok && final(out)@ == old(out)@ + section_bytes(
                fields@,
                data_of(vals@),
                i as nat,
                j as nat,
                order,
            ),
        },
{
    let ghost d = data_of(vals@);
    let mut g: Vec<bool> = Vec::new();
    let mut total: u32 = 0;
    let mut k: usize = i;
    while k < j
        invariant
            section_ok(fields@, i as nat, j as nat),
            vals@.len() == fields@.len(),
            d == data_of(vals@),
            i <= k <= j,
            total == section_width(fields@, i as nat, k as nat),
            g@ == section_bits(fields@, d, i as nat, k as nat, order),
            section_fault(fields@, d, i as nat, k as nat) is None,
            out@ == old(out)@,
        decreases j - k,
    {
        proof {
            lemma_section_width_mono(fields@, i as nat, (k + 1) as nat, j as nat);
            assert(field_wf(fields@, k as int));
        }
        let f = &fields[k];
        let w = f.kind.bit_width().unwrap();
        match bitfield_number(f, &vals[k]) {
            Err(e) => {
                proof {
                    lemma_section_fault_prefix(fields@, d, i as nat, (k + 1) as nat, j as nat);
                }
                return Err(e);
            },
            Ok(x) => {
                match order {
                    ByteOrder::Le => push_bits(&mut g, x, w as usize),
                    ByteOrder::Be => push_bits_msb_first(&mut g, x, w as usize),
                }
            },
        }
        total = total + w;
        k = k + 1;
    }
    proof {
        lemma_section_bits_len(fields@, d, i as nat, j as nat, order);
    }
    let a = bits_to_number(&g);
    let len: usize = ((total + 7) / 8) as usize;
    push_uint(out, a, len, match order {
        ByteOrder::Be => ByteOrder::Le,
        ByteOrder::Le => ByteOrder::Be,
    });
    Ok(())
}

proof fn lemma_section_decode_prefix(fields: Seq<FieldDescriptor>, g: Seq<bool>, i: nat, k: nat, j: nat, order: ByteOrder)
    requires
        i <= k <= j,
        section_decode(fields, g, i, k, order) is Err,
    ensures
        section_decode(fields, g, i, j, order) == section_decode(fields, g, i, k, order),
    decreases j - k,
{
    if j > k {
        lemma_section_decode_prefix(fields, g, i, k, (j - 1) as nat, order);
    }
}

proof fn lemma_section_defaults_prefix(fields: Seq<FieldDescriptor>, i: nat, k: nat, j: nat)
    requires
        i <= k <= j,
        section_defaults(fields, i, k) is None,
    ensures
        section_defaults(fields, i, j) is None,
    decreases j - k,
{
    if j > k {
        lemma_section_defaults_prefix(fields, i, k, (j - 1) as nat);
    }
}

/// The value that a bitfield field holding `x` decodes to.
fn bitfield_value(kind: &FieldKind, x: u128) -> (r: Result<Value, DecodeError>)
    requires
        kind.is_bitfield(),
        x < 0x1_0000_0000_0000_0000,
    ensures
        match bitfield_datum_of(*kind, x as nat) {
            Ok(d) => r matches Ok(v) && v@ == d,
            Err(f) => r matches Err(e) && e@ == f,
        },
{
    match kind {
        FieldKind::Bitfield(p, _) => Ok(Value::Scalar(scalar_of_bit_number(*p, x))),
        FieldKind::EnumBitfield(e, _) => enum_value(e, scalar_of_bit_number(e.repr, x)),
        _ => Err(DecodeError::BufferTooShort),
    }
}

fn scalar_of_bit_number(p: Prim, x: u128) -> (r: Scalar)
    requires
        x < 0x1_0000_0000_0000_0000,
    ensures
        r == from_bit_number(p, x as nat),
{
    if p == Prim::Bool {
        Scalar::Bool(x == 1)
    } else if p.is_signed() {
        Scalar::Signed(x as i128)
    } else {
        Scalar::Unsigned(x)
    }
}

/// Decodes the section of fields from `i` up to `j` at `pos`: the values and
/// the position after the section. Where fewer bytes remain than the section
/// needs, every field takes its default without advancing, or, if one has
/// none, decoding fails.
pub fn decode_section_at(
    fields: &Vec<FieldDescriptor>,
    buf: &[u8],
    i: usize,
    j: usize,
    pos: usize,
    order: ByteOrder,
) -> (r: Result<(Vec<Value>, usize), DecodeError>)
    requires
        section_ok(fields@, i as nat, j as nat),
    ensures
        match decode_section(fields@, buf@, i as nat, j as nat, pos as nat, order) {
            Ok((vs, p)) => r matches Ok((v, q)) && data_of(v@) == vs && q == p,
            Err(f) => r matches Err(e) && e@ == f,
        },
{
    let total = section_total(fields, i, j);
    let len: usize = ((total + 7) / 8) as usize;
    let n = buf.len();
    let mut vs: Vec<Value> = Vec::new();
    proof {
        assert(data_of(vs@) =~= Seq::<Datum>::empty());
    }
    if pos > n || len > n - pos {
        let mut k: usize = i;
        while k < j
            invariant
                section_ok(fields@, i as nat, j as nat),
                i <= k <= j,
                total == section_width(fields@, i as nat, j as nat),
                len == byte_len(total as nat),
                pos + len > buf@.len(),
                section_defaults(fields@, i as nat, k as nat) == Some(data_of(vs@)),
            decreases j - k,
        {
            match &fields[k].default {
                Some(v) => {
                    let c = copy_value(v);
                    proof {
                        lemma_data_of_push(vs@, c);
                    }
                    vs.push(c);
                },
                None => {
                    proof {
                        lemma_section_defaults_prefix(fields@, i as nat, (k + 1) as nat, j as nat);
                    }
                    return Err(DecodeError::BufferTooShort);
                },
            }
            k = k + 1;
        }
        return Ok((vs, pos));
    }
    let a = read_uint(buf, pos, len, match order {
        ByteOrder::Be => ByteOrder::Le,
        ByteOrder::Le => ByteOrder::Be,
    });
    let mut g: Vec<bool> = Vec::new();
    push_bits(&mut g, a, total as usize);
    proof {
        assert(g@ =~= bits_of(a as nat, total as nat));
        lemma_bits_of_len(a as nat, total as nat);
    }
    let ghost gs = g@;
    let mut start: u32 = 0;
    let mut k: usize = i;
    while k < j
        invariant
            section_ok(fields@, i as nat, j as nat),
            i <= k <= j,
            total == section_width(fields@, i as nat, j as nat),
            g@ == gs,
            gs.len() == total,
            len == byte_len(total as nat),
            pos + len <= buf@.len(),
            a as nat == uint_value(buf@.subrange(pos as int, (pos + len) as int), order.flipped()),
            gs == bits_of(a as nat, total as nat),
            start == section_width(fields@, i as nat, k as nat),
            section_decode(fields@, gs, i as nat, k as nat, order) == Ok::<Seq<Datum>, DecodeFault>(data_of(vs@)),
        decreases j - k,
    {
        proof {
            lemma_section_width_mono(fields@, i as nat, (k + 1) as nat, j as nat);
            assert(field_wf(fields@, k as int));
        }
        let w = fields[k].kind.bit_width().unwrap();
        let x = bits_number(&g, start as usize, w as usize, match order {
            ByteOrder::Be => true,
            ByteOrder::Le => false,
        });
        proof {
            let sub = gs.subrange(start as int, start + w);
            lemma_bits_value_bound(sub);
            lemma_bits_value_bound(sub.reverse());
            lemma_pow2_monotonic(w as nat, 64);
            lemma_pow2_64();
            if sub.len() > 0 {
                assert(sub.reverse().len() == sub.len());
            }
        }
        match bitfield_value(&fields[k].kind, x) {
            Err(e) => {
                proof {
                    lemma_section_decode_prefix(fields@, gs, i as nat, (k + 1) as nat, j as nat, order);
                }
                return Err(e);
            },
            Ok(v) => {
                proof {
                    lemma_data_of_push(vs@, v);
                }
                vs.push(v);
            },
        }
        start = start + w;
        k = k + 1;
    }
    Ok((vs, pos + len))
}

/// A decoded section holds one value for each of its fields.
pub proof fn lemma_section_len(fields: Seq<FieldDescriptor>, buf: Seq<u8>, i: nat, j: nat, pos: nat, order: ByteOrder)
    requires
        i <= j,
    ensures
        decode_section(fields, buf, i, j, pos, order) matches Ok((vs, _)) ==> vs.len() == j - i,
{
    let w = section_width(fields, i, j);
    let a = uint_value(buf.subrange(pos as int, (pos + byte_len(w)) as int), order.flipped());
    lemma_section_defaults_len(fields, i, j);
    lemma_section_decode_len(fields, bits_of(a, w), i, j, order);
}

proof fn lemma_section_defaults_len(fields: Seq<FieldDescriptor>, i: nat, j: nat)
    requires
        i <= j,
    ensures
        section_defaults(fields, i, j) matches Some(vs) ==> vs.len() == j - i,
    decreases j - i,
{
    if j > i {
        lemma_section_defaults_len(fields, i, (j - 1) as nat);
    }
}

proof fn lemma_section_decode_len(fields: Seq<FieldDescriptor>, g: Seq<bool>, i: nat, j: nat, order: ByteOrder)
    requires
        i <= j,
    ensures
        section_decode(fields, g, i, j, order) matches Ok(vs) ==> vs.len() == j - i,
    decreases j - i,
{
    if j > i {
        lemma_section_decode_len(fields, g, i, (j - 1) as nat, order);
    }
}

} // verus!
