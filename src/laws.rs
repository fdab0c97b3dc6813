//! Laws relating encoding and decoding.
use vstd::prelude::*;
use vstd::utf8::{encode_utf8, encode_utf8_decode_utf8, encode_utf8_valid_utf8};
use crate::bits::{
    bits_of, bits_value, lemma_bits_of_value, lemma_bits_round_trip,
    lemma_bits_value_bound, lemma_pow2_64,
};
use crate::digits::{
    lemma_pow256_is_pow2, lemma_pow2_monotonic, lemma_uint_round_trip,
    pow2, ByteOrder,
};
use crate::model::{
    array_bytes, array_of_bytes, bit_number, bitfield_datum, bitfield_fault, bitfield_scalar,
    byte_len, conforms, decode_field, decode_from, decode_kind, decode_section, decoding,
    encode_from, encoding, field_bits, field_bytes, field_wf, fields_wf, from_bit_number, length_of,
    run_end, section_bits, section_bytes, section_decode, section_fault, section_width,
    terminator_bytes,
};
use crate::scalar::{lemma_scalar_round_trip, scalar_bytes, Prim, Scalar};
use crate::schema::{
    same_family, Datum, DecodeFault, EncodeFault, EnumSchema, FieldDescriptor, FieldKind,
    RecordSchema, Terminator,
};
use crate::text::{decoded_text, first_occurrence, occurs_at, text_bytes, text_of};

verus! {

/// The bytes a byte or text value is made of.
pub open spec fn payload(d: Datum) -> Seq<u8> {
    match d {
        Datum::Bytes(b) => b,
        Datum::Text(t) => encode_utf8(t),
        _ => Seq::empty(),
    }
}

/// Whether the delimiter `d` first occurs in `p + d` right after `p`.
pub open spec fn delimiter_free(p: Seq<u8>, d: Seq<u8>) -> bool {
    forall|q: int| 0 <= q < p.len() ==> !occurs_at(p + d, d, q)
}

/// What decoding a run field needs of its value to give it back: a
/// delimited run holds no earlier occurrence of its delimiter, a
/// length-sourced run is as long as its source says, and a run that extends
/// to the end of the input is the last field of a record that ends the input
/// (`at_end`).
pub open spec fn run_value_ok(fields: Seq<FieldDescriptor>, vals: Seq<Datum>, k: int, at_end: bool) -> bool {
    match fields[k].kind {
        FieldKind::Bytes(t) | FieldKind::Text(t) => match t {
            Terminator::Delimiter(d) => delimiter_free(payload(vals[k]), d@),
            Terminator::Rest => at_end && k == fields.len() - 1,
            Terminator::LengthOf(s) => length_of(vals[s as int]) == payload(vals[k]).len(),
        },
        _ => true,
    }
}

/// Whether every run field of the records, nested ones included, can be
/// given back by decoding; `at_end` says whether the record ends the input.
pub open spec fn runs_ok(fields: Seq<FieldDescriptor>, vals: Seq<Datum>, at_end: bool) -> bool
    decreases fields,
{
    &&& forall|k: int| 0 <= k < fields.len() ==> run_value_ok(fields, vals, k, at_end)
    &&& forall|k: int| 0 <= k < fields.len() && (#[trigger] fields[k]).kind is Nested ==> runs_ok(
        fields[k].kind->Nested_0.fields@,
        vals[k]->Record_0,
        at_end && k == fields.len() - 1,
    )
}

/// Whether every run field of the record can be given back by decoding.
pub open spec fn runs_decodable(schema: RecordSchema, vals: Seq<Datum>) -> bool {
    runs_ok(schema.fields@, vals, true)
}

proof fn lemma_lookup_unique(e: EnumSchema, k: nat, from: nat)
    requires
        e.wf(),
        from <= k < e.variants@.len(),
    ensures
        e.lookup_from(e.disc(k), from) == Some(k),
    decreases k - from,
{
    if from < k {
        assert(e.variants@[from as int].discriminant != e.variants@[k as int].discriminant);
        lemma_lookup_unique(e, k, from + 1);
    }
}

proof fn lemma_utf8_round_trip(t: Seq<char>)
    ensures
        text_of(encode_utf8(t)) == t,
{
    encode_utf8_valid_utf8(t);
    encode_utf8_decode_utf8(t);
}

proof fn lemma_delimiter_found(p: Seq<u8>, d: Seq<u8>, rest: Seq<u8>, from: nat)
    requires
        delimiter_free(p, d),
        from <= p.len(),
    ensures
        first_occurrence(p + d + rest, d, from) == Some(p.len()),
    decreases p.len() - from,
{
    let h = p + d + rest;
    assert(h.subrange(p.len() as int, (p.len() + d.len()) as int) =~= d);
    if from < p.len() {
        assert(!occurs_at(p + d, d, from as int));
        assert(h.subrange(from as int, (from + d.len()) as int) =~= (p + d).subrange(from as int, (from + d.len()) as int));
        lemma_delimiter_found(p, d, rest, from + 1);
    }
}

proof fn lemma_array_round_trip(p: Prim, xs: Seq<Scalar>, buf: Seq<u8>, pos: nat, order: ByteOrder)
    requires
        forall|k: int| 0 <= k < xs.len() ==> crate::scalar::fits(p, #[trigger] xs[k]),
        pos + array_bytes(p, xs, order).len() <= buf.len(),
        buf.subrange(pos as int, pos as int + array_bytes(p, xs, order).len()) == array_bytes(p, xs, order),
    ensures
        array_of_bytes(p, buf, pos, xs.len(), order) == xs,
        array_bytes(p, xs, order).len() == xs.len() * p.spec_size(),
    decreases xs.len(),
{
    if xs.len() > 0 {
        let n = xs.len();
        let size = p.spec_size();
        let ys = xs.drop_last();
        let ab = array_bytes(p, xs, order);
        let ay = array_bytes(p, ys, order);
        let sb = scalar_bytes(p, xs.last(), order);
        assert(crate::scalar::fits(p, xs[n - 1]));
        lemma_scalar_round_trip(p, xs.last(), order);
        assert(ab == ay + sb);
        assert(buf.subrange(pos as int, pos as int + ay.len()) =~= ab.subrange(0, ay.len() as int));
        assert(ab.subrange(0, ay.len() as int) =~= ay);
        assert forall|k: int| 0 <= k < ys.len() implies crate::scalar::fits(p, #[trigger] ys[k]) by {
            assert(ys[k] == xs[k]);
        }
        lemma_array_round_trip(p, ys, buf, pos, order);
        assert((n - 1) * size + size == n * size) by (nonlinear_arith);
        assert(buf.subrange(pos + (n - 1) * size, (pos + n * size) as int) =~= ab.subrange(ay.len() as int, ab.len() as int));
        assert(ab.subrange(ay.len() as int, ab.len() as int) =~= sb);
        assert(array_of_bytes(p, buf, pos, n, order) =~= xs);
    }
}

/// A (non-bitfield) field's bytes decode back to its value.
proof fn lemma_field_round_trip(fields: Seq<FieldDescriptor>, vals: Seq<Datum>, k: int, buf: Seq<u8>, pos: nat, order: ByteOrder, at_end: bool)
    requires
        0 <= k < fields.len() == vals.len(),
        field_wf(fields, k),
        !fields[k].kind.is_bitfield(),
        conforms(fields[k].kind, vals[k]),
        run_value_ok(fields, vals, k, at_end),
        pos + field_bytes(fields[k].kind, vals[k], order).len() <= buf.len(),
        buf.subrange(pos as int, pos as int + field_bytes(fields[k].kind, vals[k], order).len())
            == field_bytes(fields[k].kind, vals[k], order),
        fields[k].kind matches FieldKind::Bytes(Terminator::Rest) ==> pos + field_bytes(fields[k].kind, vals[k], order).len() == buf.len(),
        fields[k].kind matches FieldKind::Text(Terminator::Rest) ==> pos + field_bytes(fields[k].kind, vals[k], order).len() == buf.len(),
    ensures
        decode_field(fields[k], buf, pos, vals.subrange(0, k), order)
            == Ok::<(Datum, nat), DecodeFault>((vals[k], pos + field_bytes(fields[k].kind, vals[k], order).len())),
{
    let kind = fields[k].kind;
    let d = vals[k];
    let fb = field_bytes(kind, d, order);
    let acc = vals.subrange(0, k);
    let end = pos + fb.len();
    match kind {
        FieldKind::Scalar(p) => {
            lemma_scalar_round_trip(p, d->Scalar_0, order);
        },
        FieldKind::Enum(e) => {
            let kk = d->Variant_0;
            lemma_scalar_round_trip(e.repr, e.disc(kk), order);
            assert(crate::scalar::fits(e.repr, e.variants@[kk as int].discriminant));
            lemma_lookup_unique(e, kk, 0);
        },
        FieldKind::Bytes(t) | FieldKind::Text(t) => {
            let pl = payload(d);
            let tb = terminator_bytes(t);
            assert(fb == pl + tb);
            if kind is Text {
                lemma_utf8_round_trip(d->Text_0);
            }
            assert(buf.subrange(pos as int, pos as int + pl.len()) =~= fb.subrange(0, pl.len() as int));
            assert(fb.subrange(0, pl.len() as int) =~= pl);
            match t {
                Terminator::Delimiter(dl) => {
                    let hay = buf.subrange(pos as int, buf.len() as int);
                    let rest = buf.subrange(end as int, buf.len() as int);
                    assert(hay =~= pl + dl@ + rest);
                    lemma_delimiter_found(pl, dl@, rest, 0);
                },
                Terminator::Rest => {},
                Terminator::LengthOf(s) => {
                    assert(acc[s as int] == vals[s as int]);
                },
            }
        },
        FieldKind::Array(p, n) => {
            let xs = d->Array_0;
            lemma_array_round_trip(p, xs, buf, pos, order);
        },
        _ => {},
    }
}

proof fn lemma_reverse_twice<A>(s: Seq<A>)
    ensures
        s.reverse().reverse() == s,
        s.reverse().len() == s.len(),
{
    if s.len() > 0 {
        assert(s.reverse().reverse() =~= s);
    }
}

/// A bitfield value's bits decode back to it.
proof fn lemma_bitfield_round_trip(fields: Seq<FieldDescriptor>, vals: Seq<Datum>, k: int, order: ByteOrder)
    requires
        0 <= k < fields.len() == vals.len(),
        fields[k].kind.is_bitfield(),
        field_wf(fields, k),
        bitfield_fault(fields[k], vals[k]) is None,
    ensures
        bitfield_datum(fields[k].kind, field_bits(fields[k].kind, vals[k], order), order)
            == Ok::<Datum, DecodeFault>(vals[k]),
{
    let kind = fields[k].kind;
    let d = vals[k];
    let s = bitfield_scalar(kind, d).unwrap();
    let w = kind.width();
    let x = bit_number(s) as nat;
    lemma_bits_round_trip(x, w);
    lemma_reverse_twice(bits_of(x, w));
    lemma_pow2_monotonic(w, 64);
    lemma_pow2_64();
    match kind {
        FieldKind::Bitfield(p, _) => {
            assert(from_bit_number(p, x) == s);
        },
        FieldKind::EnumBitfield(e, _) => {
            let kk = d->Variant_0;
            assert(crate::scalar::fits(e.repr, e.variants@[kk as int].discriminant));
            assert(from_bit_number(e.repr, x) == s);
            lemma_lookup_unique(e, kk, 0);
        },
        _ => {},
    }
}

proof fn lemma_section_bits_split(fields: Seq<FieldDescriptor>, vals: Seq<Datum>, i: nat, k: nat, j: nat, order: ByteOrder)
    requires
        i <= k < j,
    ensures
        section_bits(fields, vals, i, j, order).subrange(
            section_width(fields, i, k) as int,
            section_width(fields, i, k + 1) as int,
        ) == field_bits(fields[k as int].kind, vals[k as int], order),
    decreases j - k,
{
    let pre = section_bits(fields, vals, i, (j - 1) as nat, order);
    let fb = field_bits(fields[j - 1].kind, vals[j - 1], order);
    crate::section::lemma_section_bits_len(fields, vals, i, (j - 1) as nat, order);
    crate::section::lemma_section_bits_len(fields, vals, i, j, order);
    if k == j - 1 {
        assert((pre + fb).subrange(pre.len() as int, (pre + fb).len() as int) =~= fb);
    } else {
        lemma_section_bits_split(fields, vals, i, k, (j - 1) as nat, order);
        crate::section::lemma_section_width_mono(fields, i, k + 1, (j - 1) as nat);
        crate::section::lemma_section_width_mono(fields, i, k, k + 1);
        assert((pre + fb).subrange(section_width(fields, i, k) as int, section_width(fields, i, k + 1) as int)
            =~= pre.subrange(section_width(fields, i, k) as int, section_width(fields, i, k + 1) as int));
    }
}

proof fn lemma_section_fault_none(fields: Seq<FieldDescriptor>, vals: Seq<Datum>, i: nat, j: nat, k: nat)
    requires
        i <= k < j,
        section_fault(fields, vals, i, j) is None,
    ensures
        section_fault(fields, vals, i, k) is None,
        bitfield_fault(fields[k as int], vals[k as int]) is None,
    decreases j - k,
{
    if k + 1 < j {
        lemma_section_fault_none(fields, vals, i, (j - 1) as nat, k);
    }
}

proof fn lemma_section_decode_encoded(fields: Seq<FieldDescriptor>, vals: Seq<Datum>, i: nat, k: nat, j: nat, order: ByteOrder)
    requires
        crate::section::section_ok(fields, i, j),
        vals.len() == fields.len(),
        section_fault(fields, vals, i, j) is None,
        i <= k <= j,
    ensures
        section_decode(fields, section_bits(fields, vals, i, j, order), i, k, order)
            == Ok::<Seq<Datum>, DecodeFault>(vals.subrange(i as int, k as int)),
    decreases k - i,
{
    if k > i {
        lemma_section_decode_encoded(fields, vals, i, (k - 1) as nat, j, order);
        lemma_section_bits_split(fields, vals, i, (k - 1) as nat, j, order);
        lemma_section_fault_none(fields, vals, i, j, (k - 1) as nat);
        lemma_bitfield_round_trip(fields, vals, k - 1, order);
        assert(vals.subrange(i as int, k - 1).push(vals[k - 1]) =~= vals.subrange(i as int, k as int));
    } else {
        assert(vals.subrange(i as int, k as int) =~= Seq::<Datum>::empty());
    }
}

/// A section's bytes decode back to its values.
proof fn lemma_section_round_trip(fields: Seq<FieldDescriptor>, vals: Seq<Datum>, i: nat, j: nat, buf: Seq<u8>, pos: nat, order: ByteOrder)
    requires
        crate::section::section_ok(fields, i, j),
        vals.len() == fields.len(),
        section_fault(fields, vals, i, j) is None,
        pos + section_bytes(fields, vals, i, j, order).len() <= buf.len(),
        buf.subrange(pos as int, pos as int + section_bytes(fields, vals, i, j, order).len())
            == section_bytes(fields, vals, i, j, order),
    ensures
        decode_section(fields, buf, i, j, pos, order) == Ok::<(Seq<Datum>, nat), DecodeFault>(
            (vals.subrange(i as int, j as int), pos + section_bytes(fields, vals, i, j, order).len()),
        ),
{
    let g = section_bits(fields, vals, i, j, order);
    let t = section_width(fields, i, j);
    let len = byte_len(t);
    let a = bits_value(g);
    crate::section::lemma_section_bits_len(fields, vals, i, j, order);
    lemma_bits_value_bound(g);
    lemma_pow2_monotonic(t, 8 * len);
    lemma_pow256_is_pow2(len);
    lemma_uint_round_trip(a, len, order.flipped());
    lemma_bits_of_value(g);
    lemma_section_decode_encoded(fields, vals, i, j, j, order);
}

/// The bytes of the fields from `i` up to `m`.
spec fn encoded_span(fields: Seq<FieldDescriptor>, vals: Seq<Datum>, i: nat, m: nat, order: ByteOrder) -> Seq<u8>
    decreases m - i,
{
    if i >= m {
        Seq::empty()
    } else if fields[i as int].kind.is_bitfield() {
        let j = run_end(fields, i);
        if j <= i || j > m {
            Seq::empty()
        } else {
            section_bytes(fields, vals, i, j, order) + encoded_span(fields, vals, j, m, order)
        }
    } else if fields[i as int].kind is Nested {
        nested_bytes(fields, vals, i, order) + encoded_span(fields, vals, i + 1, m, order)
    } else {
        field_bytes(fields[i as int].kind, vals[i as int], order) + encoded_span(fields, vals, i + 1, m, order)
    }
}

/// The bytes of the nested record in field `i`.
spec fn nested_bytes(fields: Seq<FieldDescriptor>, vals: Seq<Datum>, i: nat, order: ByteOrder) -> Seq<u8> {
    encode_from(fields[i as int].kind->Nested_0.fields@, vals[i as int]->Record_0, 0, order)->Ok_0
}

/// Whether no run of bitfields crosses index `m`.
spec fn at_boundary(fields: Seq<FieldDescriptor>, m: nat) -> bool {
    m == fields.len() || (m < fields.len() && !fields[m as int].kind.is_bitfield())
}

proof fn lemma_run_end_within(fields: Seq<FieldDescriptor>, i: nat, m: nat)
    requires
        i < m <= fields.len(),
        at_boundary(fields, m),
    ensures
        run_end(fields, i) <= m,
    decreases m - i,
{
    if fields[i as int].kind.is_bitfield() {
        if i + 1 < m {
            lemma_run_end_within(fields, i + 1, m);
        } else {
            assert(run_end(fields, m) == m);
        }
    }
}

/// The bytes of the fields from `i` on are those of the fields up to `m`,
/// then those of the fields from `m` on.
proof fn lemma_encode_split(fields: Seq<FieldDescriptor>, vals: Seq<Datum>, i: nat, m: nat, order: ByteOrder)
    requires
        i <= m <= fields.len(),
        at_boundary(fields, m),
        encode_from(fields, vals, i, order) is Ok,
    ensures
        encode_from(fields, vals, m, order) is Ok,
        encode_from(fields, vals, i, order)->Ok_0 == encoded_span(fields, vals, i, m, order)
            + encode_from(fields, vals, m, order)->Ok_0,
    decreases m - i,
{
    if i == m {
        assert(Seq::<u8>::empty() + encode_from(fields, vals, m, order)->Ok_0 =~= encode_from(fields, vals, m, order)->Ok_0);
    } else {
        crate::codec::lemma_run_end(fields, i);
        let next = if fields[i as int].kind.is_bitfield() { run_end(fields, i) } else { i + 1 };
        if fields[i as int].kind.is_bitfield() {
            lemma_run_end_within(fields, i, m);
        }
        lemma_encode_split(fields, vals, next, m, order);
        let head = if fields[i as int].kind.is_bitfield() {
            section_bytes(fields, vals, i, next, order)
        } else if fields[i as int].kind is Nested {
            nested_bytes(fields, vals, i, order)
        } else {
            field_bytes(fields[i as int].kind, vals[i as int], order)
        };
        let rest = encode_from(fields, vals, next, order)->Ok_0;
        let tail = encode_from(fields, vals, m, order)->Ok_0;
        assert(head + (encoded_span(fields, vals, next, m, order) + tail)
            =~= (head + encoded_span(fields, vals, next, m, order)) + tail);
    }
}

proof fn lemma_split_bytes(buf: Seq<u8>, pos: nat, a: Seq<u8>, b: Seq<u8>)
    requires
        pos + (a + b).len() <= buf.len(),
        buf.subrange(pos as int, pos as int + (a + b).len()) == a + b,
    ensures
        buf.subrange(pos as int, pos as int + a.len()) == a,
        buf.subrange(pos + a.len() as int, pos + a.len() + b.len() as int) == b,
{
    let ab = a + b;
    assert(buf.subrange(pos as int, pos as int + a.len()) =~= ab.subrange(0, a.len() as int));
    assert(ab.subrange(0, a.len() as int) =~= a);
    assert(buf.subrange(pos + a.len() as int, pos + a.len() + b.len() as int) =~= ab.subrange(a.len() as int, ab.len() as int));
    assert(ab.subrange(a.len() as int, ab.len() as int) =~= b);
}

/// Decoding the section that starts at field `i` gives its values.
proof fn lemma_decode_span_section(fields: Seq<FieldDescriptor>, vals: Seq<Datum>, i: nat, buf: Seq<u8>, pos: nat, order: ByteOrder)
    requires
        fields_wf(fields),
        vals.len() == fields.len(),
        i < fields.len(),
        fields[i as int].kind.is_bitfield(),
        encode_from(fields, vals, i, order) is Ok,
        pos + section_bytes(fields, vals, i, run_end(fields, i), order).len() <= buf.len(),
        buf.subrange(pos as int, pos as int + section_bytes(fields, vals, i, run_end(fields, i), order).len())
            == section_bytes(fields, vals, i, run_end(fields, i), order),
    ensures
        decode_from(fields, buf, i, pos, vals.subrange(0, i as int), order) == decode_from(
            fields,
            buf,
            run_end(fields, i),
            pos + section_bytes(fields, vals, i, run_end(fields, i), order).len(),
            vals.subrange(0, run_end(fields, i) as int),
            order,
        ),
{
    let j = run_end(fields, i);
    crate::codec::lemma_run_end(fields, i);
    crate::codec::lemma_section_ok(fields, i);
    lemma_section_round_trip(fields, vals, i, j, buf, pos, order);
    assert(vals.subrange(0, i as int) + vals.subrange(i as int, j as int) =~= vals.subrange(0, j as int));
}

/// Decoding the (non-bitfield, non-nested) field `i` gives its value.
proof fn lemma_decode_span_field(fields: Seq<FieldDescriptor>, vals: Seq<Datum>, i: nat, buf: Seq<u8>, pos: nat, order: ByteOrder, at_end: bool)
    requires
        fields_wf(fields),
        runs_ok(fields, vals, at_end),
        vals.len() == fields.len(),
        i < fields.len(),
        !fields[i as int].kind.is_bitfield(),
        !(fields[i as int].kind is Nested),
        encode_from(fields, vals, i, order) is Ok,
        pos + field_bytes(fields[i as int].kind, vals[i as int], order).len() <= buf.len(),
        buf.subrange(pos as int, pos as int + field_bytes(fields[i as int].kind, vals[i as int], order).len())
            == field_bytes(fields[i as int].kind, vals[i as int], order),
        at_end && i + 1 == fields.len() ==> pos + field_bytes(fields[i as int].kind, vals[i as int], order).len() == buf.len(),
    ensures
        decode_from(fields, buf, i, pos, vals.subrange(0, i as int), order) == decode_from(
            fields,
            buf,
            i + 1,
            pos + field_bytes(fields[i as int].kind, vals[i as int], order).len(),
            vals.subrange(0, i + 1 as int),
            order,
        ),
{
    crate::codec::lemma_fields_wf(fields);
    assert(field_wf(fields, i as int));
    assert(run_value_ok(fields, vals, i as int, at_end));
    lemma_field_round_trip(fields, vals, i as int, buf, pos, order, at_end);
    assert(vals.subrange(0, i as int).push(vals[i as int]) =~= vals.subrange(0, i + 1 as int));
}

/// Decoding the bytes of the fields from `i` up to `m` gives their values and
/// moves past them.
#[verifier::rlimit(50)]
proof fn lemma_decode_span(fields: Seq<FieldDescriptor>, vals: Seq<Datum>, i: nat, m: nat, buf: Seq<u8>, pos: nat, order: ByteOrder, at_end: bool)
    requires
        fields_wf(fields),
        runs_ok(fields, vals, at_end),
        vals.len() == fields.len(),
        i <= m <= fields.len(),
        at_boundary(fields, m),
        encode_from(fields, vals, i, order) is Ok,
        pos + encoded_span(fields, vals, i, m, order).len() <= buf.len(),
        buf.subrange(pos as int, pos as int + encoded_span(fields, vals, i, m, order).len())
            == encoded_span(fields, vals, i, m, order),
        at_end && m == fields.len() ==> pos + encoded_span(fields, vals, i, m, order).len() == buf.len(),
    ensures
        decode_from(fields, buf, i, pos, vals.subrange(0, i as int), order) == decode_from(
            fields,
            buf,
            m,
            pos + encoded_span(fields, vals, i, m, order).len(),
            vals.subrange(0, m as int),
            order,
        ),
    decreases fields, m - i,
{
    if i < m {
        crate::codec::lemma_run_end(fields, i);
        if fields[i as int].kind.is_bitfield() {
            let j = run_end(fields, i);
            lemma_run_end_within(fields, i, m);
            let sb = section_bytes(fields, vals, i, j, order);
            let rest = encoded_span(fields, vals, j, m, order);
            lemma_split_bytes(buf, pos, sb, rest);
            lemma_decode_span_section(fields, vals, i, buf, pos, order);
            assert(encode_from(fields, vals, j, order) is Ok);
            lemma_decode_span(fields, vals, j, m, buf, pos + sb.len(), order, at_end);
        } else if fields[i as int].kind is Nested {
            let nb = nested_bytes(fields, vals, i, order);
            let rest = encoded_span(fields, vals, i + 1, m, order);
            lemma_split_bytes(buf, pos, nb, rest);
            if i + 1 == fields.len() {
                assert(rest == Seq::<u8>::empty());
            }
            lemma_decode_nested(fields, vals, i, buf, pos, order, at_end);
            lemma_decode_span(fields, vals, i + 1, m, buf, pos + nb.len(), order, at_end);
        } else {
            let fb = field_bytes(fields[i as int].kind, vals[i as int], order);
            let rest = encoded_span(fields, vals, i + 1, m, order);
            lemma_split_bytes(buf, pos, fb, rest);
            if i + 1 == fields.len() {
                assert(rest == Seq::<u8>::empty());
            }
            lemma_decode_span_field(fields, vals, i, buf, pos, order, at_end);
            lemma_decode_span(fields, vals, i + 1, m, buf, pos + fb.len(), order, at_end);
        }
    }
}

/// Decoding the nested record in field `i` gives its values.
proof fn lemma_decode_nested(fields: Seq<FieldDescriptor>, vals: Seq<Datum>, i: nat, buf: Seq<u8>, pos: nat, order: ByteOrder, at_end: bool)
    requires
        fields_wf(fields),
        runs_ok(fields, vals, at_end),
        vals.len() == fields.len(),
        i < fields.len(),
        fields[i as int].kind is Nested,
        encode_from(fields, vals, i, order) is Ok,
        pos + nested_bytes(fields, vals, i, order).len() <= buf.len(),
        buf.subrange(pos as int, pos as int + nested_bytes(fields, vals, i, order).len())
            == nested_bytes(fields, vals, i, order),
        at_end && i + 1 == fields.len() ==> pos + nested_bytes(fields, vals, i, order).len() == buf.len(),
    ensures
        decode_from(fields, buf, i, pos, vals.subrange(0, i as int), order) == decode_from(
            fields,
            buf,
            i + 1,
            pos + nested_bytes(fields, vals, i, order).len(),
            vals.subrange(0, i + 1 as int),
            order,
        ),
    decreases fields, 0nat,
{
    let inner = fields[i as int].kind->Nested_0.fields@;
    let sub = vals[i as int]->Record_0;
    let nb = nested_bytes(fields, vals, i, order);
    crate::codec::lemma_fields_wf(fields);
    lemma_encode_split(inner, sub, 0, inner.len(), order);
    assert(encode_from(inner, sub, inner.len(), order)->Ok_0 == Seq::<u8>::empty());
    assert(nb =~= encoded_span(inner, sub, 0, inner.len(), order));
    assert(decreases_to!(fields => fields[i as int]));
    assert(decreases_to!(fields[i as int] => fields[i as int].kind));
    assert(decreases_to!(fields[i as int].kind => fields[i as int].kind->Nested_0));
    assert(decreases_to!(fields[i as int].kind->Nested_0.fields => inner));
    lemma_decode_span(inner, sub, 0, inner.len(), buf, pos, order, at_end && i == fields.len() - 1);
    assert(sub.subrange(0, 0) =~= Seq::<Datum>::empty());
    assert(sub.subrange(0, inner.len() as int) =~= sub);
    assert(decode_from(inner, buf, inner.len(), pos + nb.len(), sub, order) == Ok::<(Seq<Datum>, nat), DecodeFault>((sub, pos + nb.len())));
    assert(vals.subrange(0, i as int).push(vals[i as int]) =~= vals.subrange(0, i + 1 as int));
}

/// Round trip: the bytes of a record decode to its values, and decoding
/// consumes all of them. This holds of every record that encodes (each value
/// of its field's kind, each bitfield value within its width) and whose byte
/// and text runs decode back (see `runs_decodable`).
pub proof fn lemma_round_trip(schema: RecordSchema, vals: Seq<Datum>, order: ByteOrder)
    requires
        schema.wf(),
        runs_decodable(schema, vals),
        encoding(schema, vals, order) is Ok,
    ensures
        decoding(schema, encoding(schema, vals, order)->Ok_0, 0, order) == Ok::<(Seq<Datum>, nat), DecodeFault>(
            (vals, encoding(schema, vals, order)->Ok_0.len()),
        ),
{
    let fields = schema.fields@;
    let n = fields.len();
    let b = encoding(schema, vals, order)->Ok_0;
    lemma_encode_split(fields, vals, 0, n, order);
    assert(encode_from(fields, vals, n, order)->Ok_0 == Seq::<u8>::empty());
    assert(b =~= encoded_span(fields, vals, 0, n, order));
    assert(b.subrange(0, b.len() as int) =~= b);
    lemma_decode_span(fields, vals, 0, n, b, 0, order, true);
    assert(vals.subrange(0, 0) =~= Seq::<Datum>::empty());
    assert(vals.subrange(0, n as int) =~= vals);
}

/// Truncation: where the bytes of a record's last field, a scalar, an enum
/// or a non-empty array, are missing, decoding gives that field's default
/// without consuming more, and fails with `BufferTooShort` where the field
/// has no default.
pub proof fn lemma_truncated_last_field(schema: RecordSchema, vals: Seq<Datum>, order: ByteOrder)
    requires
        schema.wf(),
        runs_decodable(schema, vals),
        schema.fields@.len() >= 1,
        schema.fields@.last().kind is Scalar || schema.fields@.last().kind is Enum
            || (schema.fields@.last().kind matches FieldKind::Array(_, n) && n >= 1),
        encoding(schema, vals, order) is Ok,
    ensures
        ({
            let n = schema.fields@.len();
            let b = encoding(schema, vals, order)->Ok_0;
            let cut = b.len() - field_bytes(schema.fields@.last().kind, vals.last(), order).len();
            decoding(schema, b.subrange(0, cut), 0, order) == match schema.fields@.last().default {
                Some(v) => Ok::<(Seq<Datum>, nat), DecodeFault>((vals.subrange(0, n - 1).push(v@), cut as nat)),
                None => Err(DecodeFault::BufferTooShort),
            }
        }),
{
    let fields = schema.fields@;
    let n = fields.len();
    let b = encoding(schema, vals, order)->Ok_0;
    let last = fields[n - 1];
    let fb = field_bytes(last.kind, vals[n - 1], order);
    lemma_encode_split(fields, vals, 0, (n - 1) as nat, order);
    let span = encoded_span(fields, vals, 0, (n - 1) as nat, order);
    assert(encode_from(fields, vals, n, order) == Ok::<Seq<u8>, EncodeFault>(Seq::empty()));
    assert(encode_from(fields, vals, (n - 1) as nat, order)->Ok_0 =~= fb);
    assert(b == span + fb);
    let cut = b.len() - fb.len();
    let t = b.subrange(0, cut);
    assert(t =~= span);
    assert(t.subrange(0, span.len() as int) =~= span);
    lemma_decode_span(fields, vals, 0, (n - 1) as nat, t, 0, order, true);
    assert(vals.subrange(0, 0) =~= Seq::<Datum>::empty());
    let acc = vals.subrange(0, n - 1);
    if let FieldKind::Array(p, len) = last.kind {
        assert(len * p.spec_size() >= 1) by (nonlinear_arith)
            requires
                len >= 1,
                p.spec_size() >= 1,
        ;
    }
    assert(decode_kind(last.kind, t, cut as nat, acc, order) == Err::<(Datum, nat), DecodeFault>(DecodeFault::BufferTooShort));
    match last.default {
        Some(v) => {
            assert(decode_from(fields, t, n, cut as nat, acc.push(v@), order) == Ok::<(Seq<Datum>, nat), DecodeFault>((acc.push(v@), cut as nat)));
        },
        None => {},
    }
}

proof fn lemma_section_frame(fields: Seq<FieldDescriptor>, vals: Seq<Datum>, other: Seq<Datum>, k: int, i: nat, j: nat, order: ByteOrder)
    requires
        vals.len() == other.len(),
        forall|l: int| 0 <= l < vals.len() && l != k ==> vals[l] == other[l],
        k < i || k >= j,
        j <= vals.len(),
    ensures
        section_fault(fields, other, i, j) == section_fault(fields, vals, i, j),
        section_bits(fields, other, i, j, order) == section_bits(fields, vals, i, j, order),
    decreases j - i,
{
    if j > i {
        lemma_section_frame(fields, vals, other, k, i, (j - 1) as nat, order);
        assert(vals[j - 1] == other[j - 1]);
    }
}

proof fn lemma_section_fault_all_none(fields: Seq<FieldDescriptor>, vals: Seq<Datum>, i: nat, j: nat)
    requires
        forall|l: int| i <= l < j ==> bitfield_fault(fields[l], vals[l]) is None,
    ensures
        section_fault(fields, vals, i, j) is None,
    decreases j - i,
{
    if j > i {
        lemma_section_fault_all_none(fields, vals, i, (j - 1) as nat);
    }
}

/// Past the changed field, encoding is unchanged.
proof fn lemma_encode_frame(fields: Seq<FieldDescriptor>, vals: Seq<Datum>, other: Seq<Datum>, k: int, i: nat, order: ByteOrder)
    requires
        vals.len() == other.len() == fields.len(),
        forall|l: int| 0 <= l < vals.len() && l != k ==> vals[l] == other[l],
        k < i,
    ensures
        encode_from(fields, other, i, order) == encode_from(fields, vals, i, order),
    decreases fields.len() - i,
{
    if i < fields.len() {
        crate::codec::lemma_run_end(fields, i);
        if fields[i as int].kind.is_bitfield() {
            let j = run_end(fields, i);
            lemma_section_frame(fields, vals, other, k, i, j, order);
            lemma_encode_frame(fields, vals, other, k, j, order);
        } else {
            assert(vals[i as int] == other[i as int]);
            lemma_encode_frame(fields, vals, other, k, i + 1, order);
        }
    }
}

/// Encoding with the value of bitfield field `k` replaced: it fails naming
/// field `k` where the new value does not fit, and succeeds where it does.
proof fn lemma_encode_replaced(fields: Seq<FieldDescriptor>, vals: Seq<Datum>, other: Seq<Datum>, k: int, i: nat, order: ByteOrder)
    requires
        vals.len() == other.len() == fields.len(),
        forall|l: int| 0 <= l < vals.len() && l != k ==> vals[l] == other[l],
        i <= k < fields.len(),
        fields[k].kind.is_bitfield(),
        bitfield_fault(fields[k], other[k]) is Some ==> bitfield_scalar(fields[k].kind, other[k]) is Some,
        encode_from(fields, vals, i, order) is Ok,
    ensures
        bitfield_fault(fields[k], other[k]) matches Some(f) ==> encode_from(fields, other, i, order) == Err::<Seq<u8>, EncodeFault>(f),
        bitfield_fault(fields[k], other[k]) is None ==> encode_from(fields, other, i, order) is Ok,
    decreases fields.len() - i,
{
    crate::codec::lemma_run_end(fields, i);
    if fields[i as int].kind.is_bitfield() {
        let j = run_end(fields, i);
        if k < j {
            lemma_section_frame(fields, vals, other, k, i, k as nat, order);
            lemma_section_fault_none(fields, vals, i, j, k as nat);
            lemma_encode_frame(fields, vals, other, k, j, order);
            if bitfield_fault(fields[k], other[k]) is Some {
                crate::section::lemma_section_fault_prefix(fields, other, i, (k + 1) as nat, j);
            } else {
                assert forall|l: int| i <= l < j implies bitfield_fault(fields[l], other[l]) is None by {
                    if l != k {
                        lemma_section_fault_none(fields, vals, i, j, l as nat);
                        assert(other[l] == vals[l]);
                    }
                }
                lemma_section_fault_all_none(fields, other, i, j);
            }
        } else {
            lemma_section_frame(fields, vals, other, k, i, j, order);
            lemma_encode_replaced(fields, vals, other, k, j, order);
        }
    } else {
        assert(vals[i as int] == other[i as int]);
        lemma_encode_replaced(fields, vals, other, k, i + 1, order);
    }
}

/// Overflow: in a record that encodes, giving bitfield field `k` a value of
/// `2^width` or more makes encoding fail with `BitWidthOverflow` naming
/// field `k` and the value; giving it `2^width - 1` keeps it encodable.
pub proof fn lemma_bitfield_overflow(schema: RecordSchema, vals: Seq<Datum>, k: int, s: Scalar, order: ByteOrder)
    requires
        encoding(schema, vals, order) is Ok,
        0 <= k < schema.fields@.len(),
        schema.fields@[k].kind matches FieldKind::Bitfield(p, _) && same_family(p, s),
        bit_number(s) >= 0,
    ensures
        bit_number(s) >= pow2(schema.fields@[k].kind.width()) ==> encoding(schema, vals.update(k, Datum::Scalar(s)), order)
            == Err::<Seq<u8>, EncodeFault>(EncodeFault::BitWidthOverflow { field: schema.fields@[k].name@, value: s }),
        bit_number(s) == pow2(schema.fields@[k].kind.width()) - 1 ==> encoding(schema, vals.update(k, Datum::Scalar(s)), order) is Ok,
{
    let other = vals.update(k, Datum::Scalar(s));
    lemma_encode_replaced(schema.fields@, vals, other, k, 0, order);
}

/// Text round trip: text followed by a delimiter that does not occur
/// earlier decodes back to the text, and decoding moves past the delimiter,
/// whatever follows it.
pub proof fn lemma_text_round_trip(t: Seq<char>, d: Seq<u8>, rest: Seq<u8>)
    requires
        delimiter_free(encode_utf8(t), d),
    ensures
        decoded_text(text_bytes(t, Some(d)) + rest, 0, Some(d)) == Ok::<(Seq<char>, nat), DecodeFault>(
            (t, encode_utf8(t).len() + d.len()),
        ),
{
    let p = encode_utf8(t);
    let buf = text_bytes(t, Some(d)) + rest;
    assert(buf.subrange(0, buf.len() as int) =~= p + d + rest);
    lemma_delimiter_found(p, d, rest, 0);
    assert(buf.subrange(0, p.len() as int) =~= p);
    lemma_utf8_round_trip(t);
}

} // verus!
