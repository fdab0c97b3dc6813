//! Encoding and decoding whole records.
use vstd::prelude::*;
use bytes::BytesMut;
use crate::buffer::{buffer_contents, extend_buffer};
use crate::digits::ByteOrder;
use crate::model::{
    array_bytes, array_of_bytes, conforms, decode_field, decode_from, decode_kind, decoding,
    encode_from, encoding, field_bytes, field_wf, fields_wf, run_end, section_width,
    terminator_bytes, terminator_run,
};
use crate::scalar::{fits, push_scalar, read_scalar, scalar_fits, Prim, Scalar};
use crate::schema::{
    data_of, Datum, DecodeError, EncodeError, EncodeFault, FieldDescriptor,
    FieldKind, RecordSchema, Terminator, Value,
};
use crate::section::{
    copy_value, decode_section_at, encode_section, enum_value, lemma_data_of_push, lemma_data_seq,
    section_ok,
};
use crate::text::{find_run_end, text_range};

verus! {

/// Appends the bytes `b`.
fn append(out: &mut Vec<u8>, b: &[u8])
    ensures
        final(out)@ == old(out)@ + b@,
{
    let n = b.len();
    let mut i: usize = 0;
    while i < n
        invariant
            n == b@.len(),
            i <= n,
            out@ == old(out)@ + b@.subrange(0, i as int),
        decreases n - i,
    {
        out.push(b[i]);
        i = i + 1;
        assert(out@ =~= old(out)@ + b@.subrange(0, i as int));
    }
    assert(b@.subrange(0, n as int) =~= b@);
}

fn push_terminator(out: &mut Vec<u8>, t: &Terminator)
    ensures
        final(out)@ == old(out)@ + terminator_bytes(*t),
{
    match t {
        Terminator::Delimiter(d) => append(out, d.as_slice()),
        _ => {
            assert(old(out)@ + Seq::<u8>::empty() =~= old(out)@);
        },
    }
}

/// Whether each of `xs` is a value of type `p`.
fn all_fit(p: Prim, xs: &Vec<Scalar>) -> (r: bool)
    ensures
        r == forall|k: int| 0 <= k < xs@.len() ==> fits(p, #[trigger] xs@[k]),
{
    let n = xs.len();
    let mut i: usize = 0;
    while i < n
        invariant
            n == xs@.len(),
            i <= n,
            forall|k: int| 0 <= k < i ==> fits(p, #[trigger] xs@[k]),
        decreases n - i,
    {
        if !scalar_fits(p, xs[i]) {
            return false;
        }
        i = i + 1;
    }
    true
}

fn push_array(out: &mut Vec<u8>, p: Prim, xs: &Vec<Scalar>, order: ByteOrder)
    requires
        forall|k: int| 0 <= k < xs@.len() ==> fits(p, #[trigger] xs@[k]),
    ensures
        final(out)@ == old(out)@ + array_bytes(p, xs@, order),
{
    let n = xs.len();
    let mut i: usize = 0;
    while i < n
        invariant
            n == xs@.len(),
            i <= n,
            forall|k: int| 0 <= k < xs@.len() ==> fits(p, #[trigger] xs@[k]),
            out@ == old(out)@ + array_bytes(p, xs@.subrange(0, i as int), order),
        decreases n - i,
    {
        let ghost before = out@;
        push_scalar(out, p, xs[i], order);
        proof {
            let s = xs@.subrange(0, i + 1);
            assert(s.drop_last() =~= xs@.subrange(0, i as int));
            assert(out@ =~= old(out)@ + array_bytes(p, s, order));
        }
        i = i + 1;
    }
    assert(xs@.subrange(0, n as int) =~= xs@);
}

/// Appends the bytes of the value `v` of the (non-bitfield) field `f`; fails
/// without appending where `v` is not of the field's kind.
fn encode_field(f: &FieldDescriptor, v: &Value, order: ByteOrder, out: &mut Vec<u8>) -> (r: Result<(), EncodeError>)
    requires
        !f.kind.is_bitfield(),
        f.kind matches FieldKind::Enum(e) ==> e.wf(),
    ensures
        conforms(f.kind, v@) ==> r is Ok && final(out)@ == old(out)@ + field_bytes(f.kind, v@, order),
        !conforms(f.kind, v@) ==> (r matches Err(e) && e@ == (EncodeFault::Mismatch { field: f.name@ })
            && final(out)@ == old(out)@),
{
    match (&f.kind, v) {
        (FieldKind::Scalar(p), Value::Scalar(s)) => {
            if scalar_fits(*p, *s) {
                push_scalar(out, *p, *s, order);
                return Ok(());
            }
        },
        (FieldKind::Enum(e), Value::Variant(k)) => {
            if *k < e.variants.len() {
                proof {
                    assert(fits(e.repr, e.variants@[*k as int].discriminant));
                }
                push_scalar(out, e.repr, e.variants[*k].discriminant, order);
                return Ok(());
            }
        },
        (FieldKind::Bytes(t), Value::Bytes(b)) => {
            append(out, b.as_slice());
            push_terminator(out, t);
            assert(out@ =~= old(out)@ + field_bytes(f.kind, v@, order));
            return Ok(());
        },
        (FieldKind::Text(t), Value::Text(s)) => {
            append(out, s.as_str().as_bytes());
            push_terminator(out, t);
            assert(out@ =~= old(out)@ + field_bytes(f.kind, v@, order));
            return Ok(());
        },
        (FieldKind::Array(p, n), Value::Array(xs)) => {
            if xs.len() == *n && all_fit(*p, xs) {
                push_array(out, *p, xs, order);
                return Ok(());
            }
        },
        _ => {},
    }
    Err(EncodeError::Mismatch { field: f.name.clone() })
}

/// Where the run of a byte or text field at `pos` ends: the end of its payload
/// and the position after it.
fn run_bounds(t: &Terminator, buf: &[u8], pos: usize, acc: &Vec<Value>) -> (r: Result<(usize, usize), DecodeError>)
    requires
        t matches Terminator::LengthOf(k) ==> k < acc@.len(),
    ensures
        match terminator_run(*t, buf@, pos as nat, data_of(acc@)) {
            Ok((e, n)) => r matches Ok((e2, n2)) && e2 == e && n2 == n,
            Err(f) => r matches Err(err) && err@ == f,
        },
        r matches Ok((e, n)) ==> pos <= e <= n <= buf@.len(),
{
    match t {
        Terminator::Delimiter(d) => find_run_end(buf, pos, Some(d.as_slice())),
        Terminator::Rest => find_run_end(buf, pos, None),
        Terminator::LengthOf(k) => {
            let n: u128 = match &acc[*k] {
                Value::Scalar(Scalar::Unsigned(v)) => *v,
                _ => 0,
            };
            let len = buf.len();
            if pos <= len && n <= (len - pos) as u128 {
                let e = pos + n as usize;
                Ok((e, e))
            } else {
                Err(DecodeError::BufferTooShort)
            }
        },
    }
}

/// The `n` primitives of type `p` at `pos`, back to back.
fn read_array(buf: &[u8], pos: usize, p: Prim, n: usize, order: ByteOrder) -> (r: Vec<Scalar>)
    requires
        pos + n * p.spec_size() <= buf@.len(),
    ensures
        r@ == array_of_bytes(p, buf@, pos as nat, n as nat, order),
{
    let size = p.size();
    let blen = buf.len();
    let mut out: Vec<Scalar> = Vec::new();
    let mut m: usize = 0;
    let mut cur: usize = pos;
    while m < n
        invariant
            size == p.spec_size(),
            blen == buf@.len(),
            pos + n * size <= buf@.len(),
            m <= n,
            cur == pos + m * size,
            out@ == array_of_bytes(p, buf@, pos as nat, m as nat, order),
        decreases n - m,
    {
        proof {
            assert((m + 1) * size == m * size + size) by (nonlinear_arith);
            assert((m + 1) * size <= n * size) by (nonlinear_arith)
                requires
                    m < n,
            ;
        }
        let s = read_scalar(buf, cur, p, order);
        out.push(s);
        cur = cur + size;
        m = m + 1;
        proof {
            assert(out@ =~= array_of_bytes(p, buf@, pos as nat, m as nat, order));
        }
    }
    out
}

/// Decodes a (non-bitfield) field of kind `kind` at `pos`, before any default
/// is substituted.
fn decode_kind_at(kind: &FieldKind, buf: &[u8], pos: usize, acc: &Vec<Value>, order: ByteOrder) -> (r: Result<(Value, usize), DecodeError>)
    requires
        !kind.is_bitfield(),
        kind matches FieldKind::Bytes(Terminator::LengthOf(k)) ==> k < acc@.len(),
        kind matches FieldKind::Text(Terminator::LengthOf(k)) ==> k < acc@.len(),
        kind matches FieldKind::Array(_, n) ==> n * 16 <= usize::MAX,
    ensures
        match decode_kind(*kind, buf@, pos as nat, data_of(acc@), order) {
            Ok((d, p)) => r matches Ok((v, q)) && v@ == d && q == p,
            Err(f) => r matches Err(e) && e@ == f,
        },
{
    let len = buf.len();
    match kind {
        FieldKind::Scalar(p) => {
            if pos <= len && p.size() <= len - pos {
                let s = read_scalar(buf, pos, *p, order);
                Ok((Value::Scalar(s), pos + p.size()))
            } else {
                Err(DecodeError::BufferTooShort)
            }
        },
        FieldKind::Enum(e) => {
            if pos <= len && e.repr.size() <= len - pos {
                let s = read_scalar(buf, pos, e.repr, order);
                match enum_value(e, s) {
                    Ok(v) => Ok((v, pos + e.repr.size())),
                    Err(err) => Err(err),
                }
            } else {
                Err(DecodeError::BufferTooShort)
            }
        },
        FieldKind::Bytes(t) => {
            match run_bounds(t, buf, pos, acc) {
                Ok((e, n)) => {
                    let b = crate::text::copy_range(buf, pos, e);
                    Ok((Value::Bytes(b), n))
                },
                Err(err) => Err(err),
            }
        },
        FieldKind::Text(t) => {
            match run_bounds(t, buf, pos, acc) {
                Ok((e, n)) => Ok((Value::Text(text_range(buf, pos, e)), n)),
                Err(err) => Err(err),
            }
        },
        FieldKind::Array(p, n) => {
            proof {
                assert(*n * p.spec_size() <= *n * 16) by (nonlinear_arith)
                    requires
                        p.spec_size() <= 16,
                ;
            }
            let total = *n * p.size();
            if pos <= len && total <= len - pos {
                let xs = read_array(buf, pos, *p, *n, order);
                Ok((Value::Array(xs), pos + total))
            } else {
                Err(DecodeError::BufferTooShort)
            }
        },
        _ => Err(DecodeError::BufferTooShort),
    }
}

/// Decodes the (non-bitfield) field `f` at `pos`; where the input runs out,
/// gives its default, if it has one, without advancing.
fn decode_field_at(f: &FieldDescriptor, buf: &[u8], pos: usize, acc: &Vec<Value>, order: ByteOrder) -> (r: Result<(Value, usize), DecodeError>)
    requires
        !f.kind.is_bitfield(),
        f.kind matches FieldKind::Bytes(Terminator::LengthOf(k)) ==> k < acc@.len(),
        f.kind matches FieldKind::Text(Terminator::LengthOf(k)) ==> k < acc@.len(),
        f.kind matches FieldKind::Array(_, n) ==> n * 16 <= usize::MAX,
    ensures
        match decode_field(*f, buf@, pos as nat, data_of(acc@), order) {
            Ok((d, p)) => r matches Ok((v, q)) && v@ == d && q == p,
            Err(fault) => r matches Err(e) && e@ == fault,
        },
{
    match decode_kind_at(&f.kind, buf, pos, acc, order) {
        Err(DecodeError::BufferTooShort) => match &f.default {
            Some(v) => Ok((copy_value(v), pos)),
            None => Err(DecodeError::BufferTooShort),
        },
        r => r,
    }
}

pub proof fn lemma_run_end(fields: Seq<FieldDescriptor>, i: nat)
    requires
        i <= fields.len(),
    ensures
        i <= run_end(fields, i) <= fields.len(),
        forall|k: int| i <= k < run_end(fields, i) ==> (#[trigger] fields[k]).kind.is_bitfield(),
        i < fields.len() && fields[i as int].kind.is_bitfield() ==> i < run_end(fields, i),
    decreases fields.len() - i,
{
    if i < fields.len() && fields[i as int].kind.is_bitfield() {
        lemma_run_end(fields, i + 1);
    }
}

/// The end of the run of bitfield fields that starts at `i`.
pub(crate) fn bitfield_run_end(fields: &Vec<FieldDescriptor>, i: usize) -> (r: usize)
    requires
        i < fields@.len(),
    ensures
        r == run_end(fields@, i as nat),
{
    let n = fields.len();
    let mut j: usize = i;
    let mut more: bool = true;
    while more && j < n
        invariant
            n == fields@.len(),
            i <= j <= n,
            run_end(fields@, i as nat) == if more { run_end(fields@, j as nat) } else { j as nat },
        decreases n - j + (if more { 1int } else { 0int }),
    {
        if fields[j].kind.bit_width().is_some() {
            j = j + 1;
        } else {
            more = false;
        }
    }
    j
}

/// What a well-formed list of fields gives about each of its fields.
pub proof fn lemma_fields_wf(fields: Seq<FieldDescriptor>)
    requires
        fields_wf(fields),
    ensures
        forall|i: int| 0 <= i < fields.len() ==> field_wf(fields, i),
        forall|i: nat| i < fields.len() && (#[trigger] fields[i as int]).kind.is_bitfield()
            ==> section_width(fields, i, run_end(fields, i)) <= 64,
        forall|i: int| 0 <= i < fields.len() && (#[trigger] fields[i]).kind is Nested
            ==> fields_wf(fields[i].kind->Nested_0.fields@),
{
}

/// The conditions under which the fields of a section can be coded.
pub proof fn lemma_section_ok(fields: Seq<FieldDescriptor>, i: nat)
    requires
        fields_wf(fields),
        i < fields.len(),
        fields[i as int].kind.is_bitfield(),
    ensures
        section_ok(fields, i, run_end(fields, i)),
{
    lemma_fields_wf(fields);
    lemma_run_end(fields, i);
}

/// Appends the bytes of the values of `fields`, each run of bitfield fields
/// packed into one section; fails at the first field whose value is not of
/// its kind or does not fit its bit width.
fn encode_fields(fields: &Vec<FieldDescriptor>, values: &Vec<Value>, order: ByteOrder, out: &mut Vec<u8>) -> (r: Result<(), EncodeError>)
    requires
        fields_wf(fields@),
        values@.len() == fields@.len(),
    ensures
        match encode_from(fields@, data_of(values@), 0, order) {
            Ok(b) => r is Ok && final(out)@ == old(out)@ + b,
            Err(f) => r matches Err(e) && e@ == f,
        },
    decreases fields@,
{
    let n = fields.len();
    let ghost d = data_of(values@);
    let ghost start = out@;
    let mut i: usize = 0;
    proof {
        lemma_fields_wf(fields@);
        match encode_from(fields@, d, 0, order) {
            Ok(rest) => {
                assert(out@ + rest =~= start + rest);
            },
            Err(_) => {},
        }
    }
    while i < n
        invariant
            fields_wf(fields@),
            forall|k: int| 0 <= k < fields@.len() ==> field_wf(fields@, k),
            n == fields@.len(),
            values@.len() == n,
            d == data_of(values@),
            i <= n,
            encode_from(fields@, d, 0, order) == match encode_from(fields@, d, i as nat, order) {
                Ok(rest) => Ok(out@.subrange(start.len() as int, out@.len() as int) + rest),
                Err(f) => Err::<Seq<u8>, EncodeFault>(f),
            },
            out@.len() >= start.len(),
            out@.subrange(0, start.len() as int) == start,
        decreases n - i,
    {
        let ghost before = out@;
        if fields[i].kind.bit_width().is_some() {
            let j = bitfield_run_end(fields, i);
            proof {
                lemma_section_ok(fields@, i as nat);
            }
            match encode_section(fields, values, i, j, order, out) {
                Err(e) => {
                    return Err(e);
                },
                Ok(()) => {},
            }
            proof {
                let sb = crate::model::section_bytes(fields@, d, i as nat, j as nat, order);
                assert(out@.subrange(start.len() as int, out@.len() as int)
                    =~= before.subrange(start.len() as int, before.len() as int) + sb);
                assert(out@.subrange(0, start.len() as int) =~= before.subrange(0, start.len() as int));
                match encode_from(fields@, d, j as nat, order) {
                    Ok(rest) => {
                        assert(before.subrange(start.len() as int, before.len() as int) + (sb + rest)
                            =~= out@.subrange(start.len() as int, out@.len() as int) + rest);
                    },
                    Err(_) => {},
                }
            }
            i = j;
        } else {
            if let FieldKind::Nested(r) = &fields[i].kind {
                let sub = match &values[i] {
                    Value::Record(sub) => sub,
                    _ => {
                        return Err(EncodeError::Mismatch { field: fields[i].name.clone() });
                    },
                };
                proof {
                    lemma_data_seq(sub@);
                }
                if sub.len() != r.fields.len() {
                    return Err(EncodeError::Mismatch { field: fields[i].name.clone() });
                }
                proof {
                    assert(decreases_to!(fields@ => fields@[i as int]));
                    assert(decreases_to!(fields@[i as int] => fields@[i as int].kind));
                    assert(decreases_to!(fields@[i as int].kind => fields@[i as int].kind->Nested_0));
                    assert(decreases_to!(r.fields => r.fields@));
                }
                match encode_fields(&r.fields, sub, order, out) {
                    Err(e) => {
                        return Err(e);
                    },
                    Ok(()) => {},
                }
                proof {
                    let nb = encode_from(r.fields@, data_of(sub@), 0, order)->Ok_0;
                    assert(out@.subrange(start.len() as int, out@.len() as int)
                        =~= before.subrange(start.len() as int, before.len() as int) + nb);
                    assert(out@.subrange(0, start.len() as int) =~= before.subrange(0, start.len() as int));
                    match encode_from(fields@, d, (i + 1) as nat, order) {
                        Ok(rest) => {
                            assert(before.subrange(start.len() as int, before.len() as int) + (nb + rest)
                                =~= out@.subrange(start.len() as int, out@.len() as int) + rest);
                        },
                        Err(_) => {},
                    }
                }
            } else {
                proof {
                    assert(field_wf(fields@, i as int));
                }
                match encode_field(&fields[i], &values[i], order, out) {
                    Err(e) => {
                        return Err(e);
                    },
                    Ok(()) => {},
                }
                proof {
                    let fb = field_bytes(fields@[i as int].kind, d[i as int], order);
                    assert(out@.subrange(start.len() as int, out@.len() as int)
                        =~= before.subrange(start.len() as int, before.len() as int) + fb);
                    assert(out@.subrange(0, start.len() as int) =~= before.subrange(0, start.len() as int));
                    match encode_from(fields@, d, (i + 1) as nat, order) {
                        Ok(rest) => {
                            assert(before.subrange(start.len() as int, before.len() as int) + (fb + rest)
                                =~= out@.subrange(start.len() as int, out@.len() as int) + rest);
                        },
                        Err(_) => {},
                    }
                }
            }
            i = i + 1;
        }
    }
    proof {
        assert(out@ =~= start + out@.subrange(start.len() as int, out@.len() as int));
    }
    Ok(())
}

/// Encodes a record: the bytes of each field in schema order, with each run
/// of bitfield fields packed into one section and each nested record laid
/// out in place. Fails at the first field whose value is not of its kind or
/// does not fit its bit width.
pub fn encode(schema: &RecordSchema, values: &Vec<Value>, order: ByteOrder) -> (r: Result<Vec<u8>, EncodeError>)
    requires
        schema.wf(),
    ensures
        match encoding(*schema, data_of(values@), order) {
            Ok(b) => r matches Ok(v) && v@ == b,
            Err(f) => r matches Err(e) && e@ == f,
        },
{
    let n = schema.fields.len();
    if values.len() != n {
        return Err(EncodeError::FieldCount { expected: n, found: values.len() });
    }
    let mut out: Vec<u8> = Vec::new();
    match encode_fields(&schema.fields, values, order, &mut out) {
        Ok(()) => {
            assert(out@ =~= Seq::<u8>::empty() + out@);
            Ok(out)
        },
        Err(e) => Err(e),
    }
}

/// Encodes a record (see `encode`) and appends its bytes to `buf`; on failure
/// `buf` is left as it was.
pub fn encode_into(schema: &RecordSchema, values: &Vec<Value>, order: ByteOrder, buf: &mut BytesMut) -> (r: Result<(), EncodeError>)
    requires
        schema.wf(),
        encoding(*schema, data_of(values@), order) matches Ok(b) ==> buffer_contents(*old(buf)).len() + b.len() <= isize::MAX,
    ensures
        match encoding(*schema, data_of(values@), order) {
            Ok(b) => r is Ok && buffer_contents(*final(buf)) == buffer_contents(*old(buf)) + b,
            Err(f) => r matches Err(e) && e@ == f && buffer_contents(*final(buf)) == buffer_contents(*old(buf)),
        },
{
    match encode(schema, values, order) {
        Ok(bytes) => {
            extend_buffer(buf, bytes.as_slice());
            Ok(())
        },
        Err(e) => Err(e),
    }
}

/// Decodes the fields of `fields` at `pos`: their values and the position
/// after them, or the first error.
fn decode_fields(fields: &Vec<FieldDescriptor>, buf: &[u8], pos: usize, order: ByteOrder) -> (r: Result<(Vec<Value>, usize), DecodeError>)
    requires
        fields_wf(fields@),
    ensures
        match decode_from(fields@, buf@, 0, pos as nat, Seq::empty(), order) {
            Ok((vs, p)) => r matches Ok((v, q)) && data_of(v@) == vs && q == p,
            Err(f) => r matches Err(e) && e@ == f,
        },
    decreases fields@,
{
    let n = fields.len();
    let mut acc: Vec<Value> = Vec::new();
    let mut cur: usize = pos;
    let mut i: usize = 0;
    proof {
        lemma_fields_wf(fields@);
        assert(data_of(acc@) =~= Seq::<Datum>::empty());
    }
    while i < n
        invariant
            fields_wf(fields@),
            forall|k: int| 0 <= k < fields@.len() ==> field_wf(fields@, k),
            n == fields@.len(),
            i <= n,
            acc@.len() == i,
            decode_from(fields@, buf@, 0, pos as nat, Seq::empty(), order)
                == decode_from(fields@, buf@, i as nat, cur as nat, data_of(acc@), order),
        decreases n - i,
    {
        if fields[i].kind.bit_width().is_some() {
            let j = bitfield_run_end(fields, i);
            proof {
                lemma_section_ok(fields@, i as nat);
            }
            match decode_section_at(fields, buf, i, j, cur, order) {
                Err(e) => {
                    return Err(e);
                },
                Ok((vs, p)) => {
                    let mut vs = vs;
                    let ghost before = acc@;
                    let ghost got = vs@;
                    let ghost d = data_of(vs@);
                    acc.append(&mut vs);
                    proof {
                        assert(acc@ == before + got);
                        assert(data_of(acc@) =~= data_of(before) + d);
                        assert(d.len() == j - i) by {
                            crate::section::lemma_section_len(fields@, buf@, i as nat, j as nat, cur as nat, order);
                        }
                    }
                    cur = p;
                },
            }
            i = j;
        } else {
            proof {
                assert(field_wf(fields@, i as int));
            }
            let step = if let FieldKind::Nested(r) = &fields[i].kind {
                proof {
                    assert(decreases_to!(fields@ => fields@[i as int]));
                    assert(decreases_to!(fields@[i as int] => fields@[i as int].kind));
                    assert(decreases_to!(fields@[i as int].kind => fields@[i as int].kind->Nested_0));
                    assert(decreases_to!(r.fields => r.fields@));
                }
                match decode_fields(&r.fields, buf, cur, order) {
                    Ok((vs, p)) => {
                        proof {
                            lemma_data_seq(vs@);
                        }
                        Ok((Value::Record(vs), p))
                    },
                    Err(e) => match e {
                        DecodeError::BufferTooShort => match &fields[i].default {
                            Some(v) => Ok((copy_value(v), cur)),
                            None => Err(DecodeError::BufferTooShort),
                        },
                        e => Err(e),
                    },
                }
            } else {
                decode_field_at(&fields[i], buf, cur, &acc, order)
            };
            match step {
                Err(e) => {
                    return Err(e);
                },
                Ok((v, p)) => {
                    proof {
                        lemma_data_of_push(acc@, v);
                    }
                    acc.push(v);
                    cur = p;
                },
            }
            i = i + 1;
        }
    }
    Ok((acc, cur))
}

/// Decodes a record at `*offset`: the value of each field in schema order.
/// On success `*offset` moves past the record; on failure, the first field
/// that could not be decoded gives the error and `*offset` is left as it was.
pub fn decode(schema: &RecordSchema, buf: &[u8], offset: &mut usize, order: ByteOrder) -> (r: Result<Vec<Value>, DecodeError>)
    requires
        schema.wf(),
    ensures
        match decoding(*schema, buf@, *old(offset) as nat, order) {
            Ok((vs, p)) => r matches Ok(v) && data_of(v@) == vs && *final(offset) == p,
            Err(f) => r matches Err(e) && e@ == f && *final(offset) == *old(offset),
        },
{
    match decode_fields(&schema.fields, buf, *offset, order) {
        Ok((vs, p)) => {
            *offset = p;
            Ok(vs)
        },
        Err(e) => Err(e),
    }
}

} // verus!
