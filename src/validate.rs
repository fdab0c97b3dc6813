//! Checking that a schema is well formed.
use vstd::prelude::*;
use crate::codec::{bitfield_run_end, lemma_run_end};
use crate::model::{field_wf, fields_wf, run_end, section_width};
use crate::scalar::{scalar_fits, Prim};
use crate::schema::{EnumSchema, FieldDescriptor, FieldKind, RecordSchema, Terminator};
use crate::section::lemma_section_width_mono;

verus! {

impl EnumSchema {
    /// Whether the discriminants fit the integer type `repr` and are
    /// distinct.
    pub fn is_valid(&self) -> (r: bool)
        ensures
            r == self.wf(),
    {
        if self.repr == Prim::Bool {
            return false;
        }
        let n = self.variants.len();
        let mut k: usize = 0;
        while k < n
            invariant
                n == self.variants@.len(),
                k <= n,
                self.repr != Prim::Bool,
                forall|a: int| 0 <= a < k ==> crate::scalar::fits(self.repr, #[trigger] self.variants@[a].discriminant),
                forall|a: int, b: int|
                    0 <= a < b < k ==> #[trigger] self.variants@[a].discriminant != #[trigger] self.variants@[b].discriminant,
            decreases n - k,
        {
            let d = self.variants[k].discriminant;
            if !scalar_fits(self.repr, d) {
                return false;
            }
            let mut l: usize = 0;
            while l < k
                invariant
                    n == self.variants@.len(),
                    l <= k < n,
                    d == self.variants@[k as int].discriminant,
                    forall|a: int| 0 <= a < l ==> #[trigger] self.variants@[a].discriminant != d,
                decreases k - l,
            {
                if self.variants[l].discriminant == d {
                    return false;
                }
                l = l + 1;
            }
            k = k + 1;
        }
        true
    }
}

/// Whether field `i` of `fields` is well formed.
fn field_is_valid(fields: &Vec<FieldDescriptor>, i: usize) -> (r: bool)
    requires
        i < fields@.len(),
    ensures
        r == field_wf(fields@, i as int),
{
    match &fields[i].kind {
        FieldKind::Bitfield(p, w) => 1 <= *w && (*w as usize) < 8 * p.size() && *w <= 64,
        FieldKind::EnumBitfield(e, w) => e.is_valid() && 1 <= *w && (*w as usize) < 8 * e.repr.size() && *w <= 64,
        FieldKind::Enum(e) => e.is_valid(),
        FieldKind::Bytes(Terminator::LengthOf(k)) | FieldKind::Text(Terminator::LengthOf(k)) => {
            *k < i && match &fields[*k].kind {
                FieldKind::Scalar(p) => !p.is_signed() && *p != Prim::Bool,
                FieldKind::Bitfield(p, _) => !p.is_signed() && *p != Prim::Bool,
                _ => false,
            }
        },
        FieldKind::Array(_, n) => *n <= usize::MAX / 16,
        _ => true,
    }
}

/// Whether the run of bitfields from `i` fits in 64 bits.
fn run_fits(fields: &Vec<FieldDescriptor>, i: usize) -> (r: bool)
    requires
        i < fields@.len(),
        fields@[i as int].kind.is_bitfield(),
    ensures
        r == (section_width(fields@, i as nat, run_end(fields@, i as nat)) <= 64),
{
    let j = bitfield_run_end(fields, i);
    proof {
        lemma_run_end(fields@, i as nat);
    }
    let mut t: u64 = 0;
    let mut k: usize = i;
    while k < j
        invariant
            j == run_end(fields@, i as nat),
            i <= k <= j <= fields@.len(),
            forall|l: int| i <= l < j ==> (#[trigger] fields@[l]).kind.is_bitfield(),
            t == section_width(fields@, i as nat, k as nat),
            t <= 64,
        decreases j - k,
    {
        let w = fields[k].kind.bit_width().unwrap();
        t = t + w as u64;
        k = k + 1;
        if t > 64 {
            proof {
                lemma_section_width_mono(fields@, i as nat, k as nat, j as nat);
            }
            return false;
        }
    }
    true
}

/// Whether each field is well formed, nested records included, and each run
/// of bitfields fits in 64 bits.
fn fields_valid(fields: &Vec<FieldDescriptor>) -> (r: bool)
    ensures
        r == fields_wf(fields@),
    decreases fields@,
{
    let n = fields.len();
    let mut i: usize = 0;
    while i < n
        invariant
            n == fields@.len(),
            i <= n,
            forall|a: int| 0 <= a < i ==> field_wf(fields@, a),
            forall|a: nat| a < i && (#[trigger] fields@[a as int]).kind.is_bitfield()
                ==> section_width(fields@, a, run_end(fields@, a)) <= 64,
            forall|a: int| 0 <= a < i && (#[trigger] fields@[a]).kind is Nested
                ==> fields_wf(fields@[a].kind->Nested_0.fields@),
        decreases n - i,
    {
        if !field_is_valid(fields, i) {
            return false;
        }
        if fields[i].kind.bit_width().is_some() && !run_fits(fields, i) {
            return false;
        }
        if let FieldKind::Nested(r) = &fields[i].kind {
            proof {
                assert(decreases_to!(fields@ => fields@[i as int]));
                assert(decreases_to!(fields@[i as int] => fields@[i as int].kind));
                assert(decreases_to!(fields@[i as int].kind => fields@[i as int].kind->Nested_0));
                assert(decreases_to!(r.fields => r.fields@));
            }
            if !fields_valid(&r.fields) {
                return false;
            }
        }
        i = i + 1;
    }
    true
}

impl RecordSchema {
    /// Whether each field is well formed, nested records included, and each
    /// run of bitfields fits in 64 bits.
    pub fn is_valid(&self) -> (r: bool)
        ensures
            r == self.wf(),
    {
        fields_valid(&self.fields)
    }

    /// A schema with the given fields, where they are well formed.
    pub fn new(fields: Vec<FieldDescriptor>) -> (r: Option<RecordSchema>)
        ensures
            r matches Some(s) ==> s.wf() && s.fields@ == fields@,
            r is None ==> !(RecordSchema { fields }).wf(),
    {
        let s = RecordSchema { fields };
        if s.is_valid() {
            Some(s)
        } else {
            None
        }
    }
}

} // verus!
