//! Fixed-width primitive values and their byte representation.
use vstd::prelude::*;
use crate::digits::{
    lemma_pow256_16, lemma_pow256_monotonic, lemma_pow256_positive, lemma_uint_round_trip,
    lemma_uint_value_bound, pow256, push_uint, read_uint, uint_bytes, uint_value, ByteOrder,
};

verus! {

/// A fixed-width primitive type of the wire format.
#[derive(Clone, Copy, Debug, PartialEq, Eq, Structural)]
pub enum Prim {
    Bool,
    U8,
    I8,
    U16,
    I16,
    U32,
    I32,
    U64,
    I64,
    U128,
    I128,
}

/// A primitive value: a boolean, or an integer read as unsigned or signed.
#[derive(Clone, Copy, Debug, PartialEq, Eq, Structural)]
pub enum Scalar {
    Bool(bool),
    Unsigned(u128),
    Signed(i128),
}

impl Prim {
    /// Number of bytes the type occupies on the wire.
    pub open spec fn spec_size(self) -> nat {
        match self {
            Prim::Bool | Prim::U8 | Prim::I8 => 1,
            Prim::U16 | Prim::I16 => 2,
            Prim::U32 | Prim::I32 => 4,
            Prim::U64 | Prim::I64 => 8,
            Prim::U128 | Prim::I128 => 16,
        }
    }

    pub open spec fn spec_is_signed(self) -> bool {
        match self {
            Prim::I8 | Prim::I16 | Prim::I32 | Prim::I64 | Prim::I128 => true,
            _ => false,
        }
    }

    pub open spec fn spec_is_unsigned(self) -> bool {
        !self.spec_is_signed() && self != Prim::Bool
    }

    /// Number of bytes the type occupies on the wire.
    pub fn size(self) -> (r: usize)
        ensures
            r == self.spec_size(),
    {
        match self {
            Prim::Bool | Prim::U8 | Prim::I8 => 1,
            Prim::U16 | Prim::I16 => 2,
            Prim::U32 | Prim::I32 => 4,
            Prim::U64 | Prim::I64 => 8,
            Prim::U128 | Prim::I128 => 16,
        }
    }

    #[verifier::when_used_as_spec(spec_is_signed)]
    pub fn is_signed(self) -> (r: bool)
        ensures
            r == self.spec_is_signed(),
    {
        match self {
            Prim::I8 | Prim::I16 | Prim::I32 | Prim::I64 | Prim::I128 => true,
            _ => false,
        }
    }

    /// Number of bits of the type.
    pub open spec fn bits(self) -> nat {
        8 * self.spec_size()
    }
}

/// Whether `s` is a value of type `p`.
pub open spec fn fits(p: Prim, s: Scalar) -> bool {
    let full = pow256(p.spec_size());
    match s {
        Scalar::Bool(_) => p == Prim::Bool,
        Scalar::Unsigned(v) => p.spec_is_unsigned() && v < full,
        Scalar::Signed(v) => p.spec_is_signed() && -(full / 2) <= v < full / 2,
    }
}

/// The unsigned number whose bytes represent `s` in type `p` (two's
/// complement for negative values).
pub open spec fn pattern(p: Prim, s: Scalar) -> nat {
    match s {
        Scalar::Bool(b) => if b { 1 } else { 0 },
        Scalar::Unsigned(v) => v as nat,
        Scalar::Signed(v) => if v >= 0 { v as nat } else { (v + pow256(p.spec_size())) as nat },
    }
}

/// The value of type `p` that the unsigned number `n` represents.
pub open spec fn from_pattern(p: Prim, n: nat) -> Scalar {
    let full = pow256(p.spec_size());
    if p == Prim::Bool {
        Scalar::Bool(n == 1)
    } else if p.spec_is_signed() {
        Scalar::Signed((if n < full / 2 { n as int } else { n - full }) as i128)
    } else {
        Scalar::Unsigned(n as u128)
    }
}

/// The bytes of the value `s` of type `p`.
pub open spec fn scalar_bytes(p: Prim, s: Scalar, order: ByteOrder) -> Seq<u8> {
    uint_bytes(pattern(p, s), p.spec_size(), order)
}

/// The value of type `p` that the bytes `b` hold.
pub open spec fn scalar_of_bytes(p: Prim, b: Seq<u8>, order: ByteOrder) -> Scalar {
    from_pattern(p, uint_value(b, order))
}

proof fn lemma_full_even(w: nat)
    requires
        w >= 1,
    ensures
        pow256(w) % 2 == 0,
        pow256(w) >= 256,
        pow256(w) / 2 * 2 == pow256(w),
{
    lemma_pow256_positive((w - 1) as nat);
}

/// The pattern of a value of a type lies below `256^size`, and that pattern
/// read back gives the value.
pub proof fn lemma_scalar_pattern(p: Prim, s: Scalar)
    requires
        fits(p, s),
    ensures
        pattern(p, s) < pow256(p.spec_size()),
        from_pattern(p, pattern(p, s)) == s,
{
    lemma_full_even(p.spec_size());
    lemma_pow256_monotonic(p.spec_size(), 16);
    lemma_pow256_16();
}

/// Bytes written for a value read back as that value.
pub proof fn lemma_scalar_round_trip(p: Prim, s: Scalar, order: ByteOrder)
    requires
        fits(p, s),
    ensures
        scalar_of_bytes(p, scalar_bytes(p, s, order), order) == s,
        scalar_bytes(p, s, order).len() == p.spec_size(),
{
    lemma_scalar_pattern(p, s);
    lemma_uint_round_trip(pattern(p, s), p.spec_size(), order);
}

/// `256^w - 1`.
fn max_of_width(w: usize) -> (r: u128)
    requires
        w <= 16,
    ensures
        r as nat == pow256(w as nat) - 1,
{
    let mut m: u128 = 0;
    let mut i: usize = 0;
    while i < w
        invariant
            i <= w <= 16,
            m as nat == pow256(i as nat) - 1,
        decreases w - i,
    {
        proof {
            lemma_pow256_monotonic((i + 1) as nat, 16);
            lemma_pow256_16();
        }
        m = m * 256 + 255;
        i = i + 1;
    }
    m
}

/// Whether `s` is a value of type `p`.
pub fn scalar_fits(p: Prim, s: Scalar) -> (r: bool)
    ensures
        r == fits(p, s),
{
    let w = p.size();
    let max = max_of_width(w);
    proof {
        lemma_full_even(w as nat);
        lemma_pow256_monotonic(w as nat, 16);
        lemma_pow256_16();
    }
    match s {
        Scalar::Bool(_) => p == Prim::Bool,
        Scalar::Unsigned(v) => !p.is_signed() && p != Prim::Bool && v <= max,
        Scalar::Signed(v) => {
            if !p.is_signed() {
                false
            } else if w >= 16 {
                true
            } else {
                proof {
                    lemma_pow256_monotonic(w as nat, 15);
                    reveal_with_fuel(pow256, 16);
                }
                let h: i128 = (max / 2 + 1) as i128;
                -h <= v && v < h
            }
        },
    }
}

/// Appends the bytes of the value `s` of type `p`.
pub fn push_scalar(out: &mut Vec<u8>, p: Prim, s: Scalar, order: ByteOrder)
    requires
        fits(p, s),
    ensures
        final(out)@ == old(out)@ + scalar_bytes(p, s, order),
{
    let w = p.size();
    let max = max_of_width(w);
    proof {
        lemma_full_even(w as nat);
        lemma_pow256_monotonic(w as nat, 16);
        lemma_pow256_16();
    }
    let n: u128 = match s {
        Scalar::Bool(b) => if b { 1 } else { 0 },
        Scalar::Unsigned(v) => v,
        Scalar::Signed(v) => {
            if v >= 0 {
                v as u128
            } else {
                let m: i128 = -(v + 1);
                max - (m as u128)
            }
        },
    };
    push_uint(out, n, w, order);
}

/// The value of type `p` held by the `size` bytes of `buf` at `start`.
pub fn read_scalar(buf: &[u8], start: usize, p: Prim, order: ByteOrder) -> (r: Scalar)
    requires
        start + p.spec_size() <= buf@.len(),
    ensures
        r == scalar_of_bytes(p, buf@.subrange(start as int, start + p.spec_size()), order),
{
    let w = p.size();
    let n = read_uint(buf, start, w, order);
    let max = max_of_width(w);
    proof {
        lemma_uint_value_bound(buf@.subrange(start as int, start + w), order);
        lemma_full_even(w as nat);
        lemma_pow256_monotonic(w as nat, 16);
        lemma_pow256_16();
    }
    if p == Prim::Bool {
        Scalar::Bool(n == 1)
    } else if p.is_signed() {
        let h: u128 = max / 2 + 1;
        if n < h {
            Scalar::Signed(n as i128)
        } else {
            Scalar::Signed(((n - h) as i128) - ((h - 1) as i128) - 1)
        }
    } else {
        Scalar::Unsigned(n)
    }
}

} // verus!
