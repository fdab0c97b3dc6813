//! Unsigned integers as sequences of bits, least significant first.
use vstd::prelude::*;
use crate::digits::{lemma_pow256_is_pow2, lemma_pow2_monotonic, pow2, pow256};

verus! {

/// The `w` least significant bits of `n`, least significant first.
pub open spec fn bits_of(n: nat, w: nat) -> Seq<bool>
    decreases w,
{
    if w == 0 {
        Seq::empty()
    } else {
        seq![n % 2 == 1] + bits_of(n / 2, (w - 1) as nat)
    }
}

/// The number whose bits, least significant first, are `s`.
pub open spec fn bits_value(s: Seq<bool>) -> nat
    decreases s.len(),
{
    if s.len() == 0 {
        0
    } else {
        (if s[0] { 1nat } else { 0nat }) + 2 * bits_value(s.drop_first())
    }
}

pub proof fn lemma_bits_round_trip(n: nat, w: nat)
    requires
        n < pow2(w),
    ensures
        bits_value(bits_of(n, w)) == n,
        bits_of(n, w).len() == w,
    decreases w,
{
    if w > 0 {
        let q = n / 2;
        assert(q < pow2((w - 1) as nat));
        lemma_bits_round_trip(q, (w - 1) as nat);
        assert(bits_of(n, w).drop_first() =~= bits_of(q, (w - 1) as nat));
    }
}

pub proof fn lemma_bits_value_bound(s: Seq<bool>)
    ensures
        bits_value(s) < pow2(s.len()),
    decreases s.len(),
{
    if s.len() > 0 {
        lemma_bits_value_bound(s.drop_first());
    }
}

/// The bits of the value of a sequence of bits are that sequence.
pub proof fn lemma_bits_of_value(s: Seq<bool>)
    ensures
        bits_of(bits_value(s), s.len()) == s,
    decreases s.len(),
{
    if s.len() > 0 {
        let t = s.drop_first();
        lemma_bits_of_value(t);
        let v = bits_value(s);
        assert(v / 2 == bits_value(t));
        assert(bits_of(v, s.len()) =~= s);
    }
}

pub proof fn lemma_pow2_64()
    ensures
        pow2(64) == 0x1_0000_0000_0000_0000,
{
    lemma_pow256_is_pow2(8);
    reveal_with_fuel(pow256, 9);
}

/// A mask whose `bit_num` least significant bits are set; all 64 bits for
/// `bit_num` of 64 or more.
pub fn mask_for_bits(bit_num: u32) -> (r: u64)
    ensures
        bit_num < 64 ==> r as nat == pow2(bit_num as nat) - 1,
        bit_num >= 64 ==> r == u64::MAX,
{
    if bit_num >= 64 {
        return u64::MAX;
    }
    let mut m: u64 = 0;
    let mut i: u32 = 0;
    while i < bit_num
        invariant
            i <= bit_num < 64,
            m as nat == pow2(i as nat) - 1,
        decreases bit_num - i,
    {
        proof {
            lemma_pow2_monotonic((i + 1) as nat, 64);
            lemma_pow2_64();
        }
        m = 2 * m + 1;
        i = i + 1;
    }
    m
}

/// Appends the `w` least significant bits of `n`, least significant first.
pub fn push_bits(out: &mut Vec<bool>, n: u128, w: usize)
    ensures
        final(out)@ == old(out)@ + bits_of(n as nat, w as nat),
{
    let mut cur: u128 = n;
    let mut i: usize = 0;
    while i < w
        invariant
            i <= w,
            out@ + bits_of(cur as nat, (w - i) as nat) == old(out)@ + bits_of(n as nat, w as nat),
        decreases w - i,
    {
        let b: bool = cur % 2 == 1;
        let ghost before = out@;
        out.push(b);
        proof {
            let rest = bits_of(cur as nat / 2, (w - i - 1) as nat);
            assert(bits_of(cur as nat, (w - i) as nat) == seq![b] + rest);
            assert(before + (seq![b] + rest) =~= out@ + rest);
        }
        cur = cur / 2;
        i = i + 1;
    }
}

/// Appends the `w` least significant bits of `n`, most significant first.
pub fn push_bits_msb_first(out: &mut Vec<bool>, n: u128, w: usize)
    ensures
        final(out)@ == old(out)@ + bits_of(n as nat, w as nat).reverse(),
{
    let mut tmp: Vec<bool> = Vec::new();
    push_bits(&mut tmp, n, w);
    assert(tmp@ =~= bits_of(n as nat, w as nat));
    let ghost rev = tmp@.reverse();
    let len = tmp.len();
    let mut k: usize = 0;
    while k < len
        invariant
            k <= len,
            len == tmp@.len(),
            rev == tmp@.reverse(),
            out@ == old(out)@ + rev.subrange(0, k as int),
        decreases len - k,
    {
        out.push(tmp[len - 1 - k]);
        k = k + 1;
        assert(out@ =~= old(out)@ + rev.subrange(0, k as int));
    }
    assert(rev.subrange(0, len as int) =~= rev);
}

pub proof fn lemma_bits_of_len(n: nat, w: nat)
    ensures
        bits_of(n, w).len() == w,
        bits_of(n, w).reverse().len() == w,
    decreases w,
{
    if w > 0 {
        lemma_bits_of_len(n / 2, (w - 1) as nat);
    }
}

/// The number held by `len` bits of `bits` from `start`: the first of them is
/// the least significant unless `msb_first`, where it is the most significant.
pub fn bits_number(bits: &Vec<bool>, start: usize, len: usize, msb_first: bool) -> (r: u128)
    requires
        start + len <= bits@.len(),
        len <= 64,
    ensures
        msb_first ==> r as nat == bits_value(bits@.subrange(start as int, start + len).reverse()),
        !msb_first ==> r as nat == bits_value(bits@.subrange(start as int, start + len)),
{
    let ghost s = bits@.subrange(start as int, start + len);
    let ghost t = if msb_first { s.reverse() } else { s };
    assert(t.len() == len) by {
        if s.len() > 0 {
            assert(s.reverse().len() == s.len());
        }
    }
    let n = bits.len();
    let mut acc: u128 = 0;
    let mut k: usize = 0;
    while k < len
        invariant
            n == bits@.len(),
            k <= len <= 64,
            start + len <= n,
            s == bits@.subrange(start as int, start + len),
            t.len() == len,
            t == (if msb_first { s.reverse() } else { s }),
            acc as nat == bits_value(t.subrange(len - k, len as int)),
        decreases len - k,
    {
        let idx: usize = if msb_first { start + k } else { start + (len - 1 - k) };
        let b = bits[idx];
        proof {
            let u = t.subrange(len - k - 1, len as int);
            assert(u.drop_first() =~= t.subrange(len - k, len as int));
            assert(t[len - k - 1] == b);
            lemma_bits_value_bound(u);
            lemma_pow2_monotonic((k + 1) as nat, 64);
            lemma_pow2_64();
        }
        acc = (if b { 1u128 } else { 0u128 }) + 2 * acc;
        k = k + 1;
    }
    assert(t.subrange(0, len as int) =~= t);
    acc
}

/// The number whose bits, least significant first, are `bits`.
pub fn bits_to_number(bits: &Vec<bool>) -> (r: u128)
    requires
        bits@.len() <= 64,
    ensures
        r as nat == bits_value(bits@),
{
    let r = bits_number(bits, 0, bits.len(), false);
    assert(bits@.subrange(0, bits@.len() as int) =~= bits@);
    r
}

} // verus!
