//! Unsigned integers as sequences of base-256 digits.
use vstd::prelude::*;

verus! {

/// The order in which the bytes of a multi-byte value are laid out.
#[derive(Clone, Copy, Debug, PartialEq, Eq, Structural)]
pub enum ByteOrder {
    /// Most significant byte first.
    Be,
    /// Least significant byte first.
    Le,
}

impl ByteOrder {
    /// The other order.
    pub open spec fn flipped(self) -> ByteOrder {
        match self {
            ByteOrder::Be => ByteOrder::Le,
            ByteOrder::Le => ByteOrder::Be,
        }
    }
}

/// `2^n`.
pub open spec fn pow2(n: nat) -> nat
    decreases n,
{
    if n == 0 {
        1
    } else {
        2 * pow2((n - 1) as nat)
    }
}

/// `256^n`.
pub open spec fn pow256(n: nat) -> nat
    decreases n,
{
    if n == 0 {
        1
    } else {
        256 * pow256((n - 1) as nat)
    }
}

/// The `w` least significant base-256 digits of `n`, least significant first.
pub open spec fn le_digits(n: nat, w: nat) -> Seq<u8>
    decreases w,
{
    if w == 0 {
        Seq::empty()
    } else {
        seq![(n % 256) as u8] + le_digits(n / 256, (w - 1) as nat)
    }
}

/// The number whose base-256 digits, least significant first, are `s`.
pub open spec fn le_value(s: Seq<u8>) -> nat
    decreases s.len(),
{
    if s.len() == 0 {
        0
    } else {
        s[0] as nat + 256 * le_value(s.drop_first())
    }
}

pub proof fn lemma_pow256_positive(n: nat)
    ensures
        pow256(n) >= 1,
    decreases n,
{
    if n > 0 {
        lemma_pow256_positive((n - 1) as nat);
    }
}

/// Reading back the digits of a number that fits gives the number.
pub proof fn lemma_le_digits_round_trip(n: nat, w: nat)
    requires
        n < pow256(w),
    ensures
        le_value(le_digits(n, w)) == n,
        le_digits(n, w).len() == w,
    decreases w,
{
    if w > 0 {
        let q = n / 256;
        assert(q < pow256((w - 1) as nat)) by (nonlinear_arith)
            requires
                n < 256 * pow256((w - 1) as nat),
                q == n / 256,
        ;
        lemma_le_digits_round_trip(q, (w - 1) as nat);
        let d = le_digits(n, w);
        assert(d.drop_first() =~= le_digits(q, (w - 1) as nat));
    }
}

/// The value of `w` digits lies below `256^w`.
pub proof fn lemma_le_value_bound(s: Seq<u8>)
    ensures
        le_value(s) < pow256(s.len()),
    decreases s.len(),
{
    if s.len() > 0 {
        lemma_le_value_bound(s.drop_first());
        let r = le_value(s.drop_first());
        let p = pow256((s.len() - 1) as nat);
        assert(s[0] as nat + 256 * r < 256 * p) by (nonlinear_arith)
            requires
                r < p,
                s[0] < 256,
        ;
    }
}

/// The `w` bytes of `n` in the given order.
pub open spec fn uint_bytes(n: nat, w: nat, order: ByteOrder) -> Seq<u8> {
    match order {
        ByteOrder::Le => le_digits(n, w),
        ByteOrder::Be => le_digits(n, w).reverse(),
    }
}

/// The number that the bytes `s` hold in the given order.
pub open spec fn uint_value(s: Seq<u8>, order: ByteOrder) -> nat {
    match order {
        ByteOrder::Le => le_value(s),
        ByteOrder::Be => le_value(s.reverse()),
    }
}

pub proof fn lemma_reverse_reverse(s: Seq<u8>)
    ensures
        s.reverse().reverse() == s,
        s.reverse().len() == s.len(),
{
    if s.len() > 0 {
        assert(s.reverse().reverse() =~= s);
    }
}

/// Bytes written for a number that fits in `w` bytes read back as that number.
pub proof fn lemma_uint_round_trip(n: nat, w: nat, order: ByteOrder)
    requires
        n < pow256(w),
    ensures
        uint_value(uint_bytes(n, w, order), order) == n,
        uint_bytes(n, w, order).len() == w,
{
    lemma_le_digits_round_trip(n, w);
    lemma_reverse_reverse(le_digits(n, w));
}

/// What `w` bytes hold lies below `256^w`.
pub proof fn lemma_uint_value_bound(s: Seq<u8>, order: ByteOrder)
    ensures
        uint_value(s, order) < pow256(s.len()),
{
    lemma_le_value_bound(s);
    lemma_reverse_reverse(s);
    lemma_le_value_bound(s.reverse());
}

pub proof fn lemma_pow256_is_pow2(n: nat)
    ensures
        pow256(n) == pow2(8 * n),
    decreases n,
{
    if n > 0 {
        lemma_pow256_is_pow2((n - 1) as nat);
        lemma_pow2_adds(8 * (n - 1) as nat, 8);
        reveal_with_fuel(pow2, 9);
        assert(pow2(8) == 256);
        assert(8 * n == 8 * (n - 1) as nat + 8) by (nonlinear_arith)
            requires
                n > 0,
        ;
    }
}

pub proof fn lemma_pow2_adds(a: nat, b: nat)
    ensures
        pow2(a + b) == pow2(a) * pow2(b),
    decreases a,
{
    if a > 0 {
        let a1 = (a - 1) as nat;
        lemma_pow2_adds(a1, b);
        assert((a + b - 1) as nat == a1 + b);
        assert(pow2(a + b) == 2 * pow2(a1 + b));
        assert(pow2(a) == 2 * pow2(a1));
        assert(2 * (pow2(a1) * pow2(b)) == (2 * pow2(a1)) * pow2(b)) by (nonlinear_arith);
    } else {
        assert(pow2(a) == 1);
        assert(a + b == b);
    }
}

pub proof fn lemma_pow2_monotonic(a: nat, b: nat)
    requires
        a <= b,
    ensures
        pow2(a) <= pow2(b),
        pow2(a) >= 1,
    decreases b,
{
    if b > a {
        lemma_pow2_monotonic(a, (b - 1) as nat);
    } else if a > 0 {
        lemma_pow2_monotonic((a - 1) as nat, (a - 1) as nat);
    }
}

pub proof fn lemma_pow256_monotonic(a: nat, b: nat)
    requires
        a <= b,
    ensures
        pow256(a) <= pow256(b),
{
    lemma_pow256_is_pow2(a);
    lemma_pow256_is_pow2(b);
    lemma_pow2_monotonic(8 * a, 8 * b);
}

pub proof fn lemma_pow256_16()
    ensures
        pow256(16) == 0x1_0000_0000_0000_0000_0000_0000_0000_0000,
{
    reveal_with_fuel(pow256, 17);
}

/// Appends the `w` bytes of `n` in the given order.
pub fn push_uint(out: &mut Vec<u8>, n: u128, w: usize, order: ByteOrder)
    ensures
        final(out)@ == old(out)@ + uint_bytes(n as nat, w as nat, order),
{
    match order {
        ByteOrder::Le => push_le_digits(out, n, w),
        ByteOrder::Be => {
            let mut tmp: Vec<u8> = Vec::new();
            push_le_digits(&mut tmp, n, w);
            assert(tmp@ =~= le_digits(n as nat, w as nat));
            let ghost rev = tmp@.reverse();
            let len = tmp.len();
            let mut k: usize = 0;
            while k < len
                invariant
                    k <= len,
                    len == tmp@.len(),
                    rev == tmp@.reverse(),
                    out@ == old(out)@ + rev.subrange(0, k as int),
                decreases len - k,
            {
                out.push(tmp[len - 1 - k]);
                k = k + 1;
                assert(out@ =~= old(out)@ + rev.subrange(0, k as int));
            }
            assert(rev.subrange(0, len as int) =~= rev);
        },
    }
}

/// The number that `w` bytes of `buf`, starting at `start`, hold in the given
/// order.
pub fn read_uint(buf: &[u8], start: usize, w: usize, order: ByteOrder) -> (r: u128)
    requires
        start + w <= buf@.len(),
        w <= 16,
    ensures
        r as nat == uint_value(buf@.subrange(start as int, start + w), order),
{
    let ghost s = buf@.subrange(start as int, start + w);
    let ghost t = match order {
        ByteOrder::Le => s,
        ByteOrder::Be => s.reverse(),
    };
    proof {
        lemma_reverse_reverse(s);
    }
    let n = buf.len();
    let mut acc: u128 = 0;
    let mut k: usize = 0;
    while k < w
        invariant
            n == buf@.len(),
            k <= w,
            w <= 16,
            start + w <= buf@.len(),
            s == buf@.subrange(start as int, start + w),
            t.len() == w,
            t == (match order {
                ByteOrder::Le => s,
                ByteOrder::Be => s.reverse(),
            }),
            acc as nat == le_value(t.subrange(w - k, w as int)),
        decreases w - k,
    {
        let idx: usize = match order {
            ByteOrder::Le => start + (w - 1 - k),
            ByteOrder::Be => start + k,
        };
        let b = buf[idx];
        proof {
            let u = t.subrange(w - k - 1, w as int);
            assert(u.drop_first() =~= t.subrange(w - k, w as int));
            assert(t[w - k - 1] == b);
            lemma_le_value_bound(u);
            lemma_pow256_monotonic((k + 1) as nat, 16);
            lemma_pow256_16();
        }
        acc = b as u128 + 256 * acc;
        k = k + 1;
    }
    assert(t.subrange(0, w as int) =~= t);
    acc
}

/// Appends the `w` least significant base-256 digits of `n` to `out`, least
/// significant first.
pub fn push_le_digits(out: &mut Vec<u8>, n: u128, w: usize)
    ensures
        final(out)@ == old(out)@ + le_digits(n as nat, w as nat),
{
    let mut cur: u128 = n;
    let mut i: usize = 0;
    while i < w
        invariant
            i <= w,
            out@ + le_digits(cur as nat, (w - i) as nat) == old(out)@ + le_digits(n as nat, w as nat),
        decreases w - i,
    {
        let d: u8 = (cur % 256) as u8;
        let ghost before = out@;
        out.push(d);
        proof {
            let rest = le_digits(cur as nat / 256, (w - i - 1) as nat);
            assert(le_digits(cur as nat, (w - i) as nat) == seq![d] + rest);
            assert(before + (seq![d] + rest) =~= out@ + rest);
        }
        cur = cur / 256;
        i = i + 1;
    }
}

} // verus!
