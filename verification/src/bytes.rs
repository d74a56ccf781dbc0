//! Big-endian integers as byte sequences.

use vstd::arithmetic::div_mod::lemma_div_denominator;
use vstd::arithmetic::power::{lemma_pow_positive, pow};
use vstd::prelude::*;

verus! {

/// The number that a sequence of base-256 digits stands for, most significant digit first.
pub open spec fn be_value(s: Seq<u8>) -> nat
    decreases s.len(),
{
    if s.len() == 0 {
        0
    } else {
        be_value(s.drop_last()) * 256 + s.last() as nat
    }
}

/// The `len` base-256 digits of `n`, most significant digit first.
pub open spec fn be_bytes(n: nat, len: nat) -> Seq<u8>
    decreases len,
{
    if len == 0 {
        Seq::empty()
    } else {
        be_bytes(n / 256, (len - 1) as nat).push((n % 256) as u8)
    }
}

/// `256` to the power `len`: the number of byte sequences of that length.
pub open spec fn be_limit(len: nat) -> nat
    decreases len,
{
    if len == 0 {
        1
    } else {
        be_limit((len - 1) as nat) * 256
    }
}

/// A fixed-length encoding has that length.
pub proof fn lemma_be_bytes_len(n: nat, len: nat)
    ensures
        be_bytes(n, len).len() == len,
    decreases len,
{
    if len > 0 {
        lemma_be_bytes_len(n / 256, (len - 1) as nat);
    }
}

/// Decoding an encoded number gives the number back, as long as it fits.
pub proof fn lemma_be_bytes_value(n: nat, len: nat)
    requires
        n < be_limit(len),
    ensures
        be_value(be_bytes(n, len)) == n,
    decreases len,
{
    if len > 0 {
        let rest: nat = (len - 1) as nat;
        assert(n / 256 < be_limit(rest)) by (nonlinear_arith)
            requires
                n < be_limit(rest) * 256,
        ;
        lemma_be_bytes_value(n / 256, rest);
        assert(be_bytes(n, len).drop_last() =~= be_bytes(n / 256, rest));
    }
}

/// Encoding a decoded sequence gives the sequence back, and its value fits its length.
pub proof fn lemma_be_value_bytes(s: Seq<u8>)
    ensures
        be_value(s) < be_limit(s.len()),
        be_bytes(be_value(s), s.len()) == s,
    decreases s.len(),
{
    if s.len() > 0 {
        let head = s.drop_last();
        lemma_be_value_bytes(head);
        let v: nat = be_value(head);
        let d: nat = s.last() as nat;
        assert(be_value(s) == v * 256 + d);
        assert((v * 256 + d) / 256 == v && (v * 256 + d) % 256 == d);
        assert(be_value(s) < be_limit(s.len())) by (nonlinear_arith)
            requires
                v < be_limit(head.len()),
                d < 256,
                be_value(s) == v * 256 + d,
                be_limit(s.len()) == be_limit(head.len()) * 256,
        ;
        assert(be_bytes(be_value(s), s.len()) =~= s);
    } else {
        assert(be_bytes(be_value(s), s.len()) =~= s);
    }
}

/// Two numbers that fit are told apart by their encodings.
pub proof fn lemma_be_bytes_injective(a: nat, b: nat, len: nat)
    requires
        a < be_limit(len),
        b < be_limit(len),
        be_bytes(a, len) == be_bytes(b, len),
    ensures
        a == b,
{
    lemma_be_bytes_value(a, len);
    lemma_be_bytes_value(b, len);
}

/// What 4, 8 and 12 bytes can hold.
pub proof fn lemma_be_limits()
    ensures
        be_limit(4) == 0x1_0000_0000,
        be_limit(8) == 0x1_0000_0000_0000_0000,
        be_limit(12) == 0x1_0000_0000_0000_0000_0000_0000,
{
    reveal_with_fuel(be_limit, 13);
}

/// The digits of a number whose low part has `low` digits are those of the high part
/// followed by those of the low part.
pub proof fn lemma_be_bytes_split(hi: nat, lo: nat, high: nat, low: nat)
    requires
        lo < be_limit(low),
    ensures
        be_bytes(hi * be_limit(low) + lo, high + low) == be_bytes(hi, high) + be_bytes(lo, low),
    decreases low,
{
    if low == 0 {
        assert(be_limit(0) == 1);
        assert(hi * 1 == hi);
        assert(be_bytes(hi, high) + be_bytes(lo, 0) =~= be_bytes(hi, high));
    } else {
        let l: nat = (low - 1) as nat;
        let n: nat = hi * be_limit(low) + lo;
        let q: nat = hi * be_limit(l);
        assert(hi * (be_limit(l) * 256) == q * 256) by (nonlinear_arith)
            requires
                q == hi * be_limit(l),
        ;
        assert(n == q * 256 + lo);
        assert(n / 256 == q + lo / 256 && n % 256 == lo % 256);
        assert(lo / 256 < be_limit(l)) by (nonlinear_arith)
            requires
                lo < be_limit(l) * 256,
        ;
        lemma_be_bytes_split(hi, lo / 256, high, l);
        assert(be_bytes(n, high + low) =~= be_bytes(hi, high) + be_bytes(lo, low));
    }
}

/// The value of a concatenation, from the values of its parts.
pub proof fn lemma_be_value_split(a: Seq<u8>, b: Seq<u8>)
    ensures
        be_value(a + b) == be_value(a) * be_limit(b.len()) + be_value(b),
    decreases b.len(),
{
    if b.len() == 0 {
        assert(a + b =~= a);
        assert(be_limit(0) == 1);
        assert(be_value(a) * 1 == be_value(a));
    } else {
        let c = b.drop_last();
        let high: nat = be_value(a);
        let limit: nat = be_limit(c.len());
        assert((a + b).drop_last() =~= a + c);
        assert((a + b).last() == b.last());
        lemma_be_value_split(a, c);
        assert((high * limit) * 256 == high * (limit * 256)) by (nonlinear_arith);
        assert(be_limit(b.len()) == limit * 256);
        assert(be_value(a + b) == (high * limit + be_value(c)) * 256 + b.last() as nat);
    }
}

/// Encodes a `u32` as four big-endian bytes.
pub fn u32_be(v: u32) -> (r: [u8; 4])
    ensures
        r@ == be_bytes(v as nat, 4),
{
    proof {
        reveal_with_fuel(be_bytes, 5);
    }
    let r: [u8; 4] = [
        (v / 0x100_0000) as u8,
        (v / 0x1_0000 % 256) as u8,
        (v / 0x100 % 256) as u8,
        (v % 256) as u8,
    ];
    assert(r@ =~= be_bytes(v as nat, 4));
    r
}

/// Encodes a `u64` as eight big-endian bytes.
pub fn u64_be(v: u64) -> (r: [u8; 8])
    ensures
        r@ == be_bytes(v as nat, 8),
{
    let hi: [u8; 4] = u32_be((v / 0x1_0000_0000) as u32);
    let lo: [u8; 4] = u32_be((v % 0x1_0000_0000) as u32);
    let r: [u8; 8] = [hi[0], hi[1], hi[2], hi[3], lo[0], lo[1], lo[2], lo[3]];
    proof {
        lemma_be_limits();
        lemma_be_bytes_split((v / 0x1_0000_0000) as nat, (v % 0x1_0000_0000) as nat, 4, 4);
        lemma_be_bytes_len((v / 0x1_0000_0000) as nat, 4);
        lemma_be_bytes_len((v % 0x1_0000_0000) as nat, 4);
        assert(r@ =~= hi@ + lo@);
    }
    r
}

/// Reads four big-endian bytes as a `u32`.
pub fn u32_from_be(s: &[u8; 4]) -> (v: u32)
    ensures
        v as nat == be_value(s@),
{
    proof {
        lemma_be_value_bytes(s@);
        lemma_be_limits();
        reveal_with_fuel(be_value, 5);
    }
    s[0] as u32 * 0x100_0000 + s[1] as u32 * 0x1_0000 + s[2] as u32 * 0x100 + s[3] as u32
}

/// Reads eight big-endian bytes as a `u64`.
pub fn u64_from_be(s: &[u8; 8]) -> (v: u64)
    ensures
        v as nat == be_value(s@),
{
    let hi: [u8; 4] = [s[0], s[1], s[2], s[3]];
    let lo: [u8; 4] = [s[4], s[5], s[6], s[7]];
    proof {
        assert(s@ =~= hi@ + lo@);
        lemma_be_value_split(hi@, lo@);
        lemma_be_limits();
    }
    u32_from_be(&hi) as u64 * 0x1_0000_0000 + u32_from_be(&lo) as u64
}

/// The `N` bytes of a slice from an index on.
pub fn array_at<const N: usize>(s: &[u8], from: usize) -> (r: [u8; N])
    requires
        from + N <= s@.len(),
    ensures
        r@ == s@.subrange(from as int, from + N),
{
    let len: usize = s.len();
    let mut r: [u8; N] = [0u8; N];
    let mut i: usize = 0;
    while i < N
        invariant
            i <= N,
            len == s@.len(),
            from + N <= len,
            forall|j: int| 0 <= j < i ==> r@[j] == s@[from + j],
        decreases N - i,
    {
        r[i] = s[from + i];
        i = i + 1;
    }
    assert(r@ =~= s@.subrange(from as int, from + N));
    r
}

/// Whether two byte slices hold the same bytes.
pub fn same_bytes(a: &[u8], b: &[u8]) -> (r: bool)
    ensures
        r == (a@ == b@),
{
    if a.len() != b.len() {
        return false;
    }
    let mut i: usize = 0;
    while i < a.len()
        invariant
            i <= a@.len(),
            a@.len() == b@.len(),
            forall|j: int| 0 <= j < i ==> a@[j] == b@[j],
        decreases a@.len() - i,
    {
        if a[i] != b[i] {
            return false;
        }
        i = i + 1;
    }
    assert(a@ =~= b@);
    true
}

/// A length of bytes holds as many values as the power of 256 says.
pub proof fn law_limit_is_power(len: nat)
    ensures
        be_limit(len) == pow(256, len),
    decreases len,
{
    reveal(pow);
    if len > 0 {
        law_limit_is_power((len - 1) as nat);
    }
}

/// The digit at an index is the number divided by the weight of that place, modulo 256: the
/// first digit has the highest weight.
pub proof fn law_digits_by_weight(n: nat, len: nat, i: nat)
    requires
        i < len,
    ensures
        be_bytes(n, len).len() == len,
        be_bytes(n, len)[i as int] as int == (n as int / pow(256, (len - 1 - i) as nat)) % 256,
    decreases len,
{
    lemma_be_bytes_len(n, len);
    reveal(pow);
    if i == len - 1 {
        assert(pow(256, 0) == 1);
    } else {
        let rest: nat = (len - 1) as nat;
        let e: nat = (rest - 1 - i) as nat;
        law_digits_by_weight(n / 256, rest, i);
        assert(be_bytes(n, len)[i as int] == be_bytes(n / 256, rest)[i as int]);
        lemma_pow_positive(256, e);
        lemma_div_denominator(n as int, 256, pow(256, e));
        assert(pow(256, e + 1) == 256 * pow(256, e));
    }
}

} // verus!
