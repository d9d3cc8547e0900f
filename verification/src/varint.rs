//! The prefix-varint codec: `size_of`, `encode` and `decode`.
//!
//! A value `v` below `2^56` is encoded in `n` bytes, where `n` is the least
//! count whose `7 * n` payload bits hold `v`: the bytes are the little-endian
//! form of `(2 * v + 1) * 2^(n - 1)`, so the first byte carries exactly
//! `n - 1` trailing zero bits. A value of `2^56` or more takes a leading
//! `0x00` byte (eight trailing zeros) followed by the eight little-endian
//! bytes of `v`. The length of an encoding is therefore recoverable from its
//! first byte alone: one more than that byte's trailing zero count.

use vstd::prelude::*;

verus! {

use vstd::arithmetic::power2::{
    pow2,
    lemma_pow2_adds,
    lemma_pow2_pos,
    lemma_pow2_unfold,
    lemma2_to64,
    lemma2_to64_rest,
};
use vstd::arithmetic::mul::{
    lemma_mul_strict_inequality,
    lemma_mul_strictly_positive,
    lemma_mul_is_commutative,
};
use vstd::arithmetic::div_mod::{
    lemma_small_mod,
    lemma_mod_mod,
    lemma_mod_multiples_basic,
    lemma_div_multiples_vanish,
    lemma_div_denominator,
    lemma_div_basics,
    lemma_truncate_middle,
    lemma_multiply_divide_lt,
};
use crate::le::{
    le_val,
    le_bytes,
    le_push,
    le_read,
    pow2_u64,
    lemma_le_bytes_len,
    lemma_le_val_le_bytes,
    lemma_le_val_bound,
    lemma_pow2_le,
};

/// The single failure of the codec: the byte source ended before the count
/// of bytes that the first byte declares was available.
#[derive(Debug, Clone, Copy, PartialEq, Eq, Structural)]
pub enum Error {
    UnexpectedEnd,
}

/// The number of bytes the encoding of `v` occupies: 1 through 8 for values
/// below `2^56` (7 payload bits per byte), and 9 for everything above.
pub open spec fn spec_size_of(v: u64) -> int {
    if v < 0x80 {
        1
    } else if v < 0x4000 {
        2
    } else if v < 0x20_0000 {
        3
    } else if v < 0x1000_0000 {
        4
    } else if v < 0x8_0000_0000 {
        5
    } else if v < 0x400_0000_0000 {
        6
    } else if v < 0x2_0000_0000_0000 {
        7
    } else if v < 0x100_0000_0000_0000 {
        8
    } else {
        9
    }
}

/// The count of trailing zero bits of a byte: the number of times 2 divides
/// it, or 8 for a byte that is all zeros.
pub open spec fn tail_zeros(b: u8) -> int {
    if b == 0 {
        8
    } else if b % 2 != 0 {
        0
    } else if b % 4 != 0 {
        1
    } else if b % 8 != 0 {
        2
    } else if b % 16 != 0 {
        3
    } else if b % 32 != 0 {
        4
    } else if b % 64 != 0 {
        5
    } else if b % 128 != 0 {
        6
    } else {
        7
    }
}

/// The total length, in bytes, that an encoding starting with first byte `b`
/// occupies: one more than the trailing zero count of `b`.
pub open spec fn decoded_len(b: u8) -> int {
    tail_zeros(b) + 1
}

/// The value a complete encoding `s` stands for: the bits of `s` read as a
/// little-endian integer, above the length prefix. For a 9-byte encoding the
/// first byte carries no value bits at all.
pub open spec fn decoded_val(s: Seq<u8>) -> nat
    recommends
        s.len() >= 1,
        s.len() == decoded_len(s[0]),
{
    let n = decoded_len(s[0]);
    if n <= 8 {
        le_val(s) / pow2(n as nat)
    } else {
        le_val(s.skip(1))
    }
}

/// The encoding of `v`, as the bit-layout contract defines it.
pub open spec fn encoding(v: u64) -> Seq<u8> {
    let n = spec_size_of(v);
    if n <= 8 {
        le_bytes(((2 * v + 1) * pow2((n - 1) as nat)) as nat, n as nat)
    } else {
        seq![0u8] + le_bytes(v as nat, 8)
    }
}

/// `spec_size_of` lies between 1 and 9, and its thresholds are exactly the
/// powers `2^(7k)`: an `n`-byte encoding (`n <= 8`) holds values below
/// `2^(7n)`, and from the second byte on, at least `2^(7(n-1))`.
pub proof fn lemma_size_of_bounds(v: u64)
    ensures
        1 <= spec_size_of(v) <= 9,
        spec_size_of(v) <= 8 ==> (v as nat) < pow2((7 * spec_size_of(v)) as nat),
        spec_size_of(v) >= 2 ==> (v as nat) >= pow2((7 * (spec_size_of(v) - 1)) as nat),
{
    lemma2_to64();
    lemma2_to64_rest();
}

/// The byte length `encode` uses for `val`, computed without any I/O.
pub fn size_of(val: u64) -> (n: usize)
    ensures
        n as int == spec_size_of(val),
        1 <= n <= 9,
{
    if val < 0x80 {
        1
    } else if val < 0x4000 {
        2
    } else if val < 0x20_0000 {
        3
    } else if val < 0x1000_0000 {
        4
    } else if val < 0x8_0000_0000 {
        5
    } else if val < 0x400_0000_0000 {
        6
    } else if val < 0x2_0000_0000_0000 {
        7
    } else if val < 0x100_0000_0000_0000 {
        8
    } else {
        9
    }
}

/// The byte length of an encoding whose first byte is `b`.
pub fn prefix_len(b: u8) -> (n: usize)
    ensures
        n as int == decoded_len(b),
        1 <= n <= 9,
{
    if b == 0 {
        9
    } else if b % 2 != 0 {
        1
    } else if b % 4 != 0 {
        2
    } else if b % 8 != 0 {
        3
    } else if b % 16 != 0 {
        4
    } else if b % 32 != 0 {
        5
    } else if b % 64 != 0 {
        6
    } else if b % 128 != 0 {
        7
    } else {
        8
    }
}

/// The product `(2v + 1) * 2^(n-1)` of an `n`-byte encoding stays below
/// `2^(8n)`, and so fits the machine word.
proof fn lemma_scaled_bound(v: u64, n: int)
    requires
        1 <= n <= 8,
        (v as nat) < pow2((7 * n) as nat),
    ensures
        0 < (2 * v + 1) * pow2((n - 1) as nat) < pow2((8 * n) as nat),
        pow2((8 * n) as nat) <= pow2(64),
{
    lemma_pow2_unfold((7 * n + 1) as nat);
    lemma_pow2_pos((n - 1) as nat);
    assert(2 * v + 1 < pow2((7 * n + 1) as nat));
    lemma_mul_strict_inequality(
        2 * v + 1,
        pow2((7 * n + 1) as nat) as int,
        pow2((n - 1) as nat) as int,
    );
    lemma_mul_strictly_positive(2 * v + 1, pow2((n - 1) as nat) as int);
    lemma_pow2_adds((7 * n + 1) as nat, (n - 1) as nat);
    assert((7 * n + 1) as nat + (n - 1) as nat == (8 * n) as nat);
    lemma_pow2_le((8 * n) as nat, 64);
}

/// A byte that is an odd multiple of `2^z` has exactly `z` trailing zeros.
proof fn lemma_tail_zeros_char(b: u8, z: nat)
    requires
        z < 8,
        (b as nat) % pow2(z) == 0,
        ((b as nat) / pow2(z)) % 2 == 1,
    ensures
        tail_zeros(b) == z,
{
    lemma2_to64();
    if z == 0 {
        lemma_div_basics(b as int);
    } else if z == 1 {
        assert(b != 0 && b % 2 == 0 && b % 4 != 0) by (bit_vector)
            requires
                b % 2 == 0 && (b / 2) % 2 == 1,
        ;
    } else if z == 2 {
        assert(b != 0 && b % 2 == 0 && b % 4 == 0 && b % 8 != 0) by (bit_vector)
            requires
                b % 4 == 0 && (b / 4) % 2 == 1,
        ;
    } else if z == 3 {
        assert(b != 0 && b % 2 == 0 && b % 4 == 0 && b % 8 == 0 && b % 16 != 0) by (bit_vector)
            requires
                b % 8 == 0 && (b / 8) % 2 == 1,
        ;
    } else if z == 4 {
        assert(b != 0 && b % 2 == 0 && b % 4 == 0 && b % 8 == 0 && b % 16 == 0 && b % 32 != 0)
            by (bit_vector)
            requires
                b % 16 == 0 && (b / 16) % 2 == 1,
        ;
    } else if z == 5 {
        assert(b != 0 && b % 2 == 0 && b % 4 == 0 && b % 8 == 0 && b % 16 == 0 && b % 32 == 0
            && b % 64 != 0) by (bit_vector)
            requires
                b % 32 == 0 && (b / 32) % 2 == 1,
        ;
    } else if z == 6 {
        assert(b != 0 && b % 2 == 0 && b % 4 == 0 && b % 8 == 0 && b % 16 == 0 && b % 32 == 0
            && b % 64 == 0 && b % 128 != 0) by (bit_vector)
            requires
                b % 64 == 0 && (b / 64) % 2 == 1,
        ;
    } else {
        assert(b != 0 && b % 2 == 0 && b % 4 == 0 && b % 8 == 0 && b % 16 == 0 && b % 32 == 0
            && b % 64 == 0 && b % 128 == 0) by (bit_vector)
            requires
                b % 128 == 0 && (b / 128) % 2 == 1,
        ;
    }
}

/// Round trip, stated over the model: the encoding of `v` has exactly
/// `spec_size_of(v)` bytes, its first byte declares that same length, and it
/// decodes back to `v`.
pub proof fn lemma_round_trip(v: u64)
    ensures
        encoding(v).len() == spec_size_of(v),
        decoded_len(encoding(v)[0]) == spec_size_of(v),
        decoded_val(encoding(v)) == v as nat,
{
    lemma_size_of_bounds(v);
    lemma2_to64();
    let n = spec_size_of(v);
    if n <= 8 {
        let odd = 2 * (v as int) + 1;
        let x = (odd * pow2((n - 1) as nat)) as nat;
        lemma_scaled_bound(v, n);
        lemma_le_bytes_len(x, n as nat);
        assert(encoding(v) == le_bytes(x, n as nat));
        assert(le_bytes(x, n as nat) == seq![(x % 256) as u8] + le_bytes(x / 256, (n - 1) as nat));
        let b0 = encoding(v)[0];
        assert(b0 == (x % 256) as u8);
        // The low byte of `x` is the odd multiple `2^(n-1) * (odd mod 2^(9-n))`.
        lemma_mul_is_commutative(odd, pow2((n - 1) as nat) as int);
        lemma_pow2_pos((n - 1) as nat);
        lemma_pow2_pos((9 - n) as nat);
        lemma_pow2_pos((8 - n) as nat);
        lemma_truncate_middle(odd, pow2((n - 1) as nat) as int, pow2((9 - n) as nat) as int);
        lemma_pow2_adds((n - 1) as nat, (9 - n) as nat);
        assert(pow2((n - 1) as nat) * pow2((9 - n) as nat) == 256);
        let m = odd % (pow2((9 - n) as nat) as int);
        assert(x % 256 == pow2((n - 1) as nat) * m);
        lemma_pow2_unfold((9 - n) as nat);
        lemma_mod_mod(odd, 2, pow2((8 - n) as nat) as int);
        assert(odd % 2 == 1);
        assert(m % 2 == 1);
        assert(b0 as nat == x % 256);
        lemma_mul_is_commutative(pow2((n - 1) as nat) as int, m);
        lemma_mod_multiples_basic(m, pow2((n - 1) as nat) as int);
        lemma_div_multiples_vanish(m, pow2((n - 1) as nat) as int);
        lemma_tail_zeros_char(b0, (n - 1) as nat);
        assert(decoded_len(b0) == n);
        // The whole sequence reads back to `x`, and shifting away the `n`
        // prefix bits leaves `v`.
        lemma_le_val_le_bytes(x, n as nat);
        assert(8 * (n as nat) == (8 * n) as nat);
        lemma_small_mod(x, pow2((8 * n) as nat));
        assert(le_val(encoding(v)) == x);
        lemma_div_denominator(x as int, pow2((n - 1) as nat) as int, 2);
        lemma_div_multiples_vanish(odd, pow2((n - 1) as nat) as int);
        lemma_pow2_unfold(n as nat);
        assert(pow2((n - 1) as nat) * 2 == pow2(n as nat));
        assert(x / pow2(n as nat) == odd / 2);
        assert(odd / 2 == v as int);
    } else {
        lemma_le_bytes_len(v as nat, 8);
        assert(encoding(v) == seq![0u8] + le_bytes(v as nat, 8));
        assert(encoding(v)[0] == 0u8);
        assert(decoded_len(0u8) == 9);
        assert(encoding(v).skip(1) =~= le_bytes(v as nat, 8));
        lemma_le_val_le_bytes(v as nat, 8);
        lemma_small_mod(v as nat, pow2(64));
    }
}

/// The byte sequence that represents `val`: exactly `size_of(val)` bytes, in
/// the pattern the bit-layout contract prescribes.
pub fn encode(val: u64) -> (out: Vec<u8>)
    ensures
        out@ == encoding(val),
        out@.len() == spec_size_of(val),
{
    let n = size_of(val);
    let mut out: Vec<u8> = Vec::new();
    if n <= 8 {
        proof {
            lemma_size_of_bounds(val);
            lemma_scaled_bound(val, n as int);
            lemma2_to64();
        }
        let p = pow2_u64(n - 1);
        let x = (val * 2 + 1) * p;
        le_push(&mut out, x, n);
        proof {
            lemma_le_bytes_len(x as nat, n as nat);
            assert(out@ =~= le_bytes(x as nat, n as nat));
        }
        out
    } else {
        out.push(0u8);
        le_push(&mut out, val, 8);
        proof {
            lemma_le_bytes_len(val as nat, 8);
            assert(out@ =~= seq![0u8] + le_bytes(val as nat, 8));
        }
        out
    }
}

/// The value a byte source stands for, read from the front of `bytes`.
///
/// On success the result pairs the decoded value with the count of bytes
/// consumed, which trailing bytes cannot influence. The call fails exactly
/// when `bytes` holds fewer bytes than its own first byte declares —
/// a truncated encoding yields an error, never a partial value.
pub fn decode(bytes: &[u8]) -> (r: Result<(u64, usize), Error>)
    ensures
        r is Ok <==> (bytes@.len() >= 1 && bytes@.len() >= decoded_len(bytes@[0])),
        r is Err ==> r == Err::<(u64, usize), Error>(Error::UnexpectedEnd),
        r is Ok ==> r->Ok_0.1 as int == decoded_len(bytes@[0]),
        r is Ok ==> r->Ok_0.0 as nat == decoded_val(bytes@.subrange(0, decoded_len(bytes@[0]))),
{
    proof {
        lemma2_to64();
    }
    if bytes.len() == 0 {
        return Err(Error::UnexpectedEnd);
    }
    let b0 = bytes[0];
    let n = prefix_len(b0);
    if bytes.len() < n {
        return Err(Error::UnexpectedEnd);
    }
    if n <= 8 {
        let x = le_read(bytes, 0, n);
        let p = pow2_u64(n);
        proof {
            lemma_pow2_pos(n as nat);
            let s = bytes@.subrange(0, n as int);
            assert(s[0] == bytes@[0]);
            assert(decoded_len(s[0]) == n);
        }
        Ok((x / p, n))
    } else {
        let x = le_read(bytes, 1, 8);
        proof {
            let s = bytes@.subrange(0, 9);
            assert(s[0] == bytes@[0]);
            assert(bytes@[0] == 0u8);
            assert(s.skip(1) =~= bytes@.subrange(1, 9));
        }
        Ok((x, 9))
    }
}

/// Round trip through the byte level: a source that begins with the
/// encoding of `v` declares length `spec_size_of(v)` in its first byte,
/// holds enough bytes, and decodes to `v` — whatever follows the encoding.
/// Together with the contract of `decode`, `decode` returns
/// `Ok((v, size_of(v)))` on any such source.
pub proof fn lemma_decode_prefix(s: Seq<u8>, v: u64)
    requires
        encoding(v).is_prefix_of(s),
    ensures
        s.len() >= 1,
        decoded_len(s[0]) == spec_size_of(v),
        s.len() >= decoded_len(s[0]),
        decoded_val(s.subrange(0, decoded_len(s[0]))) == v as nat,
{
    lemma_round_trip(v);
    lemma_size_of_bounds(v);
    assert(encoding(v) =~= s.subrange(0, encoding(v).len() as int));
    assert(s[0] == encoding(v)[0]);
    assert(s.subrange(0, decoded_len(s[0])) =~= encoding(v));
}

/// Length consistency: the byte count that `encode` produces is the one
/// `size_of` predicts.
pub proof fn lemma_length_consistency(v: u64)
    ensures
        encoding(v).len() == spec_size_of(v),
{
    lemma_round_trip(v);
}

/// The encoded length never decreases as the value grows.
pub proof fn lemma_size_of_monotone(a: u64, b: u64)
    requires
        a <= b,
    ensures
        spec_size_of(a) <= spec_size_of(b),
{
}

/// The length steps up exactly at the powers `2^(7k)`: `2^(7k) - 1` still
/// fits `k` bytes, while `2^(7k)` needs `k + 1` — for `k == 8`, that is the
/// 9-byte form at `2^56`.
pub proof fn lemma_size_of_boundary(k: nat)
    requires
        1 <= k <= 8,
    ensures
        spec_size_of((pow2(7 * k) - 1) as u64) == k as int,
        spec_size_of(pow2(7 * k) as u64) == k as int + 1,
{
    lemma2_to64();
    lemma2_to64_rest();
}

/// Minimality: no sequence shorter than `spec_size_of(v)` — complete for
/// its own first byte — decodes to `v`.
pub proof fn lemma_minimality(s: Seq<u8>, v: u64)
    requires
        s.len() >= 1,
        s.len() == decoded_len(s[0]),
        s.len() < spec_size_of(v),
    ensures
        decoded_val(s) != v as nat,
{
    lemma_size_of_bounds(v);
    let n = s.len() as int;
    lemma_le_val_bound(s);
    lemma_pow2_pos(n as nat);
    lemma_pow2_adds(n as nat, (7 * n) as nat);
    assert(le_val(s) < pow2(n as nat) * pow2((7 * n) as nat));
    lemma_multiply_divide_lt(
        le_val(s) as int,
        pow2(n as nat) as int,
        pow2((7 * n) as nat) as int,
    );
    assert(decoded_val(s) < pow2((7 * n) as nat));
    lemma_pow2_le((7 * n) as nat, (7 * (spec_size_of(v) - 1)) as nat);
    assert((v as nat) >= pow2((7 * n) as nat));
}

/// Uniqueness: distinct values never share an encoding.
pub proof fn lemma_encoding_injective(a: u64, b: u64)
    requires
        encoding(a) == encoding(b),
    ensures
        a == b,
{
    lemma_round_trip(a);
    lemma_round_trip(b);
}

} // verus!
