//! Little-endian byte sequences as a model of unsigned integers.
//!
//! `le_val` reads a byte sequence as an unsigned integer, least-significant
//! byte first; `le_bytes` writes the low `n` bytes of an integer in the same
//! order. The lemmas here relate the two and bound their results, and the
//! executable `le_push` / `le_read` realize them on `Vec<u8>` and `&[u8]`.

use vstd::prelude::*;

verus! {

use vstd::arithmetic::power2::{
    pow2,
    lemma_pow2_adds,
    lemma_pow2_pos,
    lemma_pow2_strictly_increases,
    lemma_pow2_unfold,
    lemma2_to64,
};
use vstd::arithmetic::div_mod::{
    lemma_breakdown,
    lemma_div_denominator,
    lemma_fundamental_div_mod,
    lemma_div_basics,
};
use vstd::arithmetic::mul::lemma_mul_inequality;

/// The value of a byte sequence read as a little-endian unsigned integer.
pub open spec fn le_val(s: Seq<u8>) -> nat
    decreases s.len(),
{
    if s.len() == 0 {
        0
    } else {
        s[0] as nat + 256 * le_val(s.skip(1))
    }
}

/// The low `n` bytes of `x`, least-significant byte first.
pub open spec fn le_bytes(x: nat, n: nat) -> Seq<u8>
    decreases n,
{
    if n == 0 {
        Seq::empty()
    } else {
        seq![(x % 256) as u8] + le_bytes(x / 256, (n - 1) as nat)
    }
}

/// Powers of two do not decrease.
pub proof fn lemma_pow2_le(e1: nat, e2: nat)
    requires
        e1 <= e2,
    ensures
        pow2(e1) <= pow2(e2),
{
    if e1 < e2 {
        lemma_pow2_strictly_increases(e1, e2);
    }
}

/// `le_bytes` produces exactly `n` bytes.
pub proof fn lemma_le_bytes_len(x: nat, n: nat)
    ensures
        le_bytes(x, n).len() == n,
    decreases n,
{
    if n > 0 {
        lemma_le_bytes_len(x / 256, (n - 1) as nat);
    }
}

/// Reading back the low `n` bytes of `x` yields `x` modulo `2^(8n)`.
pub proof fn lemma_le_val_le_bytes(x: nat, n: nat)
    ensures
        le_val(le_bytes(x, n)) == x % pow2(8 * n),
    decreases n,
{
    if n == 0 {
        assert(pow2(0) == 1) by {
            lemma2_to64();
        }
        lemma_fundamental_div_mod(x as int, 1);
        lemma_div_basics(x as int);
    } else {
        let m = (n - 1) as nat;
        let t = le_bytes(x / 256, m);
        assert(le_bytes(x, n) == seq![(x % 256) as u8] + t);
        assert((seq![(x % 256) as u8] + t).skip(1) =~= t);
        lemma_le_val_le_bytes(x / 256, m);
        assert(le_val(le_bytes(x, n)) == x % 256 + 256 * ((x / 256) % pow2(8 * m)));
        assert(pow2(8) == 256) by {
            lemma2_to64();
        }
        lemma_pow2_adds(8, 8 * m);
        lemma_pow2_pos(8 * m);
        lemma_breakdown(x as int, 256, pow2(8 * m) as int);
    }
}

/// A sequence of `n` bytes reads back to a value below `2^(8n)`.
pub proof fn lemma_le_val_bound(s: Seq<u8>)
    ensures
        le_val(s) < pow2(8 * s.len()),
    decreases s.len(),
{
    if s.len() == 0 {
        assert(pow2(0) == 1) by {
            lemma2_to64();
        }
    } else {
        let m = (s.len() - 1) as nat;
        lemma_le_val_bound(s.skip(1));
        assert(le_val(s.skip(1)) <= pow2(8 * m) - 1);
        lemma_mul_inequality(le_val(s.skip(1)) as int, pow2(8 * m) - 1, 256);
        assert(pow2(8) == 256) by {
            lemma2_to64();
        }
        lemma_pow2_adds(8 * m, 8);
        assert(le_val(s) < 256 * pow2(8 * m));
    }
}

/// Extending `le_bytes` by one byte appends the next-higher byte of `x`.
pub proof fn lemma_le_bytes_snoc(x: nat, n: nat)
    ensures
        le_bytes(x, n + 1) == le_bytes(x, n).push(((x / pow2(8 * n)) % 256) as u8),
    decreases n,
{
    if n == 0 {
        assert(pow2(0) == 1) by {
            lemma2_to64();
        }
        lemma_div_basics(x as int);
        assert(le_bytes(x / 256, 0) == Seq::<u8>::empty());
        assert(le_bytes(x, 0) == Seq::<u8>::empty());
        assert(le_bytes(x, 1) == seq![(x % 256) as u8] + le_bytes(x / 256, 0));
        assert(le_bytes(x, 1) =~= le_bytes(x, 0).push(((x / pow2(0)) % 256) as u8));
    } else {
        let m = (n - 1) as nat;
        lemma_le_bytes_snoc(x / 256, m);
        assert(pow2(8) == 256) by {
            lemma2_to64();
        }
        lemma_pow2_adds(8, 8 * m);
        lemma_pow2_pos(8 * m);
        lemma_div_denominator(x as int, 256, pow2(8 * m) as int);
        assert((x / 256) / pow2(8 * m) == x / pow2(8 * n));
        assert(le_bytes(x, n + 1) == seq![(x % 256) as u8] + le_bytes(x / 256, m).push(
            ((x / pow2(8 * n)) % 256) as u8,
        ));
        assert(seq![(x % 256) as u8] + le_bytes(x / 256, m).push(((x / pow2(8 * n)) % 256) as u8)
            =~= (seq![(x % 256) as u8] + le_bytes(x / 256, m)).push(((x / pow2(8 * n)) % 256) as u8));
    }
}

/// Reading a nonempty range splits into its first byte and the rest.
pub proof fn lemma_le_val_unfold(s: Seq<u8>, a: int, b: int)
    requires
        0 <= a < b <= s.len(),
    ensures
        le_val(s.subrange(a, b)) == s[a] + 256 * le_val(s.subrange(a + 1, b)),
{
    let sub = s.subrange(a, b);
    assert(sub[0] == s[a]);
    assert(sub.skip(1) =~= s.subrange(a + 1, b));
}

/// `2^k` as a machine word.
pub fn pow2_u64(k: usize) -> (p: u64)
    requires
        k < 64,
    ensures
        p as nat == pow2(k as nat),
{
    proof {
        lemma2_to64();
    }
    let mut p: u64 = 1;
    let mut i: usize = 0;
    while i < k
        invariant
            i <= k,
            k < 64,
            p as nat == pow2(i as nat),
        decreases k - i,
    {
        proof {
            lemma_pow2_unfold((i + 1) as nat);
            lemma_pow2_strictly_increases((i + 1) as nat, 64);
            lemma2_to64();
        }
        p = p * 2;
        i = i + 1;
    }
    p
}

/// Appends the low `n` bytes of `x` to `out`, least-significant byte first.
pub fn le_push(out: &mut Vec<u8>, x: u64, n: usize)
    ensures
        final(out)@ == old(out)@ + le_bytes(x as nat, n as nat),
{
    let ghost x0 = x as nat;
    let ghost base = out@;
    proof {
        lemma2_to64();
        lemma_div_basics(x0 as int);
        assert(base + le_bytes(x0, 0) =~= base);
    }
    let mut cur = x;
    let mut i: usize = 0;
    while i < n
        invariant
            i <= n,
            out@ == base + le_bytes(x0, i as nat),
            cur as nat == x0 / pow2(8 * i as nat),
        decreases n - i,
    {
        proof {
            lemma_le_bytes_snoc(x0, i as nat);
            lemma_pow2_pos(8 * i as nat);
            lemma_pow2_adds(8 * i as nat, 8);
            lemma_div_denominator(x0 as int, pow2(8 * i as nat) as int, 256);
            assert(pow2(8) == 256) by {
                lemma2_to64();
            }
        }
        out.push((cur % 256) as u8);
        cur = cur / 256;
        i = i + 1;
        proof {
            assert(out@ =~= base + le_bytes(x0, i as nat));
        }
    }
}

/// Reads `n` bytes of `bytes` starting at `start` as a little-endian value.
pub fn le_read(bytes: &[u8], start: usize, n: usize) -> (x: u64)
    requires
        start + n <= bytes@.len(),
        n <= 8,
    ensures
        x as nat == le_val(bytes@.subrange(start as int, start as int + n as int)),
{
    proof {
        lemma2_to64();
    }
    let slice_len = bytes.len();
    let mut x: u64 = 0;
    let mut i: usize = n;
    while i > 0
        invariant
            i <= n,
            n <= 8,
            start + n <= slice_len,
            slice_len == bytes@.len(),
            x as nat == le_val(bytes@.subrange(start as int + i as int, start as int + n as int)),
            (x as nat) < pow2((8 * (n - i)) as nat),
        decreases i,
    {
        i = i - 1;
        proof {
            let m = (n - i) as nat;
            lemma_le_val_unfold(bytes@, start as int + i as int, start as int + n as int);
            lemma_mul_inequality(x as int, pow2((8 * (m - 1)) as nat) - 1, 256);
            lemma_pow2_adds((8 * (m - 1)) as nat, 8);
            assert(pow2(8) == 256) by {
                lemma2_to64();
            }
            lemma_pow2_le(8 * m, 64);
            lemma2_to64();
        }
        x = x * 256 + (bytes[start + i] as u64);
    }
    x
}

} // verus!
