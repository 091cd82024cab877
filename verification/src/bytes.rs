//! Big-endian base-256 representation of unsigned values.
//!
//! All multi-byte integers on the wire are big-endian: the first byte is the
//! most significant.  `be_val` reads a byte string as a number, `be_bytes`
//! writes a number as a byte string of a chosen width, and the lemmas here
//! show that the two are inverse on values that fit the width.

use vstd::prelude::*;

verus! {

/// The number of distinct values a byte string of length `n` can hold: 256^n.
pub open spec fn pow256(n: nat) -> nat
    decreases n,
{
    if n == 0 {
        1
    } else {
        256 * pow256((n - 1) as nat)
    }
}

/// The value of a byte string read as a big-endian number:
/// the last byte is the least significant.
pub open spec fn be_val(s: Seq<u8>) -> nat
    decreases s.len(),
{
    if s.len() == 0 {
        0nat
    } else {
        (be_val(s.drop_last()) * 256 + s.last()) as nat
    }
}

/// The `n`-byte big-endian encoding of `x`.
pub open spec fn be_bytes(x: nat, n: nat) -> Seq<u8>
    decreases n,
{
    if n == 0 {
        Seq::empty()
    } else {
        be_bytes(x / 256, (n - 1) as nat).push((x % 256) as u8)
    }
}

pub proof fn lemma_pow256_pos(n: nat)
    ensures
        pow256(n) >= 1,
    decreases n,
{
    if n > 0 {
        lemma_pow256_pos((n - 1) as nat);
    }
}

pub proof fn lemma_pow256_increases(m: nat, n: nat)
    requires
        m <= n,
    ensures
        pow256(m) <= pow256(n),
    decreases n,
{
    if m < n {
        lemma_pow256_increases(m, (n - 1) as nat);
        lemma_pow256_pos((n - 1) as nat);
    }
}

/// 256^8 is the number of values of a u64.
pub proof fn lemma_pow256_u64()
    ensures
        pow256(8) == 0x1_0000_0000_0000_0000,
        pow256(4) == 0x1_0000_0000,
        pow256(2) == 0x1_0000,
        pow256(1) == 0x100,
{
    reveal_with_fuel(pow256, 9);
}

pub proof fn lemma_be_bytes_len(x: nat, n: nat)
    ensures
        be_bytes(x, n).len() == n,
    decreases n,
{
    if n > 0 {
        lemma_be_bytes_len(x / 256, (n - 1) as nat);
    }
}

pub proof fn lemma_be_val_bound(s: Seq<u8>)
    ensures
        be_val(s) < pow256(s.len()),
    decreases s.len(),
{
    if s.len() > 0 {
        lemma_be_val_bound(s.drop_last());
    }
}

/// Reading back the `n`-byte encoding of a value below 256^n recovers it.
pub proof fn lemma_be_val_of_be_bytes(x: nat, n: nat)
    requires
        x < pow256(n),
    ensures
        be_val(be_bytes(x, n)) == x,
    decreases n,
{
    if n > 0 {
        let hi = x / 256;
        assert(hi < pow256((n - 1) as nat)) by {
            vstd::arithmetic::div_mod::lemma_multiply_divide_lt(
                x as int,
                pow256((n - 1) as nat) as int,
                256,
            );
        }
        lemma_be_val_of_be_bytes(hi, (n - 1) as nat);
        lemma_be_bytes_len(hi, (n - 1) as nat);
        let s = be_bytes(x, n);
        assert(s.drop_last() =~= be_bytes(hi, (n - 1) as nat));
        vstd::arithmetic::div_mod::lemma_fundamental_div_mod(x as int, 256);
    }
}

/// One step of reading a big-endian number from the front:
/// taking in one more byte multiplies the value read so far by 256.
pub proof fn lemma_be_val_subrange_step(s: Seq<u8>, start: int, i: int)
    requires
        0 <= start,
        0 <= i,
        start + i < s.len(),
    ensures
        be_val(s.subrange(start, start + i + 1)) == be_val(s.subrange(start, start + i)) * 256 + s[
            start + i
        ],
{
    assert(s.subrange(start, start + i + 1).drop_last() =~= s.subrange(start, start + i));
    assert(s.subrange(start, start + i + 1).last() == s[start + i]);
}

/// Appends the `n`-byte big-endian encoding of `x` to `out`.
pub fn write_be(out: &mut Vec<u8>, x: u64, n: usize)
    requires
        n <= 8,
        x < pow256(n as nat),
    ensures
        final(out)@ == old(out)@ + be_bytes(x as nat, n as nat),
    decreases n,
{
    if n == 0 {
        assert(out@ =~= old(out)@ + be_bytes(x as nat, 0));
    } else {
        proof {
            assert((x as nat) / 256 < pow256((n - 1) as nat)) by {
                vstd::arithmetic::div_mod::lemma_multiply_divide_lt(
                    x as int,
                    pow256((n - 1) as nat) as int,
                    256,
                );
            }
        }
        write_be(out, x / 256, n - 1);
        out.push((x % 256) as u8);
        assert(out@ =~= old(out)@ + be_bytes(x as nat, n as nat));
    }
}

/// Appends all of `b` to `out`.
pub fn write_bytes(out: &mut Vec<u8>, b: &Vec<u8>)
    ensures
        final(out)@ == old(out)@ + b@,
{
    let mut i: usize = 0;
    while i < b.len()
        invariant
            i <= b@.len(),
            out@ == old(out)@ + b@.subrange(0, i as int),
        decreases b@.len() - i,
    {
        out.push(b[i]);
        i = i + 1;
        assert(out@ =~= old(out)@ + b@.subrange(0, i as int));
    }
    assert(out@ =~= old(out)@ + b@);
}

} // verus!
