//! Buffer read/write primitives for 64-bit values, including widths below 8.

use vstd::prelude::*;
use vstd::arithmetic::power2::pow2;
use vstd::arithmetic::power2::lemma2_to64;
use vstd::arithmetic::power2::lemma_pow2_adds;
use vstd::arithmetic::power2::lemma_pow2_strictly_increases;
use vstd::arithmetic::div_mod::lemma_div_denominator;
use crate::endian::le_bytes_of;
use crate::endian::le_value_of;
use crate::endian::byte_at;
use crate::endian::read_window;
use crate::endian::lemma_le_bytes_of_snoc;
use crate::endian::lemma_le_value_of_bound;

verus! {

broadcast use vstd::arithmetic::power2::lemma_pow2_pos, vstd::arithmetic::div_mod::lemma_div_basics_2;

/// Appends the `numbytes` least-significant bytes of `value` to the buffer,
/// little-endian. The buffer's length grows by exactly `numbytes`.
pub fn direct_write_uint_le(out_buffer: &mut Vec<u8>, value: u64, numbytes: usize)
    requires
        1 <= numbytes <= 8,
    ensures
        final(out_buffer)@ == old(out_buffer)@ + le_bytes_of(value as nat, numbytes as nat),
{
    let ghost orig = out_buffer@;
    let mut rem: u64 = value;
    let mut i: usize = 0;
    proof {
        lemma2_to64();
        assert(orig + le_bytes_of(value as nat, 0) =~= orig);
    }
    while i < numbytes
        invariant
            i <= numbytes <= 8,
            rem as nat == value as nat / pow2((8 * i) as nat),
            out_buffer@ == orig + le_bytes_of(value as nat, i as nat),
        decreases numbytes - i,
    {
        let b: u8 = (rem % 256) as u8;
        proof {
            lemma_le_bytes_of_snoc(value as nat, i as nat);
            assert(b == byte_at(value as nat, i as nat));
            assert((orig + le_bytes_of(value as nat, i as nat)).push(b) =~= orig
                + le_bytes_of(value as nat, (i + 1) as nat));
            lemma_div_denominator(value as int, pow2((8 * i) as nat) as int, 256);
            lemma_pow2_adds((8 * i) as nat, 8);
            lemma2_to64();
        }
        out_buffer.push(b);
        rem = rem / 256;
        i = i + 1;
    }
}

/// Reads a 64-bit value from `inbuf` at `index`, little-endian: 8 bytes when
/// that many remain, otherwise all remaining bytes, zero-extended. Never reads
/// past the end of the buffer.
pub fn direct_read_uint_le(inbuf: &[u8], index: u32) -> (r: u64)
    requires
        index as int <= inbuf@.len(),
    ensures
        r as nat == le_value_of(read_window(inbuf@, index as int)),
{
    let len: usize = inbuf.len();
    let idx: usize = index as usize;
    let n: usize = if len - idx >= 8 {
        8
    } else {
        len - idx
    };
    let ghost window = read_window(inbuf@, idx as int);
    proof {
        assert(window =~= inbuf@.subrange(idx as int, idx + n));
        assert(window.skip(n as int) =~= Seq::<u8>::empty());
    }
    let mut result: u64 = 0;
    let mut j: usize = n;
    while j > 0
        invariant
            j <= n <= 8,
            idx + n <= inbuf@.len(),
            idx + n <= usize::MAX,
            window == inbuf@.subrange(idx as int, idx + n),
            window.len() == n,
            result as nat == le_value_of(window.skip(j as int)),
        decreases j,
    {
        j = j - 1;
        let b: u8 = inbuf[idx + j];
        proof {
            assert(window.skip(j as int).drop_first() =~= window.skip(j + 1));
            assert(window.skip(j as int)[0] == inbuf@[idx + j]);
            lemma_le_value_of_bound(window.skip(j as int));
            lemma2_to64();
            if n - j < 8 {
                lemma_pow2_strictly_increases((8 * (n - j)) as nat, 64);
            }
        }
        result = b as u64 + result * 256;
    }
    proof {
        assert(window.skip(0) =~= window);
    }
    result
}

/// Appends one word to the buffer. Intended for tight encoding loops that
/// have already reserved capacity for a whole batch up front; the append
/// itself is unconditional and leaves every earlier element in place.
pub fn unchecked_write_u64_u64_le(out_buffer: &mut Vec<u64>, value: u64)
    ensures
        final(out_buffer)@ == old(out_buffer)@.push(value),
{
    out_buffer.push(value);
}

/// Appends eight copies of `value` to the buffer, reserving the capacity for
/// all eight once rather than per element.
pub fn write8_u64_le(out_buffer: &mut Vec<u64>, value: u64)
    ensures
        final(out_buffer)@ == old(out_buffer)@ + Seq::new(8, |k: int| value),
{
    out_buffer.reserve(8);
    let ghost orig = out_buffer@;
    let mut i: usize = 0;
    proof {
        assert(orig + Seq::new(0, |k: int| value) =~= orig);
    }
    while i < 8
        invariant
            i <= 8,
            out_buffer@ == orig + Seq::new(i as nat, |k: int| value),
        decreases 8 - i,
    {
        out_buffer.push(value);
        proof {
            assert((orig + Seq::new(i as nat, |k: int| value)).push(value) =~= orig + Seq::new(
                (i + 1) as nat,
                |k: int| value,
            ));
        }
        i = i + 1;
    }
}

} // verus!
