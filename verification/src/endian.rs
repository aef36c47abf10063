//! Mathematical model of little-endian byte encodings.
//!
//! `le_bytes_of` gives the `n` least-significant bytes of a value, least
//! significant first; `le_value_of` is the value a byte sequence denotes when
//! read little-endian, zero-extended. The lemmas relate the two and underpin
//! the contracts of the executable codec.

use vstd::prelude::*;
use vstd::arithmetic::power2::pow2;
use vstd::arithmetic::power2::lemma2_to64;
use vstd::arithmetic::power2::lemma_pow2_adds;
use vstd::arithmetic::div_mod::lemma_breakdown;
use vstd::arithmetic::div_mod::lemma_div_denominator;
use vstd::arithmetic::div_mod::lemma_mod_multiples_vanish;
use vstd::arithmetic::div_mod::lemma_small_mod;
use vstd::arithmetic::mul::lemma_mul_is_associative;
use vstd::arithmetic::mul::lemma_mul_is_distributive_add;

verus! {

broadcast use
    vstd::arithmetic::power2::lemma_pow2_pos,
    vstd::arithmetic::div_mod::lemma_div_basics_2;

/// The `n` least-significant bytes of `v`, least significant byte first.
pub open spec fn le_bytes_of(v: nat, n: nat) -> Seq<u8>
    decreases n,
{
    if n == 0 {
        Seq::empty()
    } else {
        seq![(v % 256) as u8] + le_bytes_of(v / 256, (n - 1) as nat)
    }
}

/// The value that `s` denotes when read as a little-endian integer.
pub open spec fn le_value_of(s: Seq<u8>) -> nat
    decreases s.len(),
{
    if s.len() == 0 {
        0
    } else {
        s[0] as nat + 256 * le_value_of(s.drop_first())
    }
}

/// Byte `i` (counting from the least significant) of the value `v`.
pub open spec fn byte_at(v: nat, i: nat) -> u8 {
    ((v / pow2(8 * i)) % 256) as u8
}

/// The bytes a read of up to 8 bytes at `offset` covers: bytes
/// `[offset, offset + 8)`, or all remaining bytes when fewer than 8 remain.
pub open spec fn read_window(s: Seq<u8>, offset: int) -> Seq<u8>
    recommends
        0 <= offset <= s.len(),
{
    if offset + 8 <= s.len() {
        s.subrange(offset, offset + 8)
    } else {
        s.subrange(offset, s.len() as int)
    }
}

/// Multiplying equal factors gives equal products; stated explicitly because
/// products of non-literal terms are otherwise opaque to the solver.
proof fn lemma_mul_substitute(x: int, y: int, z: int)
    requires
        x == y,
    ensures
        x * z == y * z,
{
    assert(x * z == y * z) by (nonlinear_arith)
        requires
            x == y,
    ;
}

pub proof fn lemma_le_bytes_of_len(v: nat, n: nat)
    ensures
        le_bytes_of(v, n).len() == n,
    decreases n,
{
    if n > 0 {
        lemma_le_bytes_of_len(v / 256, (n - 1) as nat);
    }
}

/// Extending an encoding by one byte appends byte `n` of the value.
pub proof fn lemma_le_bytes_of_snoc(v: nat, n: nat)
    ensures
        le_bytes_of(v, n + 1) == le_bytes_of(v, n).push(byte_at(v, n)),
    decreases n,
{
    lemma2_to64();
    if n == 0 {
        assert(le_bytes_of(v / 256, 0) =~= Seq::<u8>::empty());
        assert(le_bytes_of(v, 1) =~= le_bytes_of(v, 0).push(byte_at(v, 0)));
    } else {
        lemma_le_bytes_of_snoc(v / 256, (n - 1) as nat);
        lemma_div_denominator(v as int, 256, pow2(8 * (n - 1) as nat) as int);
        lemma_pow2_adds(8, 8 * (n - 1) as nat);
        assert(byte_at(v / 256, (n - 1) as nat) == byte_at(v, n));
        assert(le_bytes_of(v, n + 1) =~= le_bytes_of(v, n).push(byte_at(v, n)));
    }
}

/// A sequence of `n` bytes denotes a value below `2^(8n)`.
pub proof fn lemma_le_value_of_bound(s: Seq<u8>)
    ensures
        le_value_of(s) < pow2(8 * s.len()),
    decreases s.len(),
{
    lemma2_to64();
    if s.len() > 0 {
        lemma_le_value_of_bound(s.drop_first());
        lemma_pow2_adds(8, 8 * (s.len() - 1) as nat);
    }
}

/// Concatenation splits the denoted value: the first part contributes the low
/// bytes, the second is scaled past them.
pub proof fn lemma_le_value_of_concat(a: Seq<u8>, b: Seq<u8>)
    ensures
        le_value_of(a + b) == le_value_of(a) + pow2(8 * a.len()) * le_value_of(b),
    decreases a.len(),
{
    lemma2_to64();
    if a.len() == 0 {
        assert(a + b =~= b);
        lemma_mul_substitute(pow2(8 * a.len()) as int, 1, le_value_of(b) as int);
    } else {
        lemma_le_value_of_concat(a.drop_first(), b);
        assert((a + b).drop_first() =~= a.drop_first() + b);
        let p = pow2(8 * (a.len() - 1) as nat) as int;
        let x = le_value_of(a.drop_first()) as int;
        let y = le_value_of(b) as int;
        lemma_pow2_adds(8, 8 * (a.len() - 1) as nat);
        lemma_mul_is_distributive_add(256, x, p * y);
        lemma_mul_is_associative(256, p, y);
        lemma_mul_substitute(pow2(8 * a.len()) as int, 256 * p, y);
    }
}

/// The value of a byte sequence, reduced modulo `2^(8k)`, is the value of its
/// first `k` bytes.
pub proof fn lemma_le_value_of_take(s: Seq<u8>, k: int)
    requires
        0 <= k <= s.len(),
    ensures
        le_value_of(s) % pow2((8 * k) as nat) == le_value_of(s.take(k)),
{
    let p = pow2((8 * k) as nat);
    assert(s =~= s.take(k) + s.skip(k));
    lemma_le_value_of_concat(s.take(k), s.skip(k));
    lemma_le_value_of_bound(s.take(k));
    lemma_mod_multiples_vanish(
        le_value_of(s.skip(k)) as int,
        le_value_of(s.take(k)) as int,
        p as int,
    );
    lemma_small_mod(le_value_of(s.take(k)), p);
}

/// Round trip at the level of the model: encoding `v` on `n` bytes and
/// decoding yields `v` reduced modulo `2^(8n)`.
pub proof fn lemma_le_value_of_le_bytes_of(v: nat, n: nat)
    ensures
        le_value_of(le_bytes_of(v, n)) == v % pow2(8 * n),
    decreases n,
{
    lemma2_to64();
    if n == 0 {
    } else {
        lemma_le_value_of_le_bytes_of(v / 256, (n - 1) as nat);
        let rest = le_bytes_of(v / 256, (n - 1) as nat);
        assert((seq![(v % 256) as u8] + rest).drop_first() =~= rest);
        lemma_breakdown(v as int, 256, pow2(8 * (n - 1) as nat) as int);
        lemma_pow2_adds(8, 8 * (n - 1) as nat);
    }
}

/// Law: writing `value` with width `numbytes` to an empty buffer and reading
/// back from offset 0 yields `value` reduced modulo `2^(8 * numbytes)` — the
/// value masked to its width — and the value itself at the full width of 8.
pub proof fn lemma_write_read_round_trip(value: u64, numbytes: usize)
    requires
        1 <= numbytes <= 8,
    ensures
        le_value_of(read_window(le_bytes_of(value as nat, numbytes as nat), 0)) == value as nat
            % pow2((8 * numbytes) as nat),
        numbytes == 8 ==> le_value_of(read_window(le_bytes_of(value as nat, numbytes as nat), 0))
            == value as nat,
{
    let enc = le_bytes_of(value as nat, numbytes as nat);
    lemma_le_bytes_of_len(value as nat, numbytes as nat);
    assert(read_window(enc, 0) =~= enc);
    lemma_le_value_of_le_bytes_of(value as nat, numbytes as nat);
    if numbytes == 8 {
        lemma2_to64();
        lemma_small_mod(value as nat, pow2(64));
    }
}

/// Each pair is a value and the width, in bytes, it is written with.
pub open spec fn valid_widths(writes: Seq<(u64, nat)>) -> bool {
    forall|i: int| 0 <= i < writes.len() ==> 1 <= (#[trigger] writes[i]).1 <= 8
}

/// The byte buffer produced by performing the writes, in order, on an empty
/// buffer.
pub open spec fn concat_le_bytes(writes: Seq<(u64, nat)>) -> Seq<u8>
    decreases writes.len(),
{
    if writes.len() == 0 {
        Seq::empty()
    } else {
        le_bytes_of(writes[0].0 as nat, writes[0].1) + concat_le_bytes(writes.drop_first())
    }
}

/// The sum of the widths of the writes.
pub open spec fn total_width(writes: Seq<(u64, nat)>) -> nat
    decreases writes.len(),
{
    if writes.len() == 0 {
        0
    } else {
        writes[0].1 + total_width(writes.drop_first())
    }
}

/// The offset at which write `k` lands: the summed widths of the writes
/// before it.
pub open spec fn write_offset(writes: Seq<(u64, nat)>, k: int) -> nat
    recommends
        0 <= k <= writes.len(),
{
    total_width(writes.take(k))
}

proof fn lemma_concat_le_bytes_len(writes: Seq<(u64, nat)>)
    ensures
        concat_le_bytes(writes).len() == total_width(writes),
    decreases writes.len(),
{
    if writes.len() > 0 {
        lemma_le_bytes_of_len(writes[0].0 as nat, writes[0].1);
        lemma_concat_le_bytes_len(writes.drop_first());
    }
}

proof fn lemma_concat_le_bytes_split(writes: Seq<(u64, nat)>, k: int)
    requires
        0 <= k <= writes.len(),
    ensures
        concat_le_bytes(writes) == concat_le_bytes(writes.take(k)) + concat_le_bytes(
            writes.skip(k),
        ),
        total_width(writes) == total_width(writes.take(k)) + total_width(writes.skip(k)),
    decreases k,
{
    if k == 0 {
        assert(writes.skip(0) =~= writes);
        assert(concat_le_bytes(writes.take(0)) + concat_le_bytes(writes) =~= concat_le_bytes(
            writes,
        ));
    } else {
        let rest = writes.drop_first();
        let head = le_bytes_of(writes[0].0 as nat, writes[0].1);
        lemma_concat_le_bytes_split(rest, k - 1);
        assert(writes.take(k).drop_first() =~= rest.take(k - 1));
        assert(writes.skip(k) =~= rest.skip(k - 1));
        assert(writes.take(k)[0] == writes[0]);
        assert((head + concat_le_bytes(rest.take(k - 1))) + concat_le_bytes(rest.skip(k - 1)) =~= head
            + (concat_le_bytes(rest.take(k - 1)) + concat_le_bytes(rest.skip(k - 1))));
    }
}

/// One more write extends the produced buffer by that write's bytes and the
/// total width by that write's width.
pub proof fn lemma_concat_le_bytes_push(writes: Seq<(u64, nat)>, value: u64, width: nat)
    ensures
        concat_le_bytes(writes.push((value, width))) == concat_le_bytes(writes) + le_bytes_of(
            value as nat,
            width,
        ),
        total_width(writes.push((value, width))) == total_width(writes) + width,
{
    let all = writes.push((value, width));
    lemma_concat_le_bytes_split(all, writes.len() as int);
    assert(all.take(writes.len() as int) =~= writes);
    assert(all.skip(writes.len() as int) =~= seq![(value, width)]);
    assert(seq![(value, width)].drop_first() =~= Seq::<(u64, nat)>::empty());
    assert(concat_le_bytes(Seq::<(u64, nat)>::empty()) =~= Seq::<u8>::empty());
    assert(total_width(Seq::<(u64, nat)>::empty()) == 0);
    assert(concat_le_bytes(seq![(value, width)]) =~= le_bytes_of(value as nat, width));
}

/// Law: sequential variable-width writes on an empty buffer produce a buffer
/// whose length is the sum of the widths, and reading back at write `k`'s
/// cumulative offset recovers its value modulo `2^(8 * width_k)` — the value
/// masked to its width.
pub proof fn lemma_sequential_writes(writes: Seq<(u64, nat)>, k: int)
    requires
        valid_widths(writes),
        0 <= k < writes.len(),
    ensures
        concat_le_bytes(writes).len() == total_width(writes),
        le_value_of(read_window(concat_le_bytes(writes), write_offset(writes, k) as int)) % pow2(
            8 * writes[k].1,
        ) == writes[k].0 as nat % pow2(8 * writes[k].1),
{
    let enc = concat_le_bytes(writes);
    let v = writes[k].0 as nat;
    let w = writes[k].1;
    let o = write_offset(writes, k) as int;
    lemma_concat_le_bytes_len(writes);
    lemma_concat_le_bytes_split(writes, k);
    let head = concat_le_bytes(writes.take(k));
    let tail = concat_le_bytes(writes.skip(k));
    lemma_concat_le_bytes_len(writes.take(k));
    assert(writes.skip(k)[0] == writes[k]);
    assert(writes.skip(k).drop_first() =~= writes.skip(k + 1));
    let bytes_k = le_bytes_of(v, w);
    assert(tail == bytes_k + concat_le_bytes(writes.skip(k + 1)));
    lemma_le_bytes_of_len(v, w);
    let window = read_window(enc, o);
    assert(window.take(w as int) =~= bytes_k);
    lemma_le_value_of_take(window, w as int);
    lemma_le_value_of_le_bytes_of(v, w);
}

} // verus!
