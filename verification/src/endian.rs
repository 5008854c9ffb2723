//! Big-endian integers of one to eight bytes.

use vstd::prelude::*;

verus! {

/// 256 to the power `width`.
pub open spec fn radix_pow(width: nat) -> nat
    decreases width,
{
    if width == 0 {
        1
    } else {
        256 * radix_pow((width - 1) as nat)
    }
}

/// The `width` low bytes of `value`, most significant first.
pub open spec fn be_bytes(value: nat, width: nat) -> Seq<u8>
    decreases width,
{
    if width == 0 {
        Seq::empty()
    } else {
        be_bytes(value / 256, (width - 1) as nat).push((value % 256) as u8)
    }
}

/// The number that `bytes` stand for, most significant first.
pub open spec fn be_value(bytes: Seq<u8>) -> nat
    decreases bytes.len(),
{
    if bytes.len() == 0 {
        0
    } else {
        be_value(bytes.drop_last()) * 256 + bytes.last() as nat
    }
}

/// An encoding has the width that was asked for.
pub proof fn lemma_be_bytes_len(value: nat, width: nat)
    ensures
        be_bytes(value, width).len() == width,
    decreases width,
{
    if width > 0 {
        lemma_be_bytes_len(value / 256, (width - 1) as nat);
    }
}

/// Bytes stand for a number below 256 to the power of their count.
pub proof fn lemma_be_value_bound(bytes: Seq<u8>)
    ensures
        be_value(bytes) < radix_pow(bytes.len()),
    decreases bytes.len(),
{
    if bytes.len() > 0 {
        lemma_be_value_bound(bytes.drop_last());
    }
}

/// A number that fits the width is read back from its encoding.
pub proof fn lemma_be_value_of_bytes(value: nat, width: nat)
    requires
        value < radix_pow(width),
    ensures
        be_value(be_bytes(value, width)) == value,
    decreases width,
{
    if width > 0 {
        let head = be_bytes(value / 256, (width - 1) as nat);
        lemma_be_value_of_bytes(value / 256, (width - 1) as nat);
        assert(be_bytes(value, width).drop_last() =~= head);
    }
}

/// Bytes are the encoding, at their own width, of the number they stand for.
pub proof fn lemma_be_bytes_of_value(bytes: Seq<u8>)
    ensures
        be_bytes(be_value(bytes), bytes.len()) == bytes,
    decreases bytes.len(),
{
    if bytes.len() > 0 {
        lemma_be_bytes_of_value(bytes.drop_last());
        assert(be_bytes(be_value(bytes), bytes.len()) =~= bytes);
    }
}

/// The powers of 256 that the fixed-width integers end at.
pub proof fn lemma_radix_pow_values()
    ensures
        radix_pow(1) == 0x100,
        radix_pow(2) == 0x1_0000,
        radix_pow(4) == 0x1_0000_0000,
        radix_pow(8) == 0x1_0000_0000_0000_0000,
{
    reveal_with_fuel(radix_pow, 9);
}

/// Appends the `width` low bytes of `value` to `out`, most significant first.
pub fn write_be(out: &mut Vec<u8>, value: u64, width: usize)
    requires
        width <= 8,
    ensures
        final(out)@ == old(out)@ + be_bytes(value as nat, width as nat),
    decreases width,
{
    if width > 0 {
        write_be(out, value / 256, width - 1);
        out.push((value % 256) as u8);
        assert(final(out)@ =~= old(out)@ + be_bytes(value as nat, width as nat)) by {
            assert(out@ =~= old(out)@ + be_bytes(value as nat, width as nat));
        }
    } else {
        assert(out@ =~= old(out)@ + be_bytes(value as nat, width as nat));
    }
}

/// Reads the `width` bytes of `bytes` from `at` on as one number.
pub fn read_be(bytes: &[u8], at: usize, width: usize) -> (value: u64)
    requires
        width <= 8,
        at + width <= bytes@.len(),
    ensures
        value as nat == be_value(bytes@.subrange(at as int, at + width)),
{
    let total: usize = bytes.len();
    let mut acc: u64 = 0;
    let mut i: usize = 0;
    proof {
        lemma_radix_pow_values();
        assert(bytes@.subrange(at as int, at + 0) =~= Seq::<u8>::empty());
    }
    while i < width
        invariant
            width <= 8,
            at + width <= bytes@.len(),
            total == bytes@.len(),
            i <= width,
            acc as nat == be_value(bytes@.subrange(at as int, at + i)),
        decreases width - i,
    {
        proof {
            let prev = bytes@.subrange(at as int, at + i);
            let next = bytes@.subrange(at as int, at + i + 1);
            assert(next.drop_last() =~= prev);
            assert(next.last() == bytes@[at + i]);
            lemma_be_value_bound(next);
            lemma_radix_pow_monotone(next.len(), 8);
            lemma_radix_pow_values();
        }
        acc = acc * 256 + bytes[at + i] as u64;
        i += 1;
    }
    acc
}

/// A larger exponent gives no smaller power.
pub proof fn lemma_radix_pow_monotone(a: nat, b: nat)
    requires
        a <= b,
    ensures
        radix_pow(a) <= radix_pow(b),
        radix_pow(a) >= 1,
    decreases b,
{
    if a < b {
        lemma_radix_pow_monotone(a, (b - 1) as nat);
    } else if a > 0 {
        lemma_radix_pow_monotone((a - 1) as nat, (b - 1) as nat);
    }
}

/// Appends a 16-bit number as two bytes.
pub fn put_u16(out: &mut Vec<u8>, value: u16)
    ensures
        final(out)@ == old(out)@ + be_bytes(value as nat, 2),
{
    write_be(out, value as u64, 2);
}

/// Appends a 32-bit number as four bytes.
pub fn put_u32(out: &mut Vec<u8>, value: u32)
    ensures
        final(out)@ == old(out)@ + be_bytes(value as nat, 4),
{
    write_be(out, value as u64, 4);
}

/// Appends a 64-bit number as eight bytes.
pub fn put_u64(out: &mut Vec<u8>, value: u64)
    ensures
        final(out)@ == old(out)@ + be_bytes(value as nat, 8),
{
    write_be(out, value, 8);
}

/// Reads the two bytes from `at` on as a 16-bit number.
pub fn get_u16(bytes: &[u8], at: usize) -> (value: u16)
    requires
        at + 2 <= bytes@.len(),
    ensures
        value as nat == be_value(bytes@.subrange(at as int, at + 2)),
{
    let wide = read_be(bytes, at, 2);
    proof {
        lemma_be_value_bound(bytes@.subrange(at as int, at + 2));
        lemma_radix_pow_values();
    }
    wide as u16
}

/// Reads the four bytes from `at` on as a 32-bit number.
pub fn get_u32(bytes: &[u8], at: usize) -> (value: u32)
    requires
        at + 4 <= bytes@.len(),
    ensures
        value as nat == be_value(bytes@.subrange(at as int, at + 4)),
{
    let wide = read_be(bytes, at, 4);
    proof {
        lemma_be_value_bound(bytes@.subrange(at as int, at + 4));
        lemma_radix_pow_values();
    }
    wide as u32
}

/// Reads the eight bytes from `at` on as a 64-bit number.
pub fn get_u64(bytes: &[u8], at: usize) -> (value: u64)
    requires
        at + 8 <= bytes@.len(),
    ensures
        value as nat == be_value(bytes@.subrange(at as int, at + 8)),
{
    read_be(bytes, at, 8)
}

} // verus!
