//! Little-endian integers in byte strings.

use vstd::prelude::*;

verus! {

pub open spec fn pow256(width: nat) -> int
    decreases width,
{
    if width == 0 {
        1
    } else {
        256 * pow256((width - 1) as nat)
    }
}

/// The low `width` bytes of `value`, least significant first.
pub open spec fn le_bytes(value: int, width: nat) -> Seq<u8>
    decreases width,
{
    if width == 0 {
        Seq::empty()
    } else {
        seq![(value % 256) as u8] + le_bytes(value / 256, (width - 1) as nat)
    }
}

/// The number that `bytes` spell, least significant byte first.
pub open spec fn le_value(bytes: Seq<u8>) -> int
    decreases bytes.len(),
{
    if bytes.len() == 0 {
        0
    } else {
        bytes[0] + 256 * le_value(bytes.skip(1))
    }
}

pub open spec fn u32_bytes(value: u32) -> Seq<u8> {
    le_bytes(value as int, 4)
}

pub open spec fn u64_bytes(value: u64) -> Seq<u8> {
    le_bytes(value as int, 8)
}

/// The `u32` stored at `at`.
pub open spec fn u32_at(bytes: Seq<u8>, at: int) -> u32 {
    le_value(bytes.subrange(at, at + 4)) as u32
}

/// The `u64` stored at `at`.
pub open spec fn u64_at(bytes: Seq<u8>, at: int) -> u64 {
    le_value(bytes.subrange(at, at + 8)) as u64
}

pub proof fn lemma_le_bytes_len(value: int, width: nat)
    ensures
        le_bytes(value, width).len() == width,
    decreases width,
{
    if width > 0 {
        lemma_le_bytes_len(value / 256, (width - 1) as nat);
    }
}

pub proof fn lemma_le_value_bound(bytes: Seq<u8>)
    ensures
        0 <= le_value(bytes) < pow256(bytes.len()),
    decreases bytes.len(),
{
    if bytes.len() > 0 {
        lemma_le_value_bound(bytes.skip(1));
    }
}

proof fn lemma_pow256_values()
    ensures
        pow256(4) == 0x1_0000_0000,
        pow256(8) == 0x1_0000_0000_0000_0000,
{
    reveal_with_fuel(pow256, 9);
}

/// Writing a number and reading it back gives the number.
pub proof fn lemma_value_of_bytes(value: int, width: nat)
    requires
        0 <= value < pow256(width),
    ensures
        le_value(le_bytes(value, width)) == value,
    decreases width,
{
    if width > 0 {
        let rest = le_bytes(value / 256, (width - 1) as nat);
        lemma_value_of_bytes(value / 256, (width - 1) as nat);
        assert(le_bytes(value, width).skip(1) =~= rest);
    }
}

/// Reading a number and writing it back gives the bytes.
pub proof fn lemma_bytes_of_value(bytes: Seq<u8>)
    ensures
        le_bytes(le_value(bytes), bytes.len()) == bytes,
    decreases bytes.len(),
{
    if bytes.len() > 0 {
        let rest = bytes.skip(1);
        lemma_bytes_of_value(rest);
        lemma_le_value_bound(rest);
        assert((bytes[0] + 256 * le_value(rest)) / 256 == le_value(rest));
        assert((bytes[0] + 256 * le_value(rest)) % 256 == bytes[0]);
        assert(le_bytes(le_value(bytes), bytes.len()) =~= seq![bytes[0]] + rest);
    }
    assert(le_bytes(le_value(bytes), bytes.len()) =~= bytes);
}

pub proof fn lemma_u32_round_trip(value: u32)
    ensures
        u32_bytes(value).len() == 4,
        le_value(u32_bytes(value)) == value,
{
    lemma_le_bytes_len(value as int, 4);
    lemma_pow256_values();
    lemma_value_of_bytes(value as int, 4);
}

pub proof fn lemma_u64_round_trip(value: u64)
    ensures
        u64_bytes(value).len() == 8,
        le_value(u64_bytes(value)) == value,
{
    lemma_le_bytes_len(value as int, 8);
    lemma_pow256_values();
    lemma_value_of_bytes(value as int, 8);
}

/// A `u32` read at a place where one was written.
pub proof fn lemma_u32_at(bytes: Seq<u8>, at: int, value: u32)
    requires
        0 <= at,
        at + 4 <= bytes.len(),
        bytes.subrange(at, at + 4) == u32_bytes(value),
    ensures
        u32_at(bytes, at) == value,
{
    lemma_u32_round_trip(value);
}

/// A `u64` read at a place where one was written.
pub proof fn lemma_u64_at(bytes: Seq<u8>, at: int, value: u64)
    requires
        0 <= at,
        at + 8 <= bytes.len(),
        bytes.subrange(at, at + 8) == u64_bytes(value),
    ensures
        u64_at(bytes, at) == value,
{
    lemma_u64_round_trip(value);
}

fn put_le(out: &mut Vec<u8>, value: u64, width: usize)
    ensures
        final(out)@ == old(out)@ + le_bytes(value as int, width as nat),
{
    let mut rest: u64 = value;
    let mut left: usize = width;
    while left > 0
        invariant
            left <= width,
            out@ + le_bytes(rest as int, left as nat) == old(out)@ + le_bytes(
                value as int,
                width as nat,
            ),
        decreases left,
    {
        let ghost before = out@;
        let byte: u8 = (rest % 256) as u8;
        out.push(byte);
        proof {
            let tail = le_bytes(rest as int / 256, (left - 1) as nat);
            assert(le_bytes(rest as int, left as nat) == seq![byte] + tail);
            assert(before + (seq![byte] + tail) =~= before.push(byte) + tail);
        }
        rest = rest / 256;
        left -= 1;
    }
    assert(out@ + le_bytes(rest as int, 0) =~= out@);
}

fn get_le(bytes: &[u8], at: usize, width: usize) -> (value: u64)
    requires
        width <= 8,
        at + width <= bytes@.len(),
    ensures
        value == le_value(bytes@.subrange(at as int, at + width)),
{
    let mut value: u64 = 0;
    let mut k: usize = width;
    assert(bytes@.len() == bytes.len());
    while k > 0
        invariant
            k <= width <= 8,
            at + width <= usize::MAX,
            at + width <= bytes@.len(),
            value == le_value(bytes@.subrange(at + k, at + width)),
        decreases k,
    {
        k -= 1;
        let ghost tail = bytes@.subrange(at + k + 1, at + width);
        let ghost whole = bytes@.subrange(at + k, at + width);
        proof {
            assert(whole.skip(1) =~= tail);
            lemma_le_value_bound(whole);
            lemma_pow256_values();
            lemma_pow256_monotone(whole.len(), 8);
        }
        value = bytes[at + k] as u64 + 256 * value;
    }
    value
}

proof fn lemma_pow256_monotone(small: nat, large: nat)
    requires
        small <= large,
    ensures
        1 <= pow256(small) <= pow256(large),
    decreases large,
{
    if small < large {
        lemma_pow256_monotone(small, (large - 1) as nat);
    } else if small > 0 {
        lemma_pow256_monotone((small - 1) as nat, (large - 1) as nat);
    }
}

pub fn write_u32(out: &mut Vec<u8>, value: u32)
    ensures
        final(out)@ == old(out)@ + u32_bytes(value),
{
    put_le(out, value as u64, 4)
}

pub fn write_u64(out: &mut Vec<u8>, value: u64)
    ensures
        final(out)@ == old(out)@ + u64_bytes(value),
{
    put_le(out, value, 8)
}

pub fn read_u32(bytes: &[u8], at: usize) -> (value: u32)
    requires
        at + 4 <= bytes@.len(),
    ensures
        value == u32_at(bytes@, at as int),
        u32_bytes(value) == bytes@.subrange(at as int, at + 4),
{
    proof {
        lemma_le_value_bound(bytes@.subrange(at as int, at + 4));
        lemma_bytes_of_value(bytes@.subrange(at as int, at + 4));
        lemma_pow256_values();
    }
    get_le(bytes, at, 4) as u32
}

pub fn read_u64(bytes: &[u8], at: usize) -> (value: u64)
    requires
        at + 8 <= bytes@.len(),
    ensures
        value == u64_at(bytes@, at as int),
        u64_bytes(value) == bytes@.subrange(at as int, at + 8),
{
    proof {
        lemma_le_value_bound(bytes@.subrange(at as int, at + 8));
        lemma_bytes_of_value(bytes@.subrange(at as int, at + 8));
        lemma_pow256_values();
    }
    get_le(bytes, at, 8)
}

} // verus!
