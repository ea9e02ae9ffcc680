//! Laws of trigrams: which trigrams a text has, and what the masks say of what follows them and of
//! where they stand.

use crate::lexical_laws::spelled_in;
use crate::trigram::filter_map;
use crate::trigram::filter_of;
use crate::trigram::has_trigram;
use crate::trigram::loc_mask_upto;
use crate::trigram::next_char_mask;
use crate::trigram::next_mask_upto;
use crate::trigram::packed;
use crate::trigram::trigram_at;
use crate::trigram::trigram_positions;
use vstd::prelude::*;

verus! {

/// A text has the trigrams that are spelled in it, and no others.
pub proof fn lemma_texts_have_the_trigrams_spelled_in_them(
    content: Seq<u8>,
    include_eof: bool,
    trigram: u32,
)
    ensures
        filter_map(content, include_eof).contains_key(trigram) <==> exists|at: int| #[trigger]
            spelled_in(content, trigram, at),
{
    if has_trigram(content, trigram) {
        let at = choose|at: int|
            0 <= at < trigram_positions(content) && #[trigger] trigram_at(content, at) == trigram;
        assert(spelled_in(content, trigram, at));
    }
    if exists|at: int| #[trigger] spelled_in(content, trigram, at) {
        let at = choose|at: int| #[trigger] spelled_in(content, trigram, at);
        assert(trigram_at(content, at) == trigram);
    }
}

proof fn lemma_bit_of_union(a: u8, b: u8, bit: u8)
    ensures
        (a | b) & bit != 0 <==> a & bit != 0 || b & bit != 0,
{
    assert((a | b) & bit != 0 <==> a & bit != 0 || b & bit != 0) by (bit_vector);
}

proof fn lemma_single_bits(x: u8, y: u8)
    requires
        x < 8,
        y < 8,
    ensures
        (1u8 << x) & (1u8 << y) != 0 <==> x == y,
        0u8 & (1u8 << y) == 0,
{
    assert(x < 8 && y < 8 ==> ((1u8 << x) & (1u8 << y) != 0 <==> x == y)) by (bit_vector);
    assert(0u8 & (1u8 << y) == 0) by (bit_vector);
}

/// The byte behind a trigram that stands at `at`, with the letters from A to Z moved to those from a to
/// z; zero where there is none.
pub open spec fn byte_behind(content: Seq<u8>, at: int) -> int {
    if at + 3 < content.len() {
        if 65 <= content[at + 3] <= 90 {
            content[at + 3] + 32
        } else {
            content[at + 3] as int
        }
    } else {
        0
    }
}

/// The trigram stands at `at`, and the byte behind it, where it counts, belongs to bit `bit`.
pub open spec fn goes_on_with(
    content: Seq<u8>,
    trigram: u32,
    include_eof: bool,
    bit: u8,
    at: int,
) -> bool {
    &&& spelled_in(content, trigram, at)
    &&& include_eof || byte_behind(content, at) != 0
    &&& (byte_behind(content, at) * 31) % 8 == bit
}

proof fn lemma_next_mask_bits(
    content: Seq<u8>,
    trigram: u32,
    include_eof: bool,
    count: int,
    bit: u8,
)
    requires
        0 <= count <= trigram_positions(content),
        bit < 8,
    ensures
        next_mask_upto(content, trigram, include_eof, count) & (1u8 << bit) != 0 <==> exists|
            at: int,
        | 0 <= at < count && #[trigger] goes_on_with(content, trigram, include_eof, bit, at),
    decreases count,
{
    lemma_single_bits(0, bit);
    if count > 0 {
        lemma_next_mask_bits(content, trigram, include_eof, count - 1, bit);
        let earlier = next_mask_upto(content, trigram, include_eof, count - 1);
        let here = crate::trigram::next_mask_at(content, trigram, include_eof, count - 1);
        lemma_bit_of_union(earlier, here, 1u8 << bit);
        let at = count - 1;
        let behind = crate::trigram::lowercase(crate::trigram::next_at(content, at));
        assert(behind == byte_behind(content, at));
        lemma_single_bits(((behind * 31) % 8) as u8, bit);
        assert(here & (1u8 << bit) != 0 <==> goes_on_with(content, trigram, include_eof, bit, at));
        if exists|k: int|
            0 <= k < count && #[trigger] goes_on_with(content, trigram, include_eof, bit, k) {
            let k = choose|k: int|
                0 <= k < count && #[trigger] goes_on_with(content, trigram, include_eof, bit, k);
            assert(k < count - 1 || k == at);
        }
    }
}

/// The trigram stands at `at`, a place of the eighth part that bit `bit` stands for.
pub open spec fn stands_at_turn(content: Seq<u8>, trigram: u32, bit: u8, at: int) -> bool {
    spelled_in(content, trigram, at) && at % 8 == bit
}

proof fn lemma_loc_mask_bits(content: Seq<u8>, trigram: u32, count: int, bit: u8)
    requires
        0 <= count <= trigram_positions(content),
        bit < 8,
    ensures
        loc_mask_upto(content, trigram, count) & (1u8 << bit) != 0 <==> exists|at: int|
            0 <= at < count && #[trigger] stands_at_turn(content, trigram, bit, at),
    decreases count,
{
    lemma_single_bits(0, bit);
    if count > 0 {
        lemma_loc_mask_bits(content, trigram, count - 1, bit);
        let earlier = loc_mask_upto(content, trigram, count - 1);
        let at = count - 1;
        let here = if trigram_at(content, at) == trigram {
            crate::trigram::position_mask(at)
        } else {
            0
        };
        lemma_bit_of_union(earlier, here, 1u8 << bit);
        lemma_single_bits((at % 8) as u8, bit);
        assert(here & (1u8 << bit) != 0 <==> stands_at_turn(content, trigram, bit, at));
        if exists|k: int| 0 <= k < count && #[trigger] stands_at_turn(content, trigram, bit, k) {
            let k = choose|k: int|
                0 <= k < count && #[trigger] stands_at_turn(content, trigram, bit, k);
            assert(k < count - 1 || k == at);
        }
    }
}

/// The first mask of a trigram has the bits of the bytes that stand behind it, each byte's bit being
/// thirty-one times the byte, modulo eight; the end of the text counts as a zero byte, or not at all.
/// The second mask has the bits of the places at which it stands, modulo eight.
pub proof fn lemma_masks_tell_what_follows_and_where(
    content: Seq<u8>,
    trigram: u32,
    include_eof: bool,
    bit: u8,
)
    requires
        bit < 8,
    ensures
        filter_of(content, trigram, include_eof).next_mask & (1u8 << bit) != 0 <==> exists|at: int|
         #[trigger]
            goes_on_with(content, trigram, include_eof, bit, at),
        filter_of(content, trigram, include_eof).loc_mask & (1u8 << bit) != 0 <==> exists|at: int|
         #[trigger]
            stands_at_turn(content, trigram, bit, at),
        filter_map(content, include_eof).contains_key(trigram) ==> filter_map(
            content,
            include_eof,
        )[trigram] == filter_of(content, trigram, include_eof),
{
    lemma_next_mask_bits(content, trigram, include_eof, trigram_positions(content), bit);
    lemma_loc_mask_bits(content, trigram, trigram_positions(content), bit);
}

/// Three bytes make one trigram, the first byte highest; different bytes make different trigrams.
pub proof fn lemma_trigrams_are_packed(a: u8, b: u8, c: u8, x: u8, y: u8, z: u8)
    ensures
        packed(a, b, c) == 65536 * a + 256 * b + c,
        packed(a, b, c) == packed(x, y, z) ==> a == x && b == y && c == z,
{
}

/// The bit of a byte that follows.
pub proof fn lemma_next_bytes_have_one_bit(c: u8, bit: u8)
    requires
        bit < 8,
    ensures
        next_char_mask(c) & (1u8 << bit) != 0 <==> bit == ((if 65 <= c <= 90 {
            c + 32
        } else {
            c as int
        }) * 31) % 8,
{
    let low = crate::trigram::lowercase(c);
    lemma_single_bits(((low * 31) % 8) as u8, bit);
}

} // verus!
