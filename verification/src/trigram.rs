//! Trigrams: three consecutive bytes, ASCII case folded, packed into one integer.

use std::collections::BTreeMap;
use vstd::prelude::*;
use vstd::std_specs::cmp::OrdSpec;
use vstd::std_specs::iter::IteratorSpec;

verus! {

/// Stands for the byte after the last trigram of a text.
pub const EOF_SENTINEL: u8 = 0;

/// What a posting list or a query knows about one trigram: a bloom mask of the bytes that
/// follow it and a mask of the positions (modulo eight) at which it starts.
#[derive(Clone, Copy, Debug, PartialEq, Eq, Structural)]
pub struct PostingFilter {
    pub next_mask: u8,
    pub loc_mask: u8,
}

pub open spec fn lowercase(c: u8) -> u8 {
    if 65 <= c <= 90 {
        (c + 32) as u8
    } else {
        c
    }
}

pub open spec fn packed(a: u8, b: u8, c: u8) -> u32 {
    (a * 65536 + b * 256 + c) as u32
}

/// Number of positions at which a trigram starts.
pub open spec fn trigram_positions(content: Seq<u8>) -> int {
    if content.len() < 3 {
        0
    } else {
        content.len() - 2
    }
}

pub open spec fn trigram_at(content: Seq<u8>, position: int) -> u32 {
    packed(
        lowercase(content[position]),
        lowercase(content[position + 1]),
        lowercase(content[position + 2]),
    )
}

/// The byte that follows the trigram at `position`.
pub open spec fn next_at(content: Seq<u8>, position: int) -> u8 {
    if position + 3 < content.len() {
        content[position + 3]
    } else {
        EOF_SENTINEL
    }
}

pub open spec fn has_trigram(content: Seq<u8>, trigram: u32) -> bool {
    exists|position: int|
        0 <= position < trigram_positions(content) && #[trigger] trigram_at(content, position)
            == trigram
}

/// The bloom bit of a following byte.
pub open spec fn next_char_mask(c: u8) -> u8 {
    1u8 << (((lowercase(c) * 31) % 8) as u8)
}

/// The bit of a start position.
pub open spec fn position_mask(position: int) -> u8 {
    1u8 << ((position % 8) as u8)
}

/// What one position adds to the `next_mask` of `trigram`.
pub open spec fn next_mask_at(
    content: Seq<u8>,
    trigram: u32,
    include_eof: bool,
    position: int,
) -> u8 {
    if trigram_at(content, position) == trigram && (include_eof || next_at(content, position)
        != EOF_SENTINEL) {
        next_char_mask(next_at(content, position))
    } else {
        0
    }
}

/// Union of the `next_mask` bits over the first `count` positions.
pub open spec fn next_mask_upto(
    content: Seq<u8>,
    trigram: u32,
    include_eof: bool,
    count: int,
) -> u8
    decreases count,
{
    if count <= 0 {
        0
    } else {
        next_mask_upto(content, trigram, include_eof, count - 1) | next_mask_at(
            content,
            trigram,
            include_eof,
            count - 1,
        )
    }
}

/// Union of the `loc_mask` bits over the first `count` positions.
pub open spec fn loc_mask_upto(content: Seq<u8>, trigram: u32, count: int) -> u8
    decreases count,
{
    if count <= 0 {
        0
    } else {
        loc_mask_upto(content, trigram, count - 1) | (if trigram_at(content, count - 1)
            == trigram {
            position_mask(count - 1)
        } else {
            0
        })
    }
}

pub open spec fn filter_upto(
    content: Seq<u8>,
    trigram: u32,
    include_eof: bool,
    count: int,
) -> PostingFilter {
    PostingFilter {
        next_mask: next_mask_upto(content, trigram, include_eof, count),
        loc_mask: loc_mask_upto(content, trigram, count),
    }
}

/// The masks of `trigram` over a whole text.
pub open spec fn filter_of(content: Seq<u8>, trigram: u32, include_eof: bool) -> PostingFilter {
    filter_upto(content, trigram, include_eof, trigram_positions(content))
}

/// `trigram` starts at one of the first `count` positions.
pub open spec fn seen_upto(content: Seq<u8>, trigram: u32, count: int) -> bool {
    exists|position: int|
        0 <= position < count && #[trigger] trigram_at(content, position) == trigram
}

/// The trigrams of `content`, each with its masks.
pub open spec fn filter_map(content: Seq<u8>, include_eof: bool) -> Map<u32, PostingFilter> {
    Map::new(
        |trigram: u32| has_trigram(content, trigram),
        |trigram: u32| filter_of(content, trigram, include_eof),
    )
}

pub fn pack_trigram(a: u8, b: u8, c: u8) -> (trigram: u32)
    ensures
        trigram == packed(a, b, c),
{
    assert(((a as u32) << 16) | ((b as u32) << 8) | c as u32 == a as u32 * 65536 + b as u32 * 256
        + c as u32) by (bit_vector);
    ((a as u32) << 16) | ((b as u32) << 8) | c as u32
}

pub fn normalize_char(c: u8) -> (lower: u8)
    ensures
        lower == lowercase(c),
{
    if 65 <= c && c <= 90 {
        c + 32
    } else {
        c
    }
}

pub fn mask_for_next_char(next_char: u8) -> (mask: u8)
    ensures
        mask == next_char_mask(next_char),
{
    let product: u8 = normalize_char(next_char).wrapping_mul(31);
    let bit: u8 = product & 7;
    assert(product & 7 == product % 8) by (bit_vector);
    assert(bit == (lowercase(next_char) * 31) % 8);
    assert(bit < 8);
    1u8 << bit
}

pub fn mask_for_position(position: usize) -> (mask: u8)
    ensures
        mask == position_mask(position as int),
{
    let bit: u8 = (position % 8) as u8;
    1u8 << bit
}

/// The trigram at `start` and the byte after it.
pub fn scan_trigram(content: &[u8], start: usize) -> (found: (u32, u8))
    requires
        start + 2 < content@.len(),
    ensures
        found.0 == trigram_at(content@, start as int),
        found.1 == next_at(content@, start as int),
{
    let trigram: u32 = pack_trigram(
        normalize_char(content[start]),
        normalize_char(content[start + 1]),
        normalize_char(content[start + 2]),
    );
    let next_char: u8 = if start < content.len() - 3 {
        content[start + 3]
    } else {
        EOF_SENTINEL
    };
    (trigram, next_char)
}

/// Every trigram of `content` in order, with the byte that follows it and its position.
pub fn extract_trigrams(content: &[u8]) -> (trigrams: Vec<(u32, u8, usize)>)
    ensures
        trigrams@.len() == trigram_positions(content@),
        forall|i: int|
            0 <= i < trigrams@.len() ==> #[trigger] trigrams@[i] == (
                trigram_at(content@, i),
                next_at(content@, i),
                i as usize,
            ),
{
    let mut trigrams: Vec<(u32, u8, usize)> = Vec::new();
    if content.len() < 3 {
        return trigrams;
    }
    let end: usize = content.len() - 2;
    let mut start: usize = 0;
    while start < end
        invariant
            end == content@.len() - 2,
            start <= end,
            trigrams@.len() == start,
            forall|i: int|
                0 <= i < trigrams@.len() ==> #[trigger] trigrams@[i] == (
                    trigram_at(content@, i),
                    next_at(content@, i),
                    i as usize,
                ),
        decreases end - start,
    {
        let (trigram, next_char) = scan_trigram(content, start);
        trigrams.push((trigram, next_char, start));
        start += 1;
    }
    trigrams
}

/// The distinct trigrams of `content`, each with the masks of the bytes after it and of its
/// positions.
pub fn trigram_filter_map(content: &[u8], include_eof_next_char: bool) -> (filters: BTreeMap<
    u32,
    PostingFilter,
>)
    ensures
        filters@ == filter_map(content@, include_eof_next_char),
{
    broadcast use vstd::std_specs::btree::group_btree_axioms;

    let mut filters: BTreeMap<u32, PostingFilter> = BTreeMap::new();
    if content.len() < 3 {
        assert(filters@ =~= filter_map(content@, include_eof_next_char));
        return filters;
    }
    let end: usize = content.len() - 2;
    let mut start: usize = 0;
    while start < end
        invariant
            end == content@.len() - 2,
            start <= end,
            forall|trigram: u32|
                filters@.contains_key(trigram) <==> #[trigger] seen_upto(
                    content@,
                    trigram,
                    start as int,
                ),
            forall|trigram: u32| #[trigger]
                filters@.contains_key(trigram) ==> filters@[trigram] == filter_upto(
                    content@,
                    trigram,
                    include_eof_next_char,
                    start as int,
                ),
            forall|trigram: u32|
                !seen_upto(content@, trigram, start as int) ==> #[trigger] filter_upto(
                    content@,
                    trigram,
                    include_eof_next_char,
                    start as int,
                ) == (PostingFilter { next_mask: 0, loc_mask: 0 }),
        decreases end - start,
    {
        let (trigram, next_char) = scan_trigram(content, start);
        let previous: PostingFilter = match filters.get(&trigram) {
            Some(filter) => *filter,
            None => PostingFilter { next_mask: 0, loc_mask: 0 },
        };
        let next_bit: u8 = if include_eof_next_char || next_char != EOF_SENTINEL {
            mask_for_next_char(next_char)
        } else {
            0
        };
        filters.insert(
            trigram,
            PostingFilter {
                next_mask: previous.next_mask | next_bit,
                loc_mask: previous.loc_mask | mask_for_position(start),
            },
        );
        proof {
            assert forall|x: u8| #[trigger] (x | 0u8) == x by {
                assert(x | 0u8 == x) by (bit_vector);
            }
            assert forall|t: u32|
                filters@.contains_key(t) <==> #[trigger] seen_upto(
                    content@,
                    t,
                    start + 1,
                ) by {
                if t == trigram {
                    assert(trigram_at(content@, start as int) == t);
                } else if seen_upto(content@, t, start as int) {
                } else if seen_upto(content@, t, start + 1) {
                    let position = choose|position: int|
                        0 <= position < start + 1 && #[trigger] trigram_at(content@, position)
                            == t;
                    assert(seen_upto(content@, t, start as int));
                }
                if seen_upto(content@, t, start as int) {
                    let position = choose|position: int|
                        0 <= position < start && #[trigger] trigram_at(content@, position) == t;
                    assert(0 <= position < start + 1);
                }
            }
            assert forall|t: u32|
                !seen_upto(content@, t, start + 1) implies #[trigger] filter_upto(
                content@,
                t,
                include_eof_next_char,
                start + 1,
            ) == (PostingFilter { next_mask: 0, loc_mask: 0 }) by {
                assert(trigram_at(content@, start as int) != t);
                assert(!seen_upto(content@, t, start as int));
                assert(filter_upto(content@, t, include_eof_next_char, start as int)
                    == (PostingFilter { next_mask: 0, loc_mask: 0 }));
            }
            assert(filter_upto(content@, trigram, include_eof_next_char, start as int)
                == previous);
            assert forall|t: u32| #[trigger]
                filters@.contains_key(t) implies filters@[t] == filter_upto(
                content@,
                t,
                include_eof_next_char,
                start + 1,
            ) by {
                assert(seen_upto(content@, t, start + 1));
            }
        }
        start += 1;
    }
    proof {
        assert forall|t: u32|
            filters@.contains_key(t) <==> #[trigger] has_trigram(content@, t) by {
            assert(has_trigram(content@, t) == seen_upto(content@, t, end as int));
        }
        assert(filters@ =~= filter_map(content@, include_eof_next_char));
    }
    filters
}

/// The entries of a map in ascending order of their trigrams.
pub open spec fn lists_entries(
    entries: Seq<(u32, PostingFilter)>,
    filters: Map<u32, PostingFilter>,
) -> bool {
    &&& forall|i: int, j: int|
        0 <= i < j < entries.len() ==> (#[trigger] entries[i]).0 < (#[trigger] entries[j]).0
    &&& forall|i: int|
        0 <= i < entries.len() ==> filters.contains_key((#[trigger] entries[i]).0)
            && filters[entries[i].0] == entries[i].1
    &&& forall|trigram: u32| #[trigger]
        filters.contains_key(trigram) ==> entries.contains((trigram, filters[trigram]))
}

pub fn sorted_entries(filters: &BTreeMap<u32, PostingFilter>) -> (entries: Vec<
    (u32, PostingFilter),
>)
    ensures
        lists_entries(entries@, filters@),
{
    broadcast use vstd::std_specs::btree::group_btree_axioms;
    broadcast use vstd::laws_cmp::group_laws_cmp;

    let mut entries: Vec<(u32, PostingFilter)> = Vec::new();
    let iter = filters.iter();
    let ghost all = iter.remaining();
    proof {
        let keys = all.map_values(|kv: (&u32, &PostingFilter)| *kv.0);
        assert forall|i: int, j: int| 0 <= i < j < all.len() implies *(#[trigger] all[i]).0 < *(
        #[trigger] all[j]).0 by {
            assert(vstd::std_specs::btree::increasing_seq(keys));
            assert(keys[i].cmp_spec(&keys[j]) is Less);
            assert(keys[i] < keys[j]);
        }
        assert forall|i: int| 0 <= i < all.len() implies filters@.contains_key(
            *(#[trigger] all[i]).0,
        ) && filters@[*all[i].0] == *all[i].1 by {}
    }
    for entry in it: iter
        invariant
            it.seq() == all,
            entries@.len() == it.index(),
            forall|i: int|
                0 <= i < entries@.len() ==> #[trigger] entries@[i] == (*all[i].0, *all[i].1),
    {
        entries.push((*entry.0, *entry.1));
    }
    proof {
        assert forall|trigram: u32| #[trigger] filters@.contains_key(trigram) implies entries@.contains(
            (trigram, filters@[trigram]),
        ) by {
            let i = all.index_of((&trigram, &filters@[trigram]));
            assert(all.contains((&trigram, &filters@[trigram])));
            assert(entries@[i] == (trigram, filters@[trigram]));
        }
    }
    entries
}

} // verus!
