//! Lines of a text and places in it.

use crate::outside::lossy_chars;
use crate::outside::lossy_text;
use crate::path_text::copy_range;
use vstd::prelude::*;

verus! {

pub const NEWLINE: u8 = 10;

pub const CARRIAGE_RETURN: u8 = 13;

/// How many lines end before `offset`.
pub open spec fn newlines_before(content: Seq<u8>, offset: int) -> int
    decreases offset,
{
    if offset <= 0 {
        0
    } else if content[offset - 1] == NEWLINE {
        newlines_before(content, offset - 1) + 1
    } else {
        newlines_before(content, offset - 1)
    }
}

/// Where the line of `offset` starts.
pub open spec fn line_start(content: Seq<u8>, offset: int) -> int
    decreases offset,
{
    if offset <= 0 {
        0
    } else if content[offset - 1] == NEWLINE {
        offset
    } else {
        line_start(content, offset - 1)
    }
}

/// Where the line that goes on at `from` ends: at its newline, or at the end of the text.
pub open spec fn line_end(content: Seq<u8>, from: int) -> int
    decreases content.len() - from,
{
    if from >= content.len() {
        content.len() as int
    } else if content[from] == NEWLINE {
        from
    } else {
        line_end(content, from + 1)
    }
}

/// The line that starts at `start`, without its line break.
pub open spec fn line_bytes(content: Seq<u8>, start: int) -> Seq<u8> {
    let line = content.subrange(start, line_end(content, start));
    if line.len() > 0 && line.last() == CARRIAGE_RETURN {
        line.drop_last()
    } else {
        line
    }
}

/// Counting from one, in 32 bits.
pub open spec fn ordinal(count: int) -> u32 {
    ((count % 0x1_0000_0000) as u32).wrapping_add(1)
}

/// The number of the line of `offset`.
pub open spec fn line_of(content: Seq<u8>, offset: int) -> u32 {
    ordinal(newlines_before(content, offset))
}

/// The column of `offset`: one more than the characters before it on its line.
pub open spec fn column_of(content: Seq<u8>, offset: int) -> u32 {
    ordinal(lossy_chars(content.subrange(line_start(content, offset), offset)).len() as int)
}

/// The text of the line of `offset`.
pub open spec fn line_text_of(content: Seq<u8>, offset: int) -> Seq<char> {
    lossy_chars(line_bytes(content, line_start(content, offset)))
}

/// The starts of the lines that begin within the first `count` bytes.
pub open spec fn starts_upto(content: Seq<u8>, count: int) -> Seq<usize>
    decreases count,
{
    if count <= 0 {
        seq![0usize]
    } else if content[count - 1] == NEWLINE {
        starts_upto(content, count - 1).push(count as usize)
    } else {
        starts_upto(content, count - 1)
    }
}

/// The starts of all lines.
pub open spec fn all_line_starts(content: Seq<u8>) -> Seq<usize> {
    starts_upto(content, content.len() as int)
}

pub fn line_starts_bytes(content: &[u8]) -> (starts: Vec<usize>)
    ensures
        starts@ == all_line_starts(content@),
{
    let mut starts: Vec<usize> = Vec::new();
    starts.push(0);
    let mut i: usize = 0;
    assert(starts@ =~= starts_upto(content@, 0));
    while i < content.len()
        invariant
            i <= content@.len(),
            starts@ == starts_upto(content@, i as int),
        decreases content@.len() - i,
    {
        if content[i] == NEWLINE {
            starts.push(i + 1);
        }
        i += 1;
    }
    starts
}

proof fn lemma_starts(content: Seq<u8>, count: int)
    requires
        0 <= count <= content.len(),
        content.len() <= usize::MAX,
    ensures
        starts_upto(content, count).len() == newlines_before(content, count) + 1,
        0 <= newlines_before(content, count) <= count,
        starts_upto(content, count).last() == line_start(content, count),
        0 <= line_start(content, count) <= count,
        forall|i: int|
            0 <= i < starts_upto(content, count).len() ==> #[trigger] starts_upto(
                content,
                count,
            )[i] <= count,
        forall|i: int, j: int|
            0 <= i < j < starts_upto(content, count).len() ==> #[trigger] starts_upto(
                content,
                count,
            )[i] < #[trigger] starts_upto(content, count)[j],
    decreases count,
{
    if count > 0 {
        lemma_starts(content, count - 1);
    }
}

proof fn lemma_starts_prefix(content: Seq<u8>, few: int, many: int)
    requires
        0 <= few <= many <= content.len(),
        content.len() <= usize::MAX,
    ensures
        starts_upto(content, few).len() <= starts_upto(content, many).len(),
        starts_upto(content, many).take(starts_upto(content, few).len() as int) == starts_upto(
            content,
            few,
        ),
        forall|i: int|
            starts_upto(content, few).len() <= i < starts_upto(content, many).len()
                ==> #[trigger] starts_upto(content, many)[i] > few,
    decreases many - few,
{
    if few == many {
        assert(starts_upto(content, many).take(starts_upto(content, few).len() as int)
            =~= starts_upto(content, few));
    } else {
        lemma_starts_prefix(content, few, many - 1);
        let all = starts_upto(content, many);
        let earlier = starts_upto(content, many - 1);
        let front = starts_upto(content, few);
        assert(all.take(front.len() as int) =~= earlier.take(front.len() as int));
        assert forall|i: int| front.len() <= i < all.len() implies #[trigger] all[i] > few by {
            if i < earlier.len() {
                assert(all[i] == earlier[i]);
            }
        }
    }
}

/// The number of lines that end before `offset`, looked up among the starts of all lines.
fn find_line(starts: &Vec<usize>, content: &[u8], offset: usize) -> (index: usize)
    requires
        starts@ == all_line_starts(content@),
        offset <= content@.len(),
    ensures
        index == newlines_before(content@, offset as int),
        index < starts@.len(),
        starts@[index as int] == line_start(content@, offset as int),
{
    let mut low: usize = 0;
    let mut high: usize = starts.len();
    proof {
        assert(content@.len() == content.len());
        lemma_starts(content@, content@.len() as int);
        lemma_starts(content@, offset as int);
        lemma_starts_prefix(content@, offset as int, content@.len() as int);
    }
    let ghost front = starts_upto(content@, offset as int);
    while high - low > 1
        invariant
            low < high <= starts@.len(),
            low < front.len() <= high,
            front.len() <= starts@.len(),
            starts@.take(front.len() as int) == front,
            forall|i: int| 0 <= i < front.len() ==> #[trigger] front[i] <= offset,
            forall|i: int| front.len() <= i < starts@.len() ==> #[trigger] starts@[i] > offset,
        decreases high - low,
    {
        let mid: usize = low + (high - low) / 2;
        if starts[mid] <= offset {
            low = mid;
        } else {
            high = mid;
            assert(front.len() <= mid) by {
                if mid < front.len() {
                    assert(starts@.take(front.len() as int)[mid as int] == starts@[mid as int]);
                    assert(front[mid as int] <= offset);
                }
            }
        }
    }
    assert(starts@.take(front.len() as int)[low as int] == starts@[low as int]);
    low
}

fn count_ordinal(count: usize) -> (number: u32)
    ensures
        number == ordinal(count as int),
{
    let wide: u64 = count as u64;
    let low: u64 = wide % 0x1_0000_0000;
    (low as u32).wrapping_add(1)
}

/// Line, column and line text of a place in a text.
pub fn line_details_bytes(content: &[u8], line_starts: &Vec<usize>, offset: usize) -> (details: (
    u32,
    u32,
    String,
))
    requires
        line_starts@ == all_line_starts(content@),
        offset <= content@.len(),
    ensures
        details.0 == line_of(content@, offset as int),
        details.1 == column_of(content@, offset as int),
        details.2@ == line_text_of(content@, offset as int),
{
    proof {
        assert(content@.len() == content.len());
        lemma_starts(content@, offset as int);
    }
    let index: usize = find_line(line_starts, content, offset);
    let start: usize = line_starts[index];
    let mut end: usize = start;
    while end < content.len() && content[end] != NEWLINE
        invariant
            start <= end <= content@.len(),
            line_end(content@, start as int) == line_end(content@, end as int),
        decreases content@.len() - end,
    {
        end += 1;
    }
    let ghost line = content@.subrange(start as int, line_end(content@, start as int));
    let mut text_end: usize = end;
    if end > start && content[end - 1] == CARRIAGE_RETURN {
        text_end = end - 1;
        assert(line.last() == CARRIAGE_RETURN);
    }
    let line_slice = copy_range(content, start, text_end);
    assert(line_slice@ =~= line_bytes(content@, start as int));
    let line_text = lossy_text(line_slice.as_slice());
    let before = copy_range(content, start, offset);
    let column_text = lossy_text(before.as_slice());
    let column: usize = column_text.as_str().unicode_len();
    (count_ordinal(index), count_ordinal(column), line_text)
}

} // verus!
