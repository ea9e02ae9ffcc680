//! Laws of lines: what the number, the column and the text of a line are, byte by byte.

use crate::lines::all_line_starts;
use crate::lines::column_of;
use crate::lines::line_end;
use crate::lines::line_of;
use crate::lines::line_start;
use crate::lines::line_text_of;
use crate::lines::newlines_before;
use crate::lines::starts_upto;
use crate::outside::lossy_chars;
use vstd::prelude::*;

verus! {

/// `start..end` is the line of `offset`: it begins at the beginning or behind a newline, it goes on to
/// the end or to a newline, and it holds none.
pub open spec fn spans_line(content: Seq<u8>, offset: int, start: int, end: int) -> bool {
    &&& 0 <= start <= offset <= end <= content.len()
    &&& start == 0 || content[start - 1] == 10u8
    &&& end == content.len() || content[end] == 10u8
    &&& forall|i: int| start <= i < end ==> #[trigger] content[i] != 10u8
}

proof fn lemma_start_of_span(content: Seq<u8>, offset: int, start: int)
    requires
        0 <= start <= offset <= content.len(),
        start == 0 || content[start - 1] == 10u8,
        forall|i: int| start <= i < offset ==> #[trigger] content[i] != 10u8,
    ensures
        line_start(content, offset) == start,
    decreases offset,
{
    if start < offset {
        assert(content[offset - 1] != 10u8);
        lemma_start_of_span(content, offset - 1, start);
    }
}

proof fn lemma_end_of_span(content: Seq<u8>, from: int, end: int)
    requires
        0 <= from <= end <= content.len(),
        end == content.len() || content[end] == 10u8,
        forall|i: int| from <= i < end ==> #[trigger] content[i] != 10u8,
    ensures
        line_end(content, from) == end,
    decreases end - from,
{
    if from < end {
        assert(content[from] != 10u8);
        lemma_end_of_span(content, from + 1, end);
    }
}

/// The text that is shown of a line is all of it, from its first byte to its last, but for a carriage
/// return at its end.
pub proof fn lemma_line_text_is_the_whole_line(content: Seq<u8>, offset: int, start: int, end: int)
    requires
        spans_line(content, offset, start, end),
    ensures
        line_text_of(content, offset) == lossy_chars(
            content.subrange(
                start,
                if end > start && content[end - 1] == 13u8 {
                    end - 1
                } else {
                    end
                },
            ),
        ),
{
    lemma_start_of_span(content, offset, start);
    lemma_end_of_span(content, start, end);
    let line = content.subrange(start, end);
    if end > start && content[end - 1] == 13u8 {
        assert(line.drop_last() =~= content.subrange(start, end - 1));
    }
}

/// The column of a place is one more than the characters that stand before it on its line.
pub proof fn lemma_column_counts_characters(content: Seq<u8>, offset: int, start: int, end: int)
    requires
        spans_line(content, offset, start, end),
        lossy_chars(content.subrange(start, offset)).len() < u32::MAX,
    ensures
        column_of(content, offset) == lossy_chars(content.subrange(start, offset)).len() + 1,
{
    lemma_start_of_span(content, offset, start);
}

/// The number of a line is one more than the newlines before it.
pub proof fn lemma_line_number_counts_newlines(content: Seq<u8>, offset: int)
    requires
        0 <= offset <= content.len(),
        content.take(offset).filter(|byte: u8| byte == 10u8).len() < u32::MAX,
    ensures
        line_of(content, offset) == content.take(offset).filter(|byte: u8| byte == 10u8).len() + 1,
{
    lemma_newlines_are_counted(content, offset);
}

proof fn lemma_newlines_are_counted(content: Seq<u8>, offset: int)
    requires
        0 <= offset <= content.len(),
    ensures
        newlines_before(content, offset) == content.take(offset).filter(
            |byte: u8| byte == 10u8,
        ).len(),
    decreases offset,
{
    let test = |byte: u8| byte == 10u8;
    reveal(Seq::filter);
    if offset > 0 {
        lemma_newlines_are_counted(content, offset - 1);
        assert(content.take(offset).drop_last() =~= content.take(offset - 1));
        assert(content.take(offset).last() == content[offset - 1]);
    } else {
        assert(content.take(0) =~= Seq::empty());
    }
}

/// A line starts at the beginning and behind each newline, and nowhere else; the starts ascend.
pub proof fn lemma_lines_start_behind_newlines(content: Seq<u8>, at: usize)
    requires
        content.len() <= usize::MAX,
    ensures
        all_line_starts(content).contains(at) <==> at == 0 || (at <= content.len() && content[at
            - 1] == 10u8),
        forall|i: int, j: int|
            0 <= i < j < all_line_starts(content).len() ==> #[trigger] all_line_starts(content)[i]
                < #[trigger] all_line_starts(content)[j],
{
    lemma_starts_are(content, content.len() as int, at);
}

proof fn lemma_starts_are(content: Seq<u8>, count: int, at: usize)
    requires
        0 <= count <= content.len(),
        content.len() <= usize::MAX,
    ensures
        starts_upto(content, count).contains(at) <==> at == 0 || (at <= count && content[at - 1]
            == 10u8),
        forall|i: int|
            0 <= i < starts_upto(content, count).len() ==> #[trigger] starts_upto(
                content,
                count,
            )[i] <= count,
        forall|i: int, j: int|
            0 <= i < j < starts_upto(content, count).len() ==> #[trigger] starts_upto(
                content,
                count,
            )[i] < #[trigger] starts_upto(content, count)[j],
    decreases count,
{
    let all = starts_upto(content, count);
    if count > 0 {
        lemma_starts_are(content, count - 1, at);
        let earlier = starts_upto(content, count - 1);
        if content[count - 1] == 10u8 {
            if earlier.contains(at) {
                let k = earlier.index_of(at);
                assert(all[k] == at);
            }
            if at == count {
                assert(all[earlier.len() as int] == at);
            }
            if all.contains(at) && at != count {
                let k = all.index_of(at);
                assert(earlier[k] == at);
            }
        }
    } else {
        assert(all[0] == 0usize);
    }
}

} // verus!
