//! Laws of looking for a pattern: where a literal stands, and what is reported of a file, in terms of
//! its bytes.

use crate::grep::file_scanned;
use crate::grep::lowercased;
use crate::grep::literal_ranges;
use crate::grep::match_at;
use crate::grep::places;
use crate::grep::scan_exhausted;
use crate::grep::search_exhausted;
use crate::grep::text_scanned;
use crate::grep::with_range;
use crate::grep::with_ranges;
use crate::grep::FileScan;
use crate::grep::GrepCounters;
use crate::grep::GrepLimits;
use crate::grep::MatchView;
use crate::line_laws::lemma_column_counts_characters;
use crate::line_laws::lemma_line_number_counts_newlines;
use crate::line_laws::lemma_line_text_is_the_whole_line;
use crate::line_laws::spans_line;
use crate::lines::line_of;
use crate::outside::looks_binary;
use crate::outside::lossy_chars;
use crate::path::PathKey;
use crate::query::CompiledPattern;
use crate::query::LiteralSearch;
use vstd::prelude::*;

verus! {

// ---------------------------------------------------------------------------------------------
// Literals
// ---------------------------------------------------------------------------------------------

proof fn lemma_literal_ranges_are(haystack: Seq<u8>, needle: Seq<u8>, from: int)
    requires
        0 <= from,
        haystack.len() <= usize::MAX,
    ensures
        forall|j: int|
            0 <= j < literal_ranges(haystack, needle, from).len() ==> {
                let place = #[trigger] literal_ranges(haystack, needle, from)[j];
                &&& from <= place.0
                &&& place.0 < haystack.len()
                &&& place.1 == place.0 + needle.len()
                &&& place.1 <= haystack.len()
                &&& forall|k: int|
                    0 <= k < needle.len() ==> haystack[place.0 + k] == #[trigger] needle[k]
            },
        forall|i: int, j: int|
            0 <= i < j < literal_ranges(haystack, needle, from).len() ==> (
            #[trigger] literal_ranges(haystack, needle, from)[i]).0 < (#[trigger] literal_ranges(
                haystack,
                needle,
                from,
            )[j]).0,
    decreases haystack.len() - from,
{
    if from < haystack.len() {
        lemma_literal_ranges_are(haystack, needle, from + 1);
        let rest = literal_ranges(haystack, needle, from + 1);
        let all = literal_ranges(haystack, needle, from);
        if all.len() > rest.len() {
            assert forall|k: int| 0 <= k < needle.len() implies haystack[from + k]
                == #[trigger] needle[k] by {
                assert(haystack.subrange(from, from + needle.len())[k] == haystack[from + k]);
            }
            assert forall|j: int| 1 <= j < all.len() implies #[trigger] all[j] == rest[j - 1] by {}
        }
    }
}

proof fn lemma_occurrence_is_a_range(haystack: Seq<u8>, needle: Seq<u8>, from: int, at: int)
    requires
        0 <= from <= at < haystack.len(),
        haystack.len() <= usize::MAX,
        at + needle.len() <= haystack.len(),
        forall|k: int| 0 <= k < needle.len() ==> haystack[at + k] == #[trigger] needle[k],
    ensures
        literal_ranges(haystack, needle, from).contains(
            (at as usize, (at + needle.len()) as usize),
        ),
    decreases at - from,
{
    let all = literal_ranges(haystack, needle, from);
    let place = (at as usize, (at + needle.len()) as usize);
    if from == at {
        assert(haystack.subrange(at, at + needle.len()) =~= needle);
        assert(all[0] == place);
    } else {
        lemma_occurrence_is_a_range(haystack, needle, from + 1, at);
        let rest = literal_ranges(haystack, needle, from + 1);
        let k = rest.index_of(place);
        assert(all[k + (all.len() - rest.len())] == place);
    }
}

/// A literal stands wherever its bytes stand one after the other, and nowhere else: each byte as it
/// is, or, where case does not matter, with the letters from A to Z moved to those from a to z. The
/// places come in ascending order, and each is as long as the literal.
pub proof fn lemma_literals_stand_where_their_bytes_do(
    literal: LiteralSearch,
    content: Seq<u8>,
    at: int,
)
    requires
        literal.needle@.len() > 0,
        content.len() <= usize::MAX,
        0 <= at,
    ensures
        ({
            let needle = literal.needle@;
            let found = places(CompiledPattern::Literal(literal), content);
            &&& (exists|j: int|
                0 <= j < found.len() && (#[trigger] found[j]).0 == at && found[j].1 == at
                    + needle.len()) <==> at + needle.len() <= content.len() && forall|k: int|
                0 <= k < needle.len() ==> #[trigger] needle[k] == (if literal.case_insensitive_ascii
                    && 65 <= content[at + k] <= 90 {
                    content[at + k] + 32
                } else {
                    content[at + k] as int
                })
            &&& forall|j: int|
                0 <= j < found.len() ==> (#[trigger] found[j]).1 == found[j].0 + needle.len()
                    && found[j].1 <= content.len()
            &&& forall|i: int, j: int|
                0 <= i < j < found.len() ==> (#[trigger] found[i]).0 < (#[trigger] found[j]).0
        }),
{
    let needle = literal.needle@;
    let haystack = if literal.case_insensitive_ascii {
        lowercased(content)
    } else {
        content
    };
    let found = places(CompiledPattern::Literal(literal), content);
    lemma_literal_ranges_are(haystack, needle, 0);
    if exists|j: int|
        0 <= j < found.len() && (#[trigger] found[j]).0 == at && found[j].1 == at + needle.len() {
        let j = choose|j: int|
            0 <= j < found.len() && (#[trigger] found[j]).0 == at && found[j].1 == at
                + needle.len();
        assert forall|k: int| 0 <= k < needle.len() implies #[trigger] needle[k] == (if literal.case_insensitive_ascii
            && 65 <= content[at + k] <= 90 {
            content[at + k] + 32
        } else {
            content[at + k] as int
        }) by {
            assert(haystack[found[j].0 + k] == needle[k]);
        }
    }
    if at + needle.len() <= content.len() && forall|k: int|
        0 <= k < needle.len() ==> #[trigger] needle[k] == (if literal.case_insensitive_ascii && 65
            <= content[at + k] <= 90 {
            content[at + k] + 32
        } else {
            content[at + k] as int
        }) {
        assert forall|k: int| 0 <= k < needle.len() implies haystack[at + k]
            == #[trigger] needle[k] by {}
        lemma_occurrence_is_a_range(haystack, needle, 0, at);
        let j = found.index_of((at as usize, (at + needle.len()) as usize));
        assert(found[j].0 == at);
    }
}

// ---------------------------------------------------------------------------------------------
// Reports
// ---------------------------------------------------------------------------------------------

/// The match says where `place` stands: the file, the number of its line, the column, the whole line,
/// and the bytes of the place, read as text.
pub open spec fn tells_of(
    found: MatchView,
    file: PathKey,
    content: Seq<u8>,
    place: (usize, usize),
    start: int,
    end: int,
) -> bool {
    &&& spans_line(content, place.0 as int, start, end)
    &&& found.file == file
    &&& found.line == content.take(place.0 as int).filter(|byte: u8| byte == 10u8).len() + 1
    &&& found.column == lossy_chars(content.subrange(start, place.0 as int)).len() + 1
    &&& found.line_text == lossy_chars(
        content.subrange(
            start,
            if end > start && content[end - 1] == 13u8 {
                end - 1
            } else {
                end
            },
        ),
    )
    &&& found.match_text == lossy_chars(content.subrange(place.0 as int, place.1 as int))
}

/// The match tells of one of the places.
pub open spec fn tells_of_some(
    found: MatchView,
    file: PathKey,
    content: Seq<u8>,
    ranges: Seq<(usize, usize)>,
) -> bool {
    exists|j: int, start: int, end: int|
        0 <= j < ranges.len() && #[trigger] tells_of(found, file, content, ranges[j], start, end)
}

/// The line of a place.
proof fn lemma_line_around(content: Seq<u8>, offset: int) -> (bounds: (int, int))
    requires
        0 <= offset <= content.len(),
    ensures
        spans_line(content, offset, bounds.0, bounds.1),
{
    let start = lemma_line_before(content, offset);
    let end = lemma_line_behind(content, offset);
    (start, end)
}

proof fn lemma_line_before(content: Seq<u8>, offset: int) -> (start: int)
    requires
        0 <= offset <= content.len(),
    ensures
        0 <= start <= offset,
        start == 0 || content[start - 1] == 10u8,
        forall|i: int| start <= i < offset ==> #[trigger] content[i] != 10u8,
    decreases offset,
{
    if offset == 0 || content[offset - 1] == 10u8 {
        offset
    } else {
        lemma_line_before(content, offset - 1)
    }
}

proof fn lemma_line_behind(content: Seq<u8>, offset: int) -> (end: int)
    requires
        0 <= offset <= content.len(),
    ensures
        offset <= end <= content.len(),
        end == content.len() || content[end] == 10u8,
        forall|i: int| offset <= i < end ==> #[trigger] content[i] != 10u8,
    decreases content.len() - offset,
{
    if offset == content.len() || content[offset] == 10u8 {
        offset
    } else {
        lemma_line_behind(content, offset + 1)
    }
}

/// Where the numbers of lines and columns can be told, in 32 bits.
pub open spec fn numbers_fit(content: Seq<u8>) -> bool {
    &&& content.len() < u32::MAX
    &&& forall|start: int, end: int|
        0 <= start <= end <= content.len() ==> #[trigger] lossy_chars(
            content.subrange(start, end),
        ).len() < u32::MAX
}

proof fn lemma_fewer_are_kept(bytes: Seq<u8>, test: spec_fn(u8) -> bool)
    ensures
        bytes.filter(test).len() <= bytes.len(),
    decreases bytes.len(),
{
    reveal(Seq::filter);
    if bytes.len() > 0 {
        lemma_fewer_are_kept(bytes.drop_last(), test);
    }
}

proof fn lemma_match_tells(file: PathKey, content: Seq<u8>, place: (usize, usize))
    requires
        numbers_fit(content),
        place.0 <= content.len(),
    ensures
        exists|start: int, end: int| #[trigger]
            tells_of(match_at(file, content, place), file, content, place, start, end),
{
    let (start, end) = lemma_line_around(content, place.0 as int);
    lemma_fewer_are_kept(content.take(place.0 as int), |byte: u8| byte == 10u8);
    lemma_line_number_counts_newlines(content, place.0 as int);
    lemma_column_counts_characters(content, place.0 as int, start, end);
    lemma_line_text_is_the_whole_line(content, place.0 as int, start, end);
    assert(tells_of(match_at(file, content, place), file, content, place, start, end));
}

proof fn lemma_ranges_report_places(
    counters: GrepCounters,
    file: PathKey,
    content: Seq<u8>,
    ranges: Seq<(usize, usize)>,
    count: int,
    limits: GrepLimits,
)
    requires
        0 <= count <= ranges.len(),
    ensures
        ({
            let scan = with_ranges(
                FileScan { counters, lines: Set::empty(), matches: Seq::empty(), done: false },
                file,
                content,
                ranges,
                count,
                limits,
            );
            &&& forall|m: int|
                0 <= m < scan.matches.len() ==> scan.lines.contains(
                    (#[trigger] scan.matches[m]).line,
                ) && exists|j: int|
                    0 <= j < count && scan.matches[m] == match_at(
                        file,
                        content,
                        #[trigger] ranges[j],
                    )
            &&& forall|m: int, n: int|
                0 <= m < n < scan.matches.len() ==> (#[trigger] scan.matches[m]).line != (
                #[trigger] scan.matches[n]).line
        }),
    decreases count,
{
    if count > 0 {
        lemma_ranges_report_places(counters, file, content, ranges, count - 1, limits);
        let start = FileScan { counters, lines: Set::empty(), matches: Seq::empty(), done: false };
        let prev = with_ranges(start, file, content, ranges, count - 1, limits);
        let scan = with_ranges(start, file, content, ranges, count, limits);
        assert(scan == with_range(prev, file, content, ranges[count - 1], limits));
        assert forall|m: int| 0 <= m < scan.matches.len() implies scan.lines.contains(
            (#[trigger] scan.matches[m]).line,
        ) && exists|j: int|
            0 <= j < count && scan.matches[m] == match_at(file, content, #[trigger] ranges[j]) by {
            if m < prev.matches.len() {
                assert(scan.matches[m] == prev.matches[m]);
                let j = choose|j: int|
                    0 <= j < count - 1 && prev.matches[m] == match_at(
                        file,
                        content,
                        #[trigger] ranges[j],
                    );
                assert(scan.matches[m] == match_at(file, content, ranges[j]));
            } else {
                assert(scan.matches[m] == match_at(file, content, ranges[count - 1]));
            }
        }
        assert forall|m: int, n: int| 0 <= m < n < scan.matches.len() implies (
        #[trigger] scan.matches[m]).line != (#[trigger] scan.matches[n]).line by {
            assert(scan.matches[m] == prev.matches[m]);
            if n < prev.matches.len() {
                assert(scan.matches[n] == prev.matches[n]);
            }
        }
    }
}

/// Whatever is reported of a file tells of a place at which the pattern matches in it, and no line is
/// reported twice. Of a file that is binary, or cannot be read, nothing is reported.
pub proof fn lemma_reports_tell_of_places(
    counters: GrepCounters,
    file: PathKey,
    content: Option<Seq<u8>>,
    ranges: Seq<(usize, usize)>,
    limits: GrepLimits,
)
    requires
        content matches Some(content) ==> numbers_fit(content) && forall|j: int|
            0 <= j < ranges.len() ==> (#[trigger] ranges[j]).0 <= content.len(),
    ensures
        ({
            let found = file_scanned(counters, file, content, ranges, limits).matches;
            &&& forall|m: int|
                0 <= m < found.len() ==> {
                    &&& content is Some
                    &&& !looks_binary(content->0)
                    &&& tells_of_some(#[trigger] found[m], file, content->0, ranges)
                }
            &&& forall|m: int, n: int|
                0 <= m < n < found.len() ==> (#[trigger] found[m]).line != (
                #[trigger] found[n]).line
        }),
{
    let found = file_scanned(counters, file, content, ranges, limits).matches;
    if let Some(bytes) = content {
        let read = GrepCounters {
            bytes_verified: counters.bytes_verified.wrapping_add(bytes.len() as usize),
            files_searched: counters.files_searched.wrapping_add(1),
            ..counters
        };
        lemma_ranges_report_places(read, file, bytes, ranges, ranges.len() as int, limits);
        assert(found.len() > 0 ==> found == text_scanned(read, file, bytes, ranges, limits).matches);
        assert forall|m: int| 0 <= m < found.len() implies !looks_binary(bytes) && tells_of_some(
            #[trigger] found[m],
            file,
            bytes,
            ranges,
        ) by {
            assert(found == text_scanned(read, file, bytes, ranges, limits).matches);
            let j = choose|j: int|
                0 <= j < ranges.len() && found[m] == match_at(file, bytes, #[trigger] ranges[j]);
            lemma_match_tells(file, bytes, ranges[j]);
            let (start, end) = choose|start: int, end: int| #[trigger]
                tells_of(match_at(file, bytes, ranges[j]), file, bytes, ranges[j], start, end);
            assert(tells_of(found[m], file, bytes, ranges[j], start, end));
        }
    }
}

proof fn lemma_ranges_report_every_line(
    counters: GrepCounters,
    file: PathKey,
    content: Seq<u8>,
    ranges: Seq<(usize, usize)>,
    count: int,
    limits: GrepLimits,
)
    requires
        0 <= count <= ranges.len(),
        !counters.truncated,
        !counters.stop_scan,
        counters.total_matches + ranges.len() <= limits.max_results,
    ensures
        ({
            let scan = with_ranges(
                FileScan { counters, lines: Set::empty(), matches: Seq::empty(), done: false },
                file,
                content,
                ranges,
                count,
                limits,
            );
            &&& !scan.done
            &&& !scan.counters.truncated
            &&& !scan.counters.stop_scan
            &&& !scan.counters.engine_capped || counters.engine_capped
            &&& scan.counters.total_matches == counters.total_matches + scan.matches.len()
            &&& scan.matches.len() <= count
            &&& forall|line: u32| #[trigger]
                scan.lines.contains(line) ==> exists|m: int|
                    0 <= m < scan.matches.len() && (#[trigger] scan.matches[m]).line == line
            &&& forall|j: int|
                0 <= j < count ==> scan.lines.contains(
                    line_of(content, (#[trigger] ranges[j]).0 as int),
                )
        }),
    decreases count,
{
    if count > 0 {
        lemma_ranges_report_every_line(counters, file, content, ranges, count - 1, limits);
        let start = FileScan { counters, lines: Set::empty(), matches: Seq::empty(), done: false };
        let prev = with_ranges(start, file, content, ranges, count - 1, limits);
        let scan = with_ranges(start, file, content, ranges, count, limits);
        assert(scan == with_range(prev, file, content, ranges[count - 1], limits));
        assert forall|line: u32| #[trigger] scan.lines.contains(line) implies exists|m: int|
            0 <= m < scan.matches.len() && (#[trigger] scan.matches[m]).line == line by {
            if prev.lines.contains(line) {
                let m = choose|m: int|
                    0 <= m < prev.matches.len() && (#[trigger] prev.matches[m]).line == line;
                assert(scan.matches[m] == prev.matches[m]);
            } else {
                assert(scan.matches[scan.matches.len() - 1].line == line);
            }
        }
    }
}

/// Where the limit is not met, every line of a text on which the pattern matches is reported: some
/// reported match has the number of the line. As many are counted as are reported.
pub proof fn lemma_every_line_with_a_place_is_reported(
    counters: GrepCounters,
    file: PathKey,
    content: Seq<u8>,
    ranges: Seq<(usize, usize)>,
    limits: GrepLimits,
    place: int,
)
    requires
        !looks_binary(content),
        numbers_fit(content),
        forall|j: int| 0 <= j < ranges.len() ==> (#[trigger] ranges[j]).0 <= content.len(),
        !counters.truncated,
        !counters.stop_scan,
        counters.total_matches + ranges.len() <= limits.max_results,
        0 <= place < ranges.len(),
    ensures
        ({
            let outcome = file_scanned(counters, file, Some(content), ranges, limits);
            &&& exists|m: int|
                0 <= m < outcome.matches.len() && (#[trigger] outcome.matches[m]).line
                    == content.take(ranges[place].0 as int).filter(|byte: u8| byte == 10u8).len()
                    + 1
            &&& outcome.counters.total_matches == counters.total_matches + outcome.matches.len()
            &&& !outcome.counters.truncated
            &&& outcome.counters.engine_capped == counters.engine_capped
            &&& outcome.counters.files_searched == counters.files_searched.wrapping_add(1)
            &&& outcome.counters.files_with_matches == counters.files_with_matches.wrapping_add(1)
        }),
{
    let read = GrepCounters {
        bytes_verified: counters.bytes_verified.wrapping_add(content.len() as usize),
        files_searched: counters.files_searched.wrapping_add(1),
        ..counters
    };
    lemma_ranges_report_every_line(read, file, content, ranges, ranges.len() as int, limits);
    lemma_ranges_keep_the_rest(read, file, content, ranges, ranges.len() as int, limits);
    lemma_fewer_are_kept(content.take(ranges[place].0 as int), |byte: u8| byte == 10u8);
    lemma_line_number_counts_newlines(content, ranges[place].0 as int);
    let outcome = file_scanned(counters, file, Some(content), ranges, limits);
    assert(outcome == text_scanned(read, file, content, ranges, limits));
    let scan = with_ranges(
        FileScan { counters: read, lines: Set::empty(), matches: Seq::empty(), done: false },
        file,
        content,
        ranges,
        ranges.len() as int,
        limits,
    );
    let line = line_of(content, ranges[place].0 as int);
    assert(scan.lines.contains(line));
    assert(!scan.lines.is_empty());
    let m = choose|m: int|
        0 <= m < scan.matches.len() && (#[trigger] scan.matches[m]).line == line;
    assert(outcome.matches[m].line == line);
}

proof fn lemma_ranges_keep_the_rest(
    counters: GrepCounters,
    file: PathKey,
    content: Seq<u8>,
    ranges: Seq<(usize, usize)>,
    count: int,
    limits: GrepLimits,
)
    requires
        0 <= count,
    ensures
        ({
            let scan = with_ranges(
                FileScan { counters, lines: Set::empty(), matches: Seq::empty(), done: false },
                file,
                content,
                ranges,
                count,
                limits,
            );
            &&& scan.counters.files_searched == counters.files_searched
            &&& scan.counters.files_with_matches == counters.files_with_matches
            &&& scan.counters.bytes_verified == counters.bytes_verified
            &&& counters.engine_capped ==> scan.counters.engine_capped
        }),
    decreases count,
{
    if count > 0 {
        lemma_ranges_keep_the_rest(counters, file, content, ranges, count - 1, limits);
    }
}

/// A search goes on until it is truncated and has counted twice as many matches as it may report; one
/// of files side by side ends before that where it was told to.
pub proof fn lemma_search_stops_at_twice_the_limit(counters: GrepCounters, limits: GrepLimits)
    ensures
        !counters.truncated ==> !search_exhausted(counters, limits),
        counters.total_matches < 2 * limits.max_results && counters.total_matches < usize::MAX
            ==> !search_exhausted(counters, limits),
        counters.truncated && counters.total_matches >= 2 * limits.max_results ==> search_exhausted(
            counters,
            limits,
        ),
        limits.side_by_side && counters.stop_scan ==> scan_exhausted(counters, limits),
        !(limits.side_by_side && counters.stop_scan) ==> scan_exhausted(counters, limits)
            == search_exhausted(counters, limits),
{
}

} // verus!
