//! Laws of searching: below the limit nothing is left out and nothing is reported as capped; at the
//! limit as much is reported as may be.

use crate::grep::file_scanned;
use crate::grep::match_at;
use crate::grep::scan_exhausted;
use crate::grep::text_scanned;
use crate::grep::with_range;
use crate::grep::with_ranges;
use crate::grep::FileScan;
use crate::grep::GrepCounters;
use crate::grep::GrepLimits;
use crate::grep::MatchView;
use crate::lines::line_of;
use crate::outside::looks_binary;
use crate::path::PathKey;
use crate::search::asked;
use crate::search::fed;
use crate::search::fresh_scan;
use crate::search::ran;
use crate::search::ran_in_time;
use crate::search::ScanView;
use vstd::prelude::*;

verus! {

/// An earlier place lies on the same line.
pub open spec fn line_taken(content: Seq<u8>, ranges: Seq<(usize, usize)>, at: int) -> bool {
    exists|j: int|
        0 <= j < at && line_of(content, (#[trigger] ranges[j]).0 as int) == line_of(
            content,
            ranges[at].0 as int,
        )
}

/// Of the first `count` places the first on each line.
pub open spec fn first_ranges(content: Seq<u8>, ranges: Seq<(usize, usize)>, count: int) -> Seq<
    (usize, usize),
>
    decreases count,
{
    if count <= 0 {
        Seq::empty()
    } else {
        let earlier = first_ranges(content, ranges, count - 1);
        if line_taken(content, ranges, count - 1) {
            earlier
        } else {
            earlier.push(ranges[count - 1])
        }
    }
}

/// The first match of each line.
pub open spec fn first_matches(
    file: PathKey,
    content: Seq<u8>,
    ranges: Seq<(usize, usize)>,
    count: int,
) -> Seq<MatchView> {
    first_ranges(content, ranges, count).map_values(
        |range: (usize, usize)| match_at(file, content, range),
    )
}

/// A search that has met no limit yet.
pub open spec fn unhindered(counters: GrepCounters) -> bool {
    !counters.truncated && !counters.stop_scan
}

proof fn lemma_uncapped_ranges(
    counters: GrepCounters,
    file: PathKey,
    content: Seq<u8>,
    ranges: Seq<(usize, usize)>,
    count: int,
    limits: GrepLimits,
)
    requires
        unhindered(counters),
        0 <= count <= ranges.len(),
        counters.total_matches + first_ranges(content, ranges, count).len() <= limits.max_results,
    ensures
        ({
            let scan = with_ranges(
                FileScan { counters, lines: Set::empty(), matches: Seq::empty(), done: false },
                file,
                content,
                ranges,
                count,
                limits,
            );
            let firsts = first_ranges(content, ranges, count);
            &&& !scan.done
            &&& scan.counters == (GrepCounters {
                total_matches: (counters.total_matches + firsts.len()) as usize,
                ..counters
            })
            &&& scan.matches == first_matches(file, content, ranges, count)
            &&& forall|line: u32| #[trigger]
                scan.lines.contains(line) <==> exists|j: int|
                    0 <= j < count && line_of(content, (#[trigger] ranges[j]).0 as int) == line
            &&& scan.lines.is_empty() <==> firsts.len() == 0
        }),
    decreases count,
{
    let start = FileScan { counters, lines: Set::empty(), matches: Seq::empty(), done: false };
    if count == 0 {
        assert(first_matches(file, content, ranges, 0) =~= Seq::empty());
    } else {
        let earlier = first_ranges(content, ranges, count - 1);
        let firsts = first_ranges(content, ranges, count);
        assert(earlier.len() <= firsts.len());
        lemma_uncapped_ranges(counters, file, content, ranges, count - 1, limits);
        let prev = with_ranges(start, file, content, ranges, count - 1, limits);
        let scan = with_ranges(start, file, content, ranges, count, limits);
        let range = ranges[count - 1];
        let line = line_of(content, range.0 as int);
        assert(scan == with_range(prev, file, content, range, limits));
        assert(prev.lines.contains(line) <==> line_taken(content, ranges, count - 1));
        if !line_taken(content, ranges, count - 1) {
            assert(scan.matches =~= first_matches(file, content, ranges, count));
            assert(scan.lines.contains(line));
        }
        assert forall|other: u32| #[trigger] scan.lines.contains(other) <==> exists|j: int|
            0 <= j < count && line_of(content, (#[trigger] ranges[j]).0 as int) == other by {
            assert(prev.lines.contains(other) <==> exists|j: int|
                0 <= j < count - 1 && line_of(content, (#[trigger] ranges[j]).0 as int) == other);
            if scan.lines.contains(other) && !prev.lines.contains(other) {
                assert(line_of(content, ranges[count - 1].0 as int) == other);
            }
            if exists|j: int|
                0 <= j < count && line_of(content, (#[trigger] ranges[j]).0 as int) == other {
                let j = choose|j: int|
                    0 <= j < count && line_of(content, (#[trigger] ranges[j]).0 as int) == other;
                if j == count - 1 {
                    assert(scan.lines.contains(line));
                }
            }
        }
        if firsts.len() == 0 {
            assert(line_taken(content, ranges, count - 1));
            assert(prev.lines.is_empty());
            assert(prev.lines.contains(line));
        }
    }
}

/// Below the limit the search of a text reports the first match of each line, in their order, and
/// counts as many.
pub proof fn lemma_uncapped_text_reports_every_line(
    counters: GrepCounters,
    file: PathKey,
    content: Seq<u8>,
    ranges: Seq<(usize, usize)>,
    limits: GrepLimits,
)
    requires
        unhindered(counters),
        counters.total_matches + first_ranges(content, ranges, ranges.len() as int).len()
            <= limits.max_results,
    ensures
        ({
            let outcome = text_scanned(counters, file, content, ranges, limits);
            let found = first_ranges(content, ranges, ranges.len() as int).len();
            &&& outcome.matches == first_matches(file, content, ranges, ranges.len() as int)
            &&& outcome.counters == (GrepCounters {
                total_matches: (counters.total_matches + found) as usize,
                files_with_matches: if found > 0 {
                    counters.files_with_matches.wrapping_add(1)
                } else {
                    counters.files_with_matches
                },
                ..counters
            })
        }),
{
    lemma_uncapped_ranges(counters, file, content, ranges, ranges.len() as int, limits);
}

/// How many lines of the first `count` files have a match.
pub open spec fn lines_found(
    contents: Seq<Option<Seq<u8>>>,
    ranges: Seq<Seq<(usize, usize)>>,
    count: int,
) -> int
    decreases count,
{
    if count <= 0 {
        0
    } else {
        lines_found(contents, ranges, count - 1) + lines_in(contents[count - 1], ranges[count - 1])
    }
}

/// How many lines of a file have a match; none of one that is binary or cannot be read.
pub open spec fn lines_in(content: Option<Seq<u8>>, ranges: Seq<(usize, usize)>) -> int {
    match content {
        Some(content) => if looks_binary(content) {
            0
        } else {
            first_ranges(content, ranges, ranges.len() as int).len() as int
        },
        None => 0,
    }
}

/// The file can be read, and is text.
pub open spec fn is_text(content: Option<Seq<u8>>) -> bool {
    content matches Some(content) && !looks_binary(content)
}

/// How many of the first `count` files are text.
pub open spec fn texts_found(contents: Seq<Option<Seq<u8>>>, count: int) -> int
    decreases count,
{
    if count <= 0 {
        0
    } else {
        texts_found(contents, count - 1) + (if is_text(contents[count - 1]) {
            1int
        } else {
            0
        })
    }
}

/// How many of the first `count` files have a match.
pub open spec fn files_found(
    contents: Seq<Option<Seq<u8>>>,
    ranges: Seq<Seq<(usize, usize)>>,
    count: int,
) -> int
    decreases count,
{
    if count <= 0 {
        0
    } else {
        files_found(contents, ranges, count - 1) + (if lines_in(
            contents[count - 1],
            ranges[count - 1],
        ) > 0 {
            1int
        } else {
            0
        })
    }
}

/// The first match of each line of a file.
pub open spec fn matches_in(
    file: PathKey,
    content: Option<Seq<u8>>,
    ranges: Seq<(usize, usize)>,
) -> Seq<MatchView> {
    match content {
        Some(content) => if looks_binary(content) {
            Seq::empty()
        } else {
            first_matches(file, content, ranges, ranges.len() as int)
        },
        None => Seq::empty(),
    }
}

/// The first match of each line of the first `count` files.
pub open spec fn all_matches(
    files: Seq<PathKey>,
    contents: Seq<Option<Seq<u8>>>,
    ranges: Seq<Seq<(usize, usize)>>,
    count: int,
) -> Seq<MatchView>
    decreases count,
{
    if count <= 0 {
        Seq::empty()
    } else {
        all_matches(files, contents, ranges, count - 1) + matches_in(
            files[count - 1],
            contents[count - 1],
            ranges[count - 1],
        )
    }
}

proof fn lemma_lines_found_grow(
    contents: Seq<Option<Seq<u8>>>,
    ranges: Seq<Seq<(usize, usize)>>,
    count: int,
)
    ensures
        0 <= lines_found(contents, ranges, count),
    decreases count,
{
    if count > 0 {
        lemma_lines_found_grow(contents, ranges, count - 1);
    }
}

proof fn lemma_files_are_counted(
    contents: Seq<Option<Seq<u8>>>,
    ranges: Seq<Seq<(usize, usize)>>,
    count: int,
)
    requires
        0 <= count,
    ensures
        0 <= files_found(contents, ranges, count) <= texts_found(contents, count) <= count,
    decreases count,
{
    if count > 0 {
        lemma_files_are_counted(contents, ranges, count - 1);
    }
}

/// A search that finds no more lines than it may report leaves nothing out: every line with a match is
/// reported, and the search is neither truncated nor capped. Every file that is text counts as
/// searched, and every file with a match as one with matches.
pub proof fn lemma_uncapped_search_is_complete(
    max_results: usize,
    candidate_count: int,
    files: Seq<PathKey>,
    contents: Seq<Option<Seq<u8>>>,
    ranges: Seq<Seq<(usize, usize)>>,
    count: int,
)
    requires
        0 <= count <= files.len(),
        lines_found(contents, ranges, count) <= max_results,
    ensures
        ({
            let scan = ran(
                fresh_scan(max_results, candidate_count, None),
                files,
                contents,
                ranges,
                count,
            );
            &&& !scan.counters.truncated
            &&& !scan.counters.engine_capped
            &&& !scan.counters.stop_scan
            &&& !scan.done
            &&& scan.limits == fresh_scan(max_results, candidate_count, None).limits
            &&& scan.file_limit is None
            &&& scan.counters.total_matches == lines_found(contents, ranges, count)
            &&& scan.matches == all_matches(files, contents, ranges, count)
            &&& count <= usize::MAX ==> scan.counters.files_searched == texts_found(contents, count)
            &&& count <= usize::MAX ==> scan.counters.files_with_matches == files_found(
                contents,
                ranges,
                count,
            )
        }),
    decreases count,
{
    let start = fresh_scan(max_results, candidate_count, None);
    lemma_files_are_counted(contents, ranges, count);
    if count == 0 {
        assert(ran(start, files, contents, ranges, 0).matches =~= Seq::empty());
    } else {
        let k = count - 1;
        assert(lines_in(contents[k], ranges[k]) >= 0);
        lemma_lines_found_grow(contents, ranges, k);
        lemma_uncapped_search_is_complete(
            max_results,
            candidate_count,
            files,
            contents,
            ranges,
            k,
        );
        let prev = ran(start, files, contents, ranges, k);
        let (next, wanted) = asked(prev, false);
        assert(wanted && next == prev);
        let outcome = file_scanned(next.counters, files[k], contents[k], ranges[k], next.limits);
        let scan = ran(start, files, contents, ranges, count);
        assert(scan == fed(next, outcome));
        if let Some(content) = contents[k] {
            if !looks_binary(content) {
                let read = GrepCounters {
                    bytes_verified: next.counters.bytes_verified.wrapping_add(
                        content.len() as usize,
                    ),
                    files_searched: next.counters.files_searched.wrapping_add(1),
                    ..next.counters
                };
                lemma_uncapped_text_reports_every_line(
                    read,
                    files[k],
                    content,
                    ranges[k],
                    next.limits,
                );
            }
        }
        assert(outcome.matches =~= matches_in(files[k], contents[k], ranges[k]));
        assert(scan.matches =~= all_matches(files, contents, ranges, count));
    }
}

// ---------------------------------------------------------------------------------------------
// At the limit
// ---------------------------------------------------------------------------------------------

/// What a capped search reports is as much as it may: each match up to the limit, and what went over
/// the limit, ended the search or left files out shows as truncated.
pub open spec fn accounted(counters: GrepCounters, reported: int, limits: GrepLimits) -> bool {
    &&& reported == (if counters.total_matches < limits.max_results {
        counters.total_matches as int
    } else {
        limits.max_results as int
    })
    &&& counters.total_matches > limits.max_results ==> counters.truncated
    &&& counters.stop_scan ==> counters.truncated
    &&& counters.engine_capped ==> counters.truncated
}

/// No more is counted than lines have a match.
proof fn lemma_lines_are_counted(
    counters: GrepCounters,
    file: PathKey,
    content: Seq<u8>,
    ranges: Seq<(usize, usize)>,
    count: int,
    limits: GrepLimits,
)
    requires
        0 <= count <= ranges.len(),
        counters.total_matches + first_ranges(content, ranges, count).len() <= usize::MAX,
    ensures
        ({
            let scan = with_ranges(
                FileScan { counters, lines: Set::empty(), matches: Seq::empty(), done: false },
                file,
                content,
                ranges,
                count,
                limits,
            );
            &&& scan.counters.total_matches <= counters.total_matches + first_ranges(
                content,
                ranges,
                count,
            ).len()
            &&& !scan.done ==> forall|line: u32| #[trigger]
                scan.lines.contains(line) <==> exists|j: int|
                    0 <= j < count && line_of(content, (#[trigger] ranges[j]).0 as int) == line
        }),
    decreases count,
{
    let start = FileScan { counters, lines: Set::empty(), matches: Seq::empty(), done: false };
    if count > 0 {
        lemma_lines_are_counted(counters, file, content, ranges, count - 1, limits);
        let prev = with_ranges(start, file, content, ranges, count - 1, limits);
        let scan = with_ranges(start, file, content, ranges, count, limits);
        let line = line_of(content, ranges[count - 1].0 as int);
        assert(scan == with_range(prev, file, content, ranges[count - 1], limits));
        if !prev.done {
            assert(prev.lines.contains(line) <==> line_taken(content, ranges, count - 1));
        }
        if !scan.done {
            assert forall|other: u32| #[trigger] scan.lines.contains(other) <==> exists|j: int|
                0 <= j < count && line_of(content, (#[trigger] ranges[j]).0 as int) == other by {
                if scan.lines.contains(other) && !prev.lines.contains(other) {
                    assert(line_of(content, ranges[count - 1].0 as int) == other);
                }
                if exists|j: int|
                    0 <= j < count && line_of(content, (#[trigger] ranges[j]).0 as int) == other {
                    let j = choose|j: int|
                        0 <= j < count && line_of(content, (#[trigger] ranges[j]).0 as int) == other;
                    if j == count - 1 {
                        assert(scan.lines.contains(line));
                    }
                }
            }
        }
    }
}

proof fn lemma_ranges_stay_accounted(
    counters: GrepCounters,
    earlier: int,
    file: PathKey,
    content: Seq<u8>,
    ranges: Seq<(usize, usize)>,
    count: int,
    limits: GrepLimits,
)
    requires
        0 <= count <= ranges.len(),
        limits.max_results < usize::MAX || counters.total_matches + first_ranges(
            content,
            ranges,
            count,
        ).len() <= usize::MAX,
        accounted(counters, earlier, limits),
    ensures
        ({
            let scan = with_ranges(
                FileScan { counters, lines: Set::empty(), matches: Seq::empty(), done: false },
                file,
                content,
                ranges,
                count,
                limits,
            );
            accounted(scan.counters, earlier + scan.matches.len(), limits)
        }),
    decreases count,
{
    if count > 0 {
        lemma_ranges_stay_accounted(counters, earlier, file, content, ranges, count - 1, limits);
        if limits.max_results == usize::MAX {
            lemma_lines_are_counted(counters, file, content, ranges, count - 1, limits);
            lemma_lines_are_counted(counters, file, content, ranges, count, limits);
            let start = FileScan {
                counters,
                lines: Set::empty(),
                matches: Seq::empty(),
                done: false,
            };
            let prev = with_ranges(start, file, content, ranges, count - 1, limits);
            if !prev.done {
                let line = line_of(content, ranges[count - 1].0 as int);
                assert(prev.lines.contains(line) <==> line_taken(content, ranges, count - 1));
            }
        }
    }
}

/// However many lines match, and however many files may be opened and whenever time runs out, a search
/// reports as many lines as it counted or as many as it may, whichever is less; a search that was
/// capped is truncated; and no more is counted than lines have a match. Where all lines that can be
/// counted may be reported, no more of them match than can be counted.
pub proof fn lemma_capped_search_is_accounted(
    max_results: usize,
    candidate_count: int,
    file_limit: Option<usize>,
    files: Seq<PathKey>,
    contents: Seq<Option<Seq<u8>>>,
    ranges: Seq<Seq<(usize, usize)>>,
    late: Seq<bool>,
    count: int,
)
    requires
        0 <= count <= files.len(),
        max_results < usize::MAX || lines_found(contents, ranges, count) <= usize::MAX,
    ensures
        ({
            let scan = ran_in_time(
                fresh_scan(max_results, candidate_count, file_limit),
                files,
                contents,
                ranges,
                late,
                count,
            );
            &&& scan.limits.max_results == max_results
            &&& scan.matches.len() == (if scan.counters.total_matches < max_results {
                scan.counters.total_matches
            } else {
                max_results
            })
            &&& scan.counters.engine_capped ==> scan.counters.truncated
            &&& scan.counters.stop_scan ==> scan.counters.truncated
            &&& scan.counters.total_matches > max_results ==> scan.counters.truncated
            &&& scan.counters.total_matches <= lines_found(contents, ranges, count) || lines_found(
                contents,
                ranges,
                count,
            ) > usize::MAX
        }),
    decreases count,
{
    let start = fresh_scan(max_results, candidate_count, file_limit);
    if count > 0 {
        let k = count - 1;
        lemma_lines_found_grow(contents, ranges, k);
        assert(lines_in(contents[k], ranges[k]) >= 0);
        lemma_capped_search_is_accounted(
            max_results,
            candidate_count,
            file_limit,
            files,
            contents,
            ranges,
            late,
            k,
        );
        let prev = ran_in_time(start, files, contents, ranges, late, k);
        let (next, wanted) = asked(prev, late[k]);
        let scan = ran_in_time(start, files, contents, ranges, late, count);
        assert(accounted(next.counters, next.matches.len() as int, next.limits));
        if wanted {
            let outcome = file_scanned(
                next.counters,
                files[k],
                contents[k],
                ranges[k],
                next.limits,
            );
            assert(scan == fed(next, outcome));
            if let Some(content) = contents[k] {
                if !looks_binary(content) && !scan_exhausted(next.counters, next.limits) {
                    let read = GrepCounters {
                        bytes_verified: next.counters.bytes_verified.wrapping_add(
                            content.len() as usize,
                        ),
                        files_searched: next.counters.files_searched.wrapping_add(1),
                        ..next.counters
                    };
                    let places = ranges[k].len() as int;
                    lemma_ranges_stay_accounted(
                        read,
                        next.matches.len() as int,
                        files[k],
                        content,
                        ranges[k],
                        places,
                        next.limits,
                    );
                    if lines_found(contents, ranges, count) <= usize::MAX {
                        lemma_lines_are_counted(
                            read,
                            files[k],
                            content,
                            ranges[k],
                            places,
                            next.limits,
                        );
                    }
                }
            }
            assert(accounted(
                outcome.counters,
                (next.matches.len() + outcome.matches.len()) as int,
                next.limits,
            ));
        }
    }
}

/// A search opens no more files than it may.
pub proof fn lemma_file_limit_is_kept(
    max_results: usize,
    candidate_count: int,
    limit: usize,
    files: Seq<PathKey>,
    contents: Seq<Option<Seq<u8>>>,
    ranges: Seq<Seq<(usize, usize)>>,
    late: Seq<bool>,
    count: int,
)
    requires
        0 <= count <= files.len(),
        count <= usize::MAX,
    ensures
        ({
            let scan = ran_in_time(
                fresh_scan(max_results, candidate_count, Some(limit)),
                files,
                contents,
                ranges,
                late,
                count,
            );
            &&& scan.file_limit == Some(limit)
            &&& scan.claims <= count
            &&& scan.counters.files_searched <= scan.claims
            &&& scan.counters.files_searched <= limit
        }),
    decreases count,
{
    if count > 0 {
        let k = count - 1;
        lemma_file_limit_is_kept(
            max_results,
            candidate_count,
            limit,
            files,
            contents,
            ranges,
            late,
            k,
        );
        let start = fresh_scan(max_results, candidate_count, Some(limit));
        let prev = ran_in_time(start, files, contents, ranges, late, k);
        let (next, wanted) = asked(prev, late[k]);
        if wanted {
            if let Some(content) = contents[k] {
                let read = GrepCounters {
                    bytes_verified: next.counters.bytes_verified.wrapping_add(
                        content.len() as usize,
                    ),
                    files_searched: next.counters.files_searched.wrapping_add(1),
                    ..next.counters
                };
                lemma_ranges_search_no_file(
                    read,
                    files[k],
                    content,
                    ranges[k],
                    ranges[k].len() as int,
                    next.limits,
                );
            }
        }
    }
}

/// Looking through a file leaves the number of files searched.
proof fn lemma_ranges_search_no_file(
    counters: GrepCounters,
    file: PathKey,
    content: Seq<u8>,
    ranges: Seq<(usize, usize)>,
    count: int,
    limits: GrepLimits,
)
    ensures
        with_ranges(
            FileScan { counters, lines: Set::empty(), matches: Seq::empty(), done: false },
            file,
            content,
            ranges,
            count,
            limits,
        ).counters.files_searched == counters.files_searched,
    decreases count,
{
    if count > 0 {
        lemma_ranges_search_no_file(counters, file, content, ranges, count - 1, limits);
    }
}

/// A search for which time never runs out is a plain one.
pub proof fn lemma_time_to_spare(
    scan: ScanView,
    files: Seq<PathKey>,
    contents: Seq<Option<Seq<u8>>>,
    ranges: Seq<Seq<(usize, usize)>>,
    late: Seq<bool>,
    count: int,
)
    requires
        forall|i: int| 0 <= i < count ==> !#[trigger] late[i],
    ensures
        ran_in_time(scan, files, contents, ranges, late, count) == ran(
            scan,
            files,
            contents,
            ranges,
            count,
        ),
    decreases count,
{
    if count > 0 {
        lemma_time_to_spare(scan, files, contents, ranges, late, count - 1);
        assert(!late[count - 1]);
    }
}

proof fn lemma_overfull_ranges(
    counters: GrepCounters,
    file: PathKey,
    content: Seq<u8>,
    ranges: Seq<(usize, usize)>,
    count: int,
    limits: GrepLimits,
)
    requires
        unhindered(counters),
        counters.total_matches <= limits.max_results,
        limits.max_results < usize::MAX,
        0 <= count <= ranges.len(),
        counters.total_matches + first_ranges(content, ranges, count).len() > limits.max_results,
    ensures
        ({
            let scan = with_ranges(
                FileScan { counters, lines: Set::empty(), matches: Seq::empty(), done: false },
                file,
                content,
                ranges,
                count,
                limits,
            );
            let room = limits.max_results - counters.total_matches;
            &&& scan.done
            &&& scan.counters == (GrepCounters {
                total_matches: (limits.max_results + 1) as usize,
                truncated: true,
                stop_scan: limits.side_by_side && limits.max_results + 1 >= limits.stop_after(),
                ..counters
            })
            &&& scan.matches == first_matches(file, content, ranges, count).take(room)
            &&& !scan.lines.is_empty()
        }),
    decreases count,
{
    let start = FileScan { counters, lines: Set::empty(), matches: Seq::empty(), done: false };
    let room = limits.max_results - counters.total_matches;
    let firsts = first_ranges(content, ranges, count);
    let earlier = first_ranges(content, ranges, count - 1);
    let prev = with_ranges(start, file, content, ranges, count - 1, limits);
    let scan = with_ranges(start, file, content, ranges, count, limits);
    assert(scan == with_range(prev, file, content, ranges[count - 1], limits));
    if earlier.len() > room {
        lemma_overfull_ranges(counters, file, content, ranges, count - 1, limits);
    } else {
        lemma_uncapped_ranges(counters, file, content, ranges, count - 1, limits);
        let line = line_of(content, ranges[count - 1].0 as int);
        assert(prev.lines.contains(line) <==> line_taken(content, ranges, count - 1));
        assert(scan.lines.contains(line));
    }
    assert(scan.matches =~= first_matches(file, content, ranges, count).take(room));
}

/// In a readable text with more matching lines than are still wanted, the first of them are
/// reported, as many as are wanted; the one that is over is counted, the search is truncated, and
/// the file counts as searched and as one with matches.
pub proof fn lemma_overfull_file_reports_what_is_wanted(
    counters: GrepCounters,
    file: PathKey,
    content: Seq<u8>,
    ranges: Seq<(usize, usize)>,
    limits: GrepLimits,
)
    requires
        unhindered(counters),
        !looks_binary(content),
        counters.total_matches <= limits.max_results,
        limits.max_results < usize::MAX,
        counters.total_matches + first_ranges(content, ranges, ranges.len() as int).len()
            > limits.max_results,
    ensures
        ({
            let outcome = file_scanned(counters, file, Some(content), ranges, limits);
            let room = limits.max_results - counters.total_matches;
            &&& outcome.matches == first_matches(file, content, ranges, ranges.len() as int).take(
                room,
            )
            &&& outcome.counters.total_matches == limits.max_results + 1
            &&& outcome.counters.truncated
            &&& outcome.counters.files_searched == counters.files_searched.wrapping_add(1)
            &&& outcome.counters.files_with_matches == counters.files_with_matches.wrapping_add(1)
        }),
{
    let read = GrepCounters {
        bytes_verified: counters.bytes_verified.wrapping_add(content.len() as usize),
        files_searched: counters.files_searched.wrapping_add(1),
        ..counters
    };
    lemma_overfull_ranges(read, file, content, ranges, ranges.len() as int, limits);
}

} // verus!
