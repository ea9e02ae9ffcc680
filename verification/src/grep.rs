//! Looking for a pattern in the content of files.

use crate::ingest::bytes_option;
use crate::ingest::is_binary_bytes;
use crate::lines::all_line_starts;
use crate::lines::column_of;
use crate::lines::line_details_bytes;
use crate::lines::line_of;
use crate::lines::line_starts_bytes;
use crate::lines::line_text_of;
use crate::outside::find_bytes;
use crate::outside::find_regex;
use crate::outside::looks_binary;
use crate::outside::lossy_chars;
use crate::outside::lossy_text;
use crate::outside::occurs_at;
use crate::outside::regex_ranges;
use crate::outside::regex_source;
use crate::path::PathKey;
use crate::path::SearchPath;
use crate::path_text::copy_range;
use crate::query::CompiledPattern;
use crate::trigram::lowercase;
use crate::trigram::normalize_char;
use std::collections::HashSet;
use vstd::prelude::*;
use vstd::slice::slice_subrange;

verus! {

/// One match.
#[derive(Clone, Debug)]
pub struct GrepMatch {
    pub file: SearchPath,
    pub line: u32,
    pub column: u32,
    pub line_text: String,
    pub match_text: String,
}

/// The mathematical counterpart of a `GrepMatch`.
pub struct MatchView {
    pub file: PathKey,
    pub line: u32,
    pub column: u32,
    pub line_text: Seq<char>,
    pub match_text: Seq<char>,
}

impl View for GrepMatch {
    type V = MatchView;

    open spec fn view(&self) -> MatchView {
        MatchView {
            file: self.file@,
            line: self.line,
            column: self.column,
            line_text: self.line_text@,
            match_text: self.match_text@,
        }
    }
}

pub open spec fn match_views(matches: Seq<GrepMatch>) -> Seq<MatchView> {
    matches.map_values(|found: GrepMatch| found@)
}

/// What a search has come to so far.
#[derive(Clone, Copy, Debug, PartialEq, Eq, Structural)]
pub struct GrepCounters {
    pub total_matches: usize,
    pub files_searched: usize,
    pub files_with_matches: usize,
    pub bytes_verified: usize,
    pub truncated: bool,
    pub engine_capped: bool,
    pub stop_scan: bool,
}

/// How far a search goes.
#[derive(Clone, Copy, Debug, PartialEq, Eq, Structural)]
pub struct GrepLimits {
    pub max_results: usize,
    /// Files are searched side by side: reaching the cap in one ends the search in all.
    pub side_by_side: bool,
}

pub open spec fn no_counts() -> GrepCounters {
    GrepCounters {
        total_matches: 0,
        files_searched: 0,
        files_with_matches: 0,
        bytes_verified: 0,
        truncated: false,
        engine_capped: false,
        stop_scan: false,
    }
}

impl GrepLimits {
    /// A truncated search goes on to twice the number of results.
    pub open spec fn stop_after(self) -> int {
        if 2 * self.max_results > usize::MAX {
            usize::MAX as int
        } else {
            2 * self.max_results
        }
    }

    pub fn stop_count(&self) -> (count: usize)
        ensures
            count == self.stop_after(),
    {
        if self.max_results > usize::MAX / 2 {
            usize::MAX
        } else {
            2 * self.max_results
        }
    }
}

/// The search was truncated and has come as far as it goes.
pub open spec fn search_exhausted(counters: GrepCounters, limits: GrepLimits) -> bool {
    counters.truncated && counters.total_matches >= limits.stop_after()
}

/// No further match is wanted.
pub open spec fn scan_exhausted(counters: GrepCounters, limits: GrepLimits) -> bool {
    (limits.side_by_side && counters.stop_scan) || search_exhausted(counters, limits)
}

impl GrepCounters {
    pub fn new() -> (counters: GrepCounters)
        ensures
            counters == no_counts(),
    {
        GrepCounters {
            total_matches: 0,
            files_searched: 0,
            files_with_matches: 0,
            bytes_verified: 0,
            truncated: false,
            engine_capped: false,
            stop_scan: false,
        }
    }

    pub fn should_stop_search(&self, limits: &GrepLimits) -> (stop: bool)
        ensures
            stop == search_exhausted(*self, *limits),
    {
        self.truncated && self.total_matches >= limits.stop_count()
    }

    pub fn grep_scan_should_stop(&self, limits: &GrepLimits) -> (stop: bool)
        ensures
            stop == scan_exhausted(*self, *limits),
    {
        (limits.side_by_side && self.stop_scan) || self.should_stop_search(limits)
    }
}

// ---------------------------------------------------------------------------------------------
// Where a pattern matches
// ---------------------------------------------------------------------------------------------

pub open spec fn lowercased(content: Seq<u8>) -> Seq<u8> {
    content.map_values(|byte: u8| lowercase(byte))
}

/// All places from `from` on at which `needle` stands, overlapping ones too.
pub open spec fn literal_ranges(haystack: Seq<u8>, needle: Seq<u8>, from: int) -> Seq<
    (usize, usize),
>
    decreases haystack.len() - from,
{
    if from < 0 || from >= haystack.len() {
        Seq::empty()
    } else {
        let rest = literal_ranges(haystack, needle, from + 1);
        if occurs_at(haystack, needle, from) {
            seq![(from as usize, (from + needle.len()) as usize)] + rest
        } else {
            rest
        }
    }
}

/// Where the pattern matches.
pub open spec fn places(pattern: CompiledPattern, content: Seq<u8>) -> Seq<(usize, usize)> {
    match pattern {
        CompiledPattern::Literal(literal) => literal_ranges(
            if literal.case_insensitive_ascii {
                lowercased(content)
            } else {
                content
            },
            literal.needle@,
            0,
        ),
        CompiledPattern::Regex { compiled, .. } => regex_ranges(
            regex_source(compiled).0,
            regex_source(compiled).1,
            content,
        ),
    }
}

/// Where the pattern matches in a file; nowhere in one that cannot be read.
pub open spec fn file_places(pattern: CompiledPattern, content: Option<Seq<u8>>) -> Seq<
    (usize, usize),
> {
    match content {
        Some(content) => places(pattern, content),
        None => Seq::empty(),
    }
}

/// The places come from left to right.
pub open spec fn starts_ascend(ranges: Seq<(usize, usize)>) -> bool {
    forall|i: int, j: int|
        0 <= i < j < ranges.len() ==> (#[trigger] ranges[i]).0 < (#[trigger] ranges[j]).0
}

pub open spec fn ranges_within(ranges: Seq<(usize, usize)>, len: nat) -> bool {
    forall|i: int|
        0 <= i < ranges.len() ==> (#[trigger] ranges[i]).0 <= ranges[i].1 && ranges[i].1 <= len
}

/// A pattern that can be looked for: a literal is not empty.
pub open spec fn searchable(pattern: CompiledPattern) -> bool {
    pattern matches CompiledPattern::Literal(literal) ==> literal.needle@.len() > 0
}

proof fn lemma_no_occurrence_between(haystack: Seq<u8>, needle: Seq<u8>, from: int, to: int)
    requires
        0 <= from <= to <= haystack.len(),
        forall|i: int| from <= i < to ==> !#[trigger] occurs_at(haystack, needle, i),
    ensures
        literal_ranges(haystack, needle, from) == literal_ranges(haystack, needle, to),
    decreases to - from,
{
    if from < to {
        assert(!occurs_at(haystack, needle, from));
        lemma_no_occurrence_between(haystack, needle, from + 1, to);
    }
}

fn find_literal(haystack: &[u8], needle: &Vec<u8>) -> (ranges: Vec<(usize, usize)>)
    requires
        needle@.len() > 0,
    ensures
        ranges@ == literal_ranges(haystack@, needle@, 0),
        ranges_within(ranges@, haystack@.len()),
        starts_ascend(ranges@),
{
    let mut ranges: Vec<(usize, usize)> = Vec::new();
    let mut start: usize = 0;
    let ghost all = literal_ranges(haystack@, needle@, 0);
    assert(haystack@.len() == haystack.len());
    assert(ranges@ + literal_ranges(haystack@, needle@, 0) =~= all);
    while start < haystack.len()
        invariant
            needle@.len() > 0,
            haystack@.len() <= usize::MAX,
            start <= haystack@.len(),
            all == literal_ranges(haystack@, needle@, 0),
            ranges@ + literal_ranges(haystack@, needle@, start as int) == all,
            ranges_within(ranges@, haystack@.len()),
            starts_ascend(ranges@),
            forall|i: int| 0 <= i < ranges@.len() ==> (#[trigger] ranges@[i]).0 < start,
        decreases haystack@.len() - start,
    {
        let rest = slice_subrange(haystack, start, haystack.len());
        let ghost tail = haystack@.subrange(start as int, haystack@.len() as int);
        proof {
            assert forall|i: int| start <= i implies #[trigger] occurs_at(haystack@, needle@, i)
                == occurs_at(tail, needle@, i - start) by {
                if i + needle@.len() <= haystack@.len() {
                    assert(tail.subrange(i - start, i - start + needle@.len())
                        =~= haystack@.subrange(i, i + needle@.len()));
                }
            }
        }
        match find_bytes(rest, needle.as_slice()) {
            Some(position) => {
                let offset: usize = start + position;
                proof {
                    assert forall|i: int| start <= i < offset implies !#[trigger] occurs_at(
                        haystack@,
                        needle@,
                        i,
                    ) by {
                        assert(!occurs_at(tail, needle@, i - start));
                    }
                    lemma_no_occurrence_between(haystack@, needle@, start as int, offset as int);
                    assert(occurs_at(haystack@, needle@, offset as int)) by {
                        assert(occurs_at(tail, needle@, offset - start));
                    }
                }
                let ghost before = ranges@;
                ranges.push((offset, offset + needle.len()));
                proof {
                    let later = literal_ranges(haystack@, needle@, offset + 1);
                    let here = seq![(offset, (offset + needle@.len()) as usize)];
                    assert(before + (here + later) =~= ranges@ + later);
                }
                start = offset + 1;
            },
            None => {
                proof {
                    assert forall|i: int|
                        start <= i < haystack@.len() implies !#[trigger] occurs_at(
                        haystack@,
                        needle@,
                        i,
                    ) by {
                        assert(!occurs_at(tail, needle@, i - start));
                    }
                    lemma_no_occurrence_between(
                        haystack@,
                        needle@,
                        start as int,
                        haystack@.len() as int,
                    );
                }
                start = haystack.len();
            },
        }
    }
    assert(ranges@ + Seq::<(usize, usize)>::empty() =~= ranges@);
    ranges
}

/// Where the pattern matches.
pub fn match_ranges(pattern: &CompiledPattern, content: &[u8]) -> (ranges: Vec<(usize, usize)>)
    requires
        searchable(*pattern),
    ensures
        ranges@ == places(*pattern, content@),
        ranges_within(ranges@, content@.len()),
        starts_ascend(ranges@),
{
    match pattern {
        CompiledPattern::Literal(literal) => {
            if literal.case_insensitive_ascii {
                let mut folded: Vec<u8> = Vec::with_capacity(content.len());
                let mut i: usize = 0;
                while i < content.len()
                    invariant
                        i <= content@.len(),
                        folded@ == lowercased(content@).take(i as int),
                    decreases content@.len() - i,
                {
                    folded.push(normalize_char(content[i]));
                    i += 1;
                    assert(folded@ =~= lowercased(content@).take(i as int));
                }
                assert(folded@ =~= lowercased(content@));
                find_literal(folded.as_slice(), &literal.needle)
            } else {
                find_literal(content, &literal.needle)
            }
        },
        CompiledPattern::Regex { compiled, .. } => find_regex(compiled, content),
    }
}

// ---------------------------------------------------------------------------------------------
// One file
// ---------------------------------------------------------------------------------------------

/// A file under way of being searched.
pub struct FileScan {
    pub counters: GrepCounters,
    /// The lines that have a match.
    pub lines: Set<u32>,
    pub matches: Seq<MatchView>,
    pub done: bool,
}

pub open spec fn match_at(file: PathKey, content: Seq<u8>, range: (usize, usize)) -> MatchView {
    MatchView {
        file,
        line: line_of(content, range.0 as int),
        column: column_of(content, range.0 as int),
        line_text: line_text_of(content, range.0 as int),
        match_text: lossy_chars(content.subrange(range.0 as int, range.1 as int)),
    }
}

/// One more place at which the pattern matches. Only the first match of a line counts. A match over
/// the limit is counted but not reported, and ends the search of this file.
pub open spec fn with_range(
    scan: FileScan,
    file: PathKey,
    content: Seq<u8>,
    range: (usize, usize),
    limits: GrepLimits,
) -> FileScan {
    let line = line_of(content, range.0 as int);
    let total = scan.counters.total_matches.wrapping_add(1);
    if scan.done {
        scan
    } else if scan_exhausted(scan.counters, limits) {
        FileScan {
            counters: GrepCounters { engine_capped: true, ..scan.counters },
            done: true,
            ..scan
        }
    } else if scan.lines.contains(line) {
        scan
    } else if total > limits.max_results {
        FileScan {
            counters: GrepCounters {
                total_matches: total,
                truncated: true,
                stop_scan: scan.counters.stop_scan || (limits.side_by_side && total
                    >= limits.stop_after()),
                ..scan.counters
            },
            lines: scan.lines.insert(line),
            done: true,
            ..scan
        }
    } else {
        FileScan {
            counters: GrepCounters { total_matches: total, ..scan.counters },
            lines: scan.lines.insert(line),
            matches: scan.matches.push(match_at(file, content, range)),
            ..scan
        }
    }
}

/// The first `count` places, one after the other.
pub open spec fn with_ranges(
    scan: FileScan,
    file: PathKey,
    content: Seq<u8>,
    ranges: Seq<(usize, usize)>,
    count: int,
    limits: GrepLimits,
) -> FileScan
    decreases count,
{
    if count <= 0 {
        scan
    } else {
        with_range(
            with_ranges(scan, file, content, ranges, count - 1, limits),
            file,
            content,
            ranges[count - 1],
            limits,
        )
    }
}

/// What the search of a file comes to: its matches, and the counters after it.
pub struct FileOutcome {
    pub counters: GrepCounters,
    pub matches: Seq<MatchView>,
}

/// The search of the text of a file that was found to match at `ranges`.
pub open spec fn text_scanned(
    counters: GrepCounters,
    file: PathKey,
    content: Seq<u8>,
    ranges: Seq<(usize, usize)>,
    limits: GrepLimits,
) -> FileOutcome {
    let scan = with_ranges(
        FileScan { counters, lines: Set::empty(), matches: Seq::empty(), done: false },
        file,
        content,
        ranges,
        ranges.len() as int,
        limits,
    );
    FileOutcome {
        counters: if scan.lines.is_empty() {
            scan.counters
        } else {
            GrepCounters {
                files_with_matches: scan.counters.files_with_matches.wrapping_add(1),
                ..scan.counters
            }
        },
        matches: scan.matches,
    }
}

/// The search of a file: nothing where no further match is wanted, where the file cannot be read or
/// where it is binary.
pub open spec fn file_scanned(
    counters: GrepCounters,
    file: PathKey,
    content: Option<Seq<u8>>,
    ranges: Seq<(usize, usize)>,
    limits: GrepLimits,
) -> FileOutcome {
    if scan_exhausted(counters, limits) {
        FileOutcome {
            counters: GrepCounters { engine_capped: true, ..counters },
            matches: Seq::empty(),
        }
    } else {
        match content {
            None => FileOutcome { counters, matches: Seq::empty() },
            Some(content) => {
                let read = GrepCounters {
                    bytes_verified: counters.bytes_verified.wrapping_add(content.len() as usize),
                    ..counters
                };
                if looks_binary(content) {
                    FileOutcome { counters: read, matches: Seq::empty() }
                } else {
                    text_scanned(
                        GrepCounters {
                            files_searched: read.files_searched.wrapping_add(1),
                            ..read
                        },
                        file,
                        content,
                        ranges,
                        limits,
                    )
                }
            },
        }
    }
}

/// Searches the text of a file that was found to match at `ranges`.
pub fn scan_text(
    counters: &mut GrepCounters,
    file: &SearchPath,
    content: &[u8],
    ranges: &Vec<(usize, usize)>,
    limits: &GrepLimits,
) -> (matches: Vec<GrepMatch>)
    requires
        ranges_within(ranges@, content@.len()),
    ensures
        ({
            let outcome = text_scanned(*old(counters), file@, content@, ranges@, *limits);
            &&& *final(counters) == outcome.counters
            &&& match_views(matches@) == outcome.matches
        }),
{
    broadcast use vstd::std_specs::hash::group_hash_axioms;

    let ghost start = FileScan {
        counters: *counters,
        lines: Set::empty(),
        matches: Seq::empty(),
        done: false,
    };
    let mut matches: Vec<GrepMatch> = Vec::new();
    let mut seen_lines: HashSet<u32> = HashSet::new();
    let mut line_starts: Vec<usize> = Vec::new();
    let mut done: bool = false;
    let mut i: usize = 0;
    if ranges.len() > 0 {
        line_starts = line_starts_bytes(content);
    }
    assert(match_views(matches@) =~= Seq::empty());
    while i < ranges.len() && !done
        invariant
            ranges_within(ranges@, content@.len()),
            start == (FileScan {
                counters: *old(counters),
                lines: Set::empty(),
                matches: Seq::empty(),
                done: false,
            }),
            i <= ranges@.len(),
            ranges@.len() > 0 ==> line_starts@ == all_line_starts(content@),
            with_ranges(start, file@, content@, ranges@, i as int, *limits) == (FileScan {
                counters: *counters,
                lines: seen_lines@,
                matches: match_views(matches@),
                done,
            }),
        decreases ranges@.len() - i,
    {
        let (from, to) = ranges[i];
        assert(ranges@[i as int].0 <= ranges@[i as int].1);
        if counters.grep_scan_should_stop(limits) {
            counters.engine_capped = true;
            done = true;
        } else {
            let (line, column, line_text) = line_details_bytes(content, &line_starts, from);
            if !seen_lines.contains(&line) {
                seen_lines.insert(line);
                counters.total_matches = counters.total_matches.wrapping_add(1);
                if counters.total_matches > limits.max_results {
                    counters.truncated = true;
                    if limits.side_by_side && counters.total_matches >= limits.stop_count() {
                        counters.stop_scan = true;
                    }
                    done = true;
                } else {
                    let matched = copy_range(content, from, to);
                    let ghost before = matches@;
                    let found = GrepMatch {
                        file: file.duplicate(),
                        line,
                        column,
                        line_text,
                        match_text: lossy_text(matched.as_slice()),
                    };
                    let ghost found_view = found@;
                    matches.push(found);
                    assert(match_views(matches@) =~= match_views(before).push(found_view));
                }
            }
        }
        i += 1;
    }
    proof {
        if done {
            lemma_done_stays(start, file@, content@, ranges@, i as int, ranges@.len() as int, *limits);
        }
    }
    if !seen_lines.is_empty() {
        counters.files_with_matches = counters.files_with_matches.wrapping_add(1);
    }
    matches
}

proof fn lemma_done_stays(
    start: FileScan,
    file: PathKey,
    content: Seq<u8>,
    ranges: Seq<(usize, usize)>,
    few: int,
    many: int,
    limits: GrepLimits,
)
    requires
        0 <= few <= many,
        with_ranges(start, file, content, ranges, few, limits).done,
    ensures
        with_ranges(start, file, content, ranges, many, limits) == with_ranges(
            start,
            file,
            content,
            ranges,
            few,
            limits,
        ),
    decreases many,
{
    if few < many {
        lemma_done_stays(start, file, content, ranges, few, many - 1, limits);
    }
}

/// Searches a file. `content` is what reading it gave.
pub fn search_candidate_file(
    counters: &mut GrepCounters,
    file: &SearchPath,
    content: &Option<Vec<u8>>,
    pattern: &CompiledPattern,
    limits: &GrepLimits,
) -> (matches: Vec<GrepMatch>)
    requires
        searchable(*pattern),
    ensures
        ({
            let outcome = file_scanned(
                *old(counters),
                file@,
                bytes_option(*content),
                file_places(*pattern, bytes_option(*content)),
                *limits,
            );
            &&& *final(counters) == outcome.counters
            &&& match_views(matches@) == outcome.matches
        }),
{
    let none: Vec<GrepMatch> = Vec::new();
    assert(match_views(none@) =~= Seq::<MatchView>::empty());
    if counters.grep_scan_should_stop(limits) {
        counters.engine_capped = true;
        return none;
    }
    let content = match content {
        Some(content) => content,
        None => {
            return none;
        },
    };
    counters.bytes_verified = counters.bytes_verified.wrapping_add(content.len());
    if is_binary_bytes(content.as_slice()) {
        return none;
    }
    counters.files_searched = counters.files_searched.wrapping_add(1);
    let ranges = match_ranges(pattern, content.as_slice());
    scan_text(counters, file, content.as_slice(), &ranges, limits)
}

} // verus!
