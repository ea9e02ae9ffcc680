//! Searches over one version of the index.

use crate::file_entry::Timestamp;
use crate::filters::build_path_filters;
use crate::filters::filters_follow;
use crate::filters::text_views;
use crate::filters::PathFilters;
use crate::grep::file_places;
use crate::grep::file_scanned;
use crate::grep::match_views;
use crate::grep::no_counts;
use crate::grep::scan_exhausted;
use crate::grep::search_candidate_file;
use crate::grep::search_exhausted;
use crate::grep::searchable;
use crate::grep::FileOutcome;
use crate::grep::GrepCounters;
use crate::grep::GrepLimits;
use crate::grep::GrepMatch;
use crate::grep::MatchView;
use crate::ingest::bytes_option;
use crate::ingest::path_views;
use crate::order::strictly_ascending;
use crate::path::is_within_search_root;
use crate::path::within_root;
use crate::path::PathKey;
use crate::path::SearchPath;
use crate::postings::PostingReads;
use crate::query::decompose_grep_pattern;
use crate::query::grep_pattern_runs;
use crate::query::CompiledPattern;
use crate::query::RegexQuery;
use crate::ranking::file_keys;
use crate::ranking::match_keys;
use crate::ranking::put_in_order;
use crate::ranking::sort_files_by_mtime_desc;
use crate::ranking::sort_grep_matches_by_mtime_desc;
use crate::snapshot::SearchIndexSnapshot;
use crate::snapshot::SnapshotView;
use std::collections::HashMap;
use vstd::prelude::*;

verus! {

/// What state the index was in when it was searched.
#[derive(Clone, Copy, Debug, PartialEq, Eq, Structural)]
pub enum IndexStatus {
    Ready,
    Building,
    Fallback,
    Disabled,
}

impl IndexStatus {
    pub fn as_str(&self) -> (text: &'static str)
        ensures
            text@ == (match *self {
                IndexStatus::Ready => "Ready"@,
                IndexStatus::Building => "Building"@,
                IndexStatus::Fallback => "Fallback"@,
                IndexStatus::Disabled => "Disabled"@,
            }),
    {
        match self {
            IndexStatus::Ready => "Ready",
            IndexStatus::Building => "Building",
            IndexStatus::Fallback => "Fallback",
            IndexStatus::Disabled => "Disabled",
        }
    }
}

/// What a search found.
#[derive(Clone, Debug)]
pub struct GrepResult {
    pub matches: Vec<GrepMatch>,
    pub total_matches: usize,
    pub files_searched: usize,
    pub files_with_matches: usize,
    pub index_status: IndexStatus,
    pub truncated: bool,
    pub fully_degraded: bool,
    pub engine_capped: bool,
    /// A walk over directories in place of the index ended early.
    pub walk_truncated: bool,
}

pub open spec fn status_of(ready: bool) -> IndexStatus {
    if ready {
        IndexStatus::Ready
    } else {
        IndexStatus::Building
    }
}

// ---------------------------------------------------------------------------------------------
// Which files are searched
// ---------------------------------------------------------------------------------------------

/// A file in use that lies below the root.
pub open spec fn in_scope(view: SnapshotView, root: PathKey, slot: int) -> bool {
    view.files[slot].path.len() > 0 && within_root(root, view.files[slot].path)
}

/// Those of the first `count` candidates that lie in scope, are not excluded and are accepted.
pub open spec fn selected(
    view: SnapshotView,
    ids: Seq<u32>,
    root: PathKey,
    excluded: Seq<bool>,
    accepted: Seq<bool>,
    count: int,
) -> Seq<u32>
    decreases count,
{
    if count <= 0 {
        Seq::empty()
    } else {
        let earlier = selected(view, ids, root, excluded, accepted, count - 1);
        let id = ids[count - 1];
        if id < view.files.len() && in_scope(view, root, id as int) && !excluded[count - 1]
            && accepted[count - 1] {
            earlier.push(id)
        } else {
            earlier
        }
    }
}

/// The path of a candidate.
pub open spec fn candidate_path(view: SnapshotView, id: u32) -> PathKey {
    if id < view.files.len() {
        view.files[id as int].path
    } else {
        Seq::empty()
    }
}

impl SearchIndexSnapshot {
    pub fn has_file_in_scope(&self, search_root: &SearchPath) -> (found: bool)
        ensures
            found == exists|slot: int|
                0 <= slot < self@.files.len() && #[trigger] in_scope(self@, search_root@, slot),
    {
        let mut slot: usize = 0;
        while slot < self.files.len()
            invariant
                slot <= self.files@.len(),
                forall|k: int| 0 <= k < slot ==> !#[trigger] in_scope(self@, search_root@, k),
            decreases self.files@.len() - slot,
        {
            let path = &self.files[slot].path;
            if !path.is_empty() && is_within_search_root(search_root, path) {
                assert(in_scope(self@, search_root@, slot as int));
                return true;
            }
            slot += 1;
        }
        false
    }

    /// The candidates that are searched: those that lie below the root and that neither the caller's
    /// rule nor the filters keep out.
    pub fn select_candidates(
        &self,
        ids: &Vec<u32>,
        search_root: &SearchPath,
        excluded: &Vec<bool>,
        accepted: &Vec<bool>,
    ) -> (kept: Vec<u32>)
        requires
            excluded@.len() == ids@.len(),
            accepted@.len() == ids@.len(),
        ensures
            kept@ == selected(
                self@,
                ids@,
                search_root@,
                excluded@,
                accepted@,
                ids@.len() as int,
            ),
    {
        let mut kept: Vec<u32> = Vec::new();
        let mut i: usize = 0;
        while i < ids.len()
            invariant
                excluded@.len() == ids@.len(),
                accepted@.len() == ids@.len(),
                i <= ids@.len(),
                kept@ == selected(
                    self@,
                    ids@,
                    search_root@,
                    excluded@,
                    accepted@,
                    i as int,
                ),
            decreases ids@.len() - i,
        {
            let id: u32 = ids[i];
            if (id as u64) < self.files.len() as u64 {
                let path = &self.files[id as usize].path;
                if !path.is_empty() && is_within_search_root(search_root, path) && !excluded[i]
                    && accepted[i] {
                    kept.push(id);
                }
            }
            i += 1;
        }
        kept
    }

    /// The paths of candidates.
    pub fn candidate_paths(&self, ids: &Vec<u32>) -> (paths: Vec<SearchPath>)
        ensures
            paths@.len() == ids@.len(),
            forall|i: int|
                0 <= i < ids@.len() ==> (#[trigger] paths@[i])@ == candidate_path(self@, ids@[i]),
    {
        let mut paths: Vec<SearchPath> = Vec::with_capacity(ids.len());
        let mut i: usize = 0;
        while i < ids.len()
            invariant
                i <= ids@.len(),
                paths@.len() == i,
                forall|k: int|
                    0 <= k < i ==> (#[trigger] paths@[k])@ == candidate_path(self@, ids@[k]),
            decreases ids@.len() - i,
        {
            let id: u32 = ids[i];
            if (id as u64) < self.files.len() as u64 {
                paths.push(self.files[id as usize].path.duplicate());
            } else {
                paths.push(SearchPath::new());
            }
            i += 1;
        }
        paths
    }
}

// ---------------------------------------------------------------------------------------------
// File by file
// ---------------------------------------------------------------------------------------------

/// A search under way.
pub struct GrepScan {
    pub counters: GrepCounters,
    pub limits: GrepLimits,
    /// At most so many files are opened.
    pub file_limit: Option<usize>,
    pub claims: usize,
    pub done: bool,
    pub matches: Vec<GrepMatch>,
}

/// The mathematical counterpart of a `GrepScan`.
pub struct ScanView {
    pub counters: GrepCounters,
    pub limits: GrepLimits,
    pub file_limit: Option<usize>,
    pub claims: usize,
    pub done: bool,
    pub matches: Seq<MatchView>,
}

impl View for GrepScan {
    type V = ScanView;

    open spec fn view(&self) -> ScanView {
        ScanView {
            counters: self.counters,
            limits: self.limits,
            file_limit: self.file_limit,
            claims: self.claims,
            done: self.done,
            matches: match_views(self.matches@),
        }
    }
}

/// A search that has not begun. More than ten files are searched side by side.
pub open spec fn fresh_scan(
    max_results: usize,
    candidate_count: int,
    file_limit: Option<usize>,
) -> ScanView {
    ScanView {
        counters: no_counts(),
        limits: GrepLimits { max_results, side_by_side: candidate_count > 10 },
        file_limit,
        claims: 0,
        done: false,
        matches: Seq::empty(),
    }
}

/// One more file may be opened.
pub open spec fn may_claim(scan: ScanView, over_budget: bool) -> bool {
    match scan.file_limit {
        None => true,
        Some(limit) => !over_budget && scan.claims < limit,
    }
}

/// The search asks whether to open the next file. Files over the limit are left out: the search is
/// then truncated, and ends.
pub open spec fn asked(scan: ScanView, over_budget: bool) -> (ScanView, bool) {
    if scan.done {
        (scan, false)
    } else if scan.limits.side_by_side && scan_exhausted(scan.counters, scan.limits) {
        (
            ScanView {
                counters: GrepCounters { engine_capped: true, ..scan.counters },
                ..scan
            },
            false,
        )
    } else {
        let claims = if scan.file_limit is Some && !over_budget {
            scan.claims.wrapping_add(1)
        } else {
            scan.claims
        };
        if may_claim(scan, over_budget) {
            (ScanView { claims, ..scan }, true)
        } else {
            (
                ScanView {
                    counters: GrepCounters {
                        truncated: true,
                        engine_capped: true,
                        stop_scan: scan.counters.stop_scan || scan.limits.side_by_side,
                        ..scan.counters
                    },
                    claims,
                    done: !scan.limits.side_by_side,
                    ..scan
                },
                false,
            )
        }
    }
}

/// The search takes in what a file came to.
pub open spec fn fed(scan: ScanView, outcome: FileOutcome) -> ScanView {
    let next = ScanView {
        counters: outcome.counters,
        matches: scan.matches + outcome.matches,
        ..scan
    };
    if !scan.limits.side_by_side && search_exhausted(outcome.counters, scan.limits) {
        ScanView {
            counters: GrepCounters { engine_capped: true, ..outcome.counters },
            done: true,
            ..next
        }
    } else {
        next
    }
}

impl GrepScan {
    pub fn new(max_results: usize, candidate_count: usize, file_limit: Option<usize>) -> (scan:
        GrepScan)
        ensures
            scan@ == fresh_scan(max_results, candidate_count as int, file_limit),
    {
        let scan = GrepScan {
            counters: GrepCounters::new(),
            limits: GrepLimits { max_results, side_by_side: candidate_count > 10 },
            file_limit,
            claims: 0,
            done: false,
            matches: Vec::new(),
        };
        assert(scan@.matches =~= Seq::empty());
        scan
    }

    /// Whether to open the next file. `over_budget` says that time is up.
    pub fn wants_next(&mut self, over_budget: bool) -> (wanted: bool)
        ensures
            (final(self)@, wanted) == asked(old(self)@, over_budget),
    {
        if self.done {
            return false;
        }
        if self.limits.side_by_side && self.counters.grep_scan_should_stop(&self.limits) {
            self.counters.engine_capped = true;
            return false;
        }
        let claimed: bool = match self.file_limit {
            None => true,
            Some(limit) => {
                if over_budget {
                    false
                } else {
                    let before: usize = self.claims;
                    self.claims = self.claims.wrapping_add(1);
                    before < limit
                }
            },
        };
        if claimed {
            return true;
        }
        self.counters.truncated = true;
        self.counters.engine_capped = true;
        if self.limits.side_by_side {
            self.counters.stop_scan = true;
        } else {
            self.done = true;
        }
        false
    }

    /// Searches a file. `content` is what reading it gave.
    pub fn feed(&mut self, file: &SearchPath, content: &Option<Vec<u8>>, pattern: &CompiledPattern)
        requires
            searchable(*pattern),
        ensures
            final(self)@ == fed(
                old(self)@,
                file_scanned(
                    old(self)@.counters,
                    file@,
                    bytes_option(*content),
                    file_places(*pattern, bytes_option(*content)),
                    old(self)@.limits,
                ),
            ),
    {
        let mut found = search_candidate_file(
            &mut self.counters,
            file,
            content,
            pattern,
            &self.limits,
        );
        let ghost views = match_views(found@);
        let ghost earlier = self.matches@;
        self.matches.append(&mut found);
        assert(match_views(self.matches@) =~= match_views(earlier) + views);
        if !self.limits.side_by_side && self.counters.should_stop_search(&self.limits) {
            self.counters.engine_capped = true;
            self.done = true;
        }
    }
}

/// The first `count` files, one after the other, each with where the pattern matches in it.
pub open spec fn ran(
    scan: ScanView,
    files: Seq<PathKey>,
    contents: Seq<Option<Seq<u8>>>,
    ranges: Seq<Seq<(usize, usize)>>,
    count: int,
) -> ScanView
    decreases count,
{
    if count <= 0 {
        scan
    } else {
        let (next, wanted) = asked(ran(scan, files, contents, ranges, count - 1), false);
        if wanted {
            fed(
                next,
                file_scanned(
                    next.counters,
                    files[count - 1],
                    contents[count - 1],
                    ranges[count - 1],
                    next.limits,
                ),
            )
        } else {
            next
        }
    }
}

/// The first `count` files as in `ran`, where time may run out: `late[i]` says that it is up when file
/// `i` comes.
pub open spec fn ran_in_time(
    scan: ScanView,
    files: Seq<PathKey>,
    contents: Seq<Option<Seq<u8>>>,
    ranges: Seq<Seq<(usize, usize)>>,
    late: Seq<bool>,
    count: int,
) -> ScanView
    decreases count,
{
    if count <= 0 {
        scan
    } else {
        let (next, wanted) = asked(
            ran_in_time(scan, files, contents, ranges, late, count - 1),
            late[count - 1],
        );
        if wanted {
            fed(
                next,
                file_scanned(
                    next.counters,
                    files[count - 1],
                    contents[count - 1],
                    ranges[count - 1],
                    next.limits,
                ),
            )
        } else {
            next
        }
    }
}

pub open spec fn content_views(contents: Seq<Option<Vec<u8>>>) -> Seq<Option<Seq<u8>>> {
    contents.map_values(|content: Option<Vec<u8>>| bytes_option(content))
}

/// Where the pattern matches in each of the files.
pub open spec fn all_places(pattern: CompiledPattern, contents: Seq<Option<Seq<u8>>>) -> Seq<
    Seq<(usize, usize)>,
> {
    contents.map_values(|content: Option<Seq<u8>>| file_places(pattern, content))
}

/// Searches files in their order. `contents` holds what reading each of them gave.
pub fn search_contents(
    scan: &mut GrepScan,
    files: &Vec<SearchPath>,
    contents: &Vec<Option<Vec<u8>>>,
    pattern: &CompiledPattern,
)
    requires
        searchable(*pattern),
        files@.len() == contents@.len(),
    ensures
        final(scan)@ == ran(
            old(scan)@,
            path_views(files@),
            content_views(contents@),
            all_places(*pattern, content_views(contents@)),
            files@.len() as int,
        ),
{
    let ghost paths = path_views(files@);
    let ghost views = content_views(contents@);
    let ghost ranges = all_places(*pattern, views);
    let ghost start = scan@;
    let mut i: usize = 0;
    while i < files.len()
        invariant
            searchable(*pattern),
            files@.len() == contents@.len(),
            paths == path_views(files@),
            views == content_views(contents@),
            ranges == all_places(*pattern, views),
            i <= files@.len(),
            scan@ == ran(start, paths, views, ranges, i as int),
        decreases files@.len() - i,
    {
        assert(views[i as int] == bytes_option(contents@[i as int]));
        assert(paths[i as int] == files@[i as int]@);
        assert(ranges[i as int] == file_places(*pattern, views[i as int]));
        if scan.wants_next(false) {
            scan.feed(&files[i], &contents[i], pattern);
        }
        i += 1;
    }
}

// ---------------------------------------------------------------------------------------------
// Results
// ---------------------------------------------------------------------------------------------

/// The time that the index knows of a path.
pub open spec fn known_time(view: SnapshotView, path: PathKey) -> Option<Timestamp> {
    if view.ids.contains_key(path) && view.ids[path] < view.files.len() {
        Some(view.files[view.ids[path] as int].modified)
    } else {
        None
    }
}

pub open spec fn known_times(view: SnapshotView, matches: Seq<MatchView>) -> Seq<
    Option<Timestamp>,
> {
    Seq::new(matches.len(), |i: int| known_time(view, matches[i].file))
}

impl GrepResult {
    /// The result of a search that ended as `scan`: its matches in order, and its counts.
    pub open spec fn reports(&self, view: SnapshotView, scan: ScanView, fully_degraded: bool) -> bool {
        &&& put_in_order(
            scan.matches,
            match_views(self.matches@),
            match_keys(view.project_root, scan.matches, known_times(view, scan.matches)),
        )
        &&& self.total_matches == scan.counters.total_matches
        &&& self.files_searched == scan.counters.files_searched
        &&& self.files_with_matches == scan.counters.files_with_matches
        &&& self.index_status == status_of(view.ready)
        &&& self.truncated == scan.counters.truncated
        &&& self.fully_degraded == fully_degraded
        &&& self.engine_capped == scan.counters.engine_capped
        &&& !self.walk_truncated
    }

    /// Nothing was found, and nothing was looked at.
    pub open spec fn is_blank(&self, ready: bool) -> bool {
        &&& self.matches@.len() == 0
        &&& self.total_matches == 0
        &&& self.files_searched == 0
        &&& self.files_with_matches == 0
        &&& self.index_status == status_of(ready)
        &&& !self.truncated
        &&& !self.fully_degraded
        &&& !self.engine_capped
        &&& !self.walk_truncated
    }
}

impl SearchIndexSnapshot {
    fn index_status(&self) -> (status: IndexStatus)
        ensures
            status == status_of(self.ready),
    {
        if self.ready {
            IndexStatus::Ready
        } else {
            IndexStatus::Building
        }
    }

    /// The result of a search that has ended.
    pub fn finish_grep(&self, scan: &GrepScan, fully_degraded: bool) -> (result: GrepResult)
        requires
            self.well_formed(),
        ensures
            result.reports(self@, scan@, fully_degraded),
    {
        let mut mtimes: Vec<Option<Timestamp>> = Vec::with_capacity(scan.matches.len());
        let mut i: usize = 0;
        while i < scan.matches.len()
            invariant
                self.well_formed(),
                i <= scan.matches@.len(),
                mtimes@.len() == i,
                forall|k: int|
                    0 <= k < i ==> #[trigger] mtimes@[k] == known_time(
                        self@,
                        scan.matches@[k].file@,
                    ),
            decreases scan.matches@.len() - i,
        {
            let mtime: Option<Timestamp> = match self.path_to_id.get(&scan.matches[i].file) {
                Some(id) => Some(self.files[id as usize].modified),
                None => None,
            };
            mtimes.push(mtime);
            i += 1;
        }
        let matches = sort_grep_matches_by_mtime_desc(
            &scan.matches,
            &self.project_root,
            &mtimes,
        );
        proof {
            let views = match_views(scan.matches@);
            assert(mtimes@ =~= known_times(self@, views));
        }
        let result = GrepResult {
            matches,
            total_matches: scan.counters.total_matches,
            files_searched: scan.counters.files_searched,
            files_with_matches: scan.counters.files_with_matches,
            index_status: self.index_status(),
            truncated: scan.counters.truncated,
            fully_degraded,
            engine_capped: scan.counters.engine_capped,
            walk_truncated: false,
        };
        result
    }

    /// The result of a search for something that is no pattern.
    pub fn empty_grep_result(&self) -> (result: GrepResult)
        ensures
            result.is_blank(self.ready),
    {
        GrepResult {
            matches: Vec::new(),
            total_matches: 0,
            files_searched: 0,
            files_with_matches: 0,
            index_status: self.index_status(),
            truncated: false,
            fully_degraded: false,
            engine_capped: false,
            walk_truncated: false,
        }
    }

    /// The files that a search for `query` opens, in ascending order of their ids. `excluded` says of
    /// the first slots of the file table whether they are left out.
    pub fn grep_candidates(
        &self,
        query: &RegexQuery,
        reads: &PostingReads,
        filters: &PathFilters,
        search_root: &SearchPath,
        excluded: &Vec<bool>,
    ) -> (kept: Vec<u32>)
        requires
            self.well_formed(),
        ensures
            searches(self@, *query, *reads, *filters, search_root@, excluded@, kept@),
    {
        let ids = self.candidates(query, reads);
        let paths = self.candidate_paths(&ids);
        let accepted = filters.match_all(&self.project_root, &paths);
        let mut left_out: Vec<bool> = Vec::with_capacity(ids.len());
        while left_out.len() < ids.len()
            invariant
                left_out@.len() <= ids@.len(),
                forall|i: int|
                    0 <= i < left_out@.len() ==> #[trigger] left_out@[i] == slot_excluded(
                        excluded@,
                        ids@[i],
                    ),
            decreases ids@.len() - left_out@.len(),
        {
            let slot: usize = ids[left_out.len()] as usize;
            left_out.push(slot < excluded.len() && excluded[slot]);
        }
        proof {
            assert forall|i: int| 0 <= i < ids@.len() implies #[trigger] accepted@[i]
                == filters.accepts(
                self@.project_root,
                candidate_path(self@, ids@[i]),
            ) by {
                assert(paths@[i]@ == candidate_path(self@, ids@[i]));
            }
        }
        let kept = self.select_candidates(&ids, search_root, &left_out, &accepted);
        assert(search_of(
            self@,
            *query,
            *reads,
            *filters,
            search_root@,
            excluded@,
            kept@,
            ids@,
            left_out@,
            accepted@,
        ));
        kept
    }

    /// Searches the files of the index for a pattern. `contents` holds what the files hold; a file
    /// without an entry cannot be read.
    pub fn search_grep(
        &self,
        pattern: &CompiledPattern,
        reads: &PostingReads,
        filters: &PathFilters,
        search_root: &SearchPath,
        max_results: usize,
        contents: &HashMap<u32, Vec<u8>>,
    ) -> (result: GrepResult)
        requires
            self.well_formed(),
            searchable(*pattern),
        ensures
            grep_finds(
                self@,
                *pattern,
                *reads,
                *filters,
                search_root@,
                Seq::empty(),
                max_results,
                contents@,
                result,
            ),
    {
        let excluded: Vec<bool> = Vec::new();
        assert(excluded@ =~= Seq::empty());
        self.search_grep_excluding(
            pattern,
            reads,
            filters,
            search_root,
            &excluded,
            max_results,
            contents,
        )
    }

    /// Searches the files of the index for a pattern, without the slots of the file table that are
    /// excluded.
    pub fn search_grep_excluding(
        &self,
        pattern: &CompiledPattern,
        reads: &PostingReads,
        filters: &PathFilters,
        search_root: &SearchPath,
        excluded: &Vec<bool>,
        max_results: usize,
        contents: &HashMap<u32, Vec<u8>>,
    ) -> (result: GrepResult)
        requires
            self.well_formed(),
            searchable(*pattern),
        ensures
            grep_finds(
                self@,
                *pattern,
                *reads,
                *filters,
                search_root@,
                excluded@,
                max_results,
                contents@,
                result,
            ),
    {
        broadcast use vstd::std_specs::hash::group_hash_axioms;

        let query = decompose_grep_pattern(pattern);
        let fully_degraded: bool = query.and_trigrams.len() == 0 && query.or_groups.len() == 0;
        let kept = self.grep_candidates(&query, reads, filters, search_root, excluded);
        assert(searches(self@, query, *reads, *filters, search_root@, excluded@, kept@));
        let files = self.candidate_paths(&kept);
        let mut read: Vec<Option<Vec<u8>>> = Vec::with_capacity(kept.len());
        let mut i: usize = 0;
        while i < kept.len()
            invariant
                i <= kept@.len(),
                read@.len() == i,
                forall|k: int|
                    0 <= k < i ==> bytes_option(#[trigger] read@[k]) == content_of(
                        contents@,
                        kept@[k],
                    ),
            decreases kept@.len() - i,
        {
            let id: u32 = kept[i];
            let content: Option<Vec<u8>> = match contents.get(&id) {
                Some(bytes) => Some(crate::path::copy_bytes(bytes)),
                None => None,
            };
            read.push(content);
            i += 1;
        }
        let mut scan = GrepScan::new(max_results, kept.len(), None);
        search_contents(&mut scan, &files, &read, pattern);
        proof {
            assert(path_views(files@) =~= paths_of(self@, kept@));
            assert(content_views(read@) =~= contents_of(contents@, kept@));
            assert(scan@ == scanned(self@, *pattern, kept@, contents@, max_results));
            assert(query.asks_for(grep_pattern_runs(*pattern)));
        }
        self.finish_grep(&scan, fully_degraded)
    }

    /// Searches for what a pattern was compiled to; what is no pattern is found nowhere.
    pub fn grep(
        &self,
        compiled: Option<&CompiledPattern>,
        reads: &PostingReads,
        filters: &PathFilters,
        search_root: &SearchPath,
        max_results: usize,
        contents: &HashMap<u32, Vec<u8>>,
    ) -> (result: GrepResult)
        requires
            self.well_formed(),
            compiled matches Some(pattern) ==> searchable(*pattern),
        ensures
            compiled is None ==> result.is_blank(self.ready),
            compiled matches Some(pattern) ==> grep_finds(
                self@,
                *pattern,
                *reads,
                *filters,
                search_root@,
                Seq::empty(),
                max_results,
                contents@,
                result,
            ),
    {
        match compiled {
            Some(pattern) => self.search_grep(
                pattern,
                reads,
                filters,
                search_root,
                max_results,
                contents,
            ),
            None => self.empty_grep_result(),
        }
    }
}

pub open spec fn content_of(contents: Map<u32, Vec<u8>>, id: u32) -> Option<Seq<u8>> {
    if contents.contains_key(id) {
        Some(contents[id]@)
    } else {
        None
    }
}

pub open spec fn contents_of(contents: Map<u32, Vec<u8>>, kept: Seq<u32>) -> Seq<
    Option<Seq<u8>>,
> {
    Seq::new(kept.len(), |i: int| content_of(contents, kept[i]))
}

pub open spec fn paths_of(view: SnapshotView, kept: Seq<u32>) -> Seq<PathKey> {
    Seq::new(kept.len(), |i: int| candidate_path(view, kept[i]))
}

/// How a search of the files `kept` ends.
pub open spec fn scanned(
    view: SnapshotView,
    pattern: CompiledPattern,
    kept: Seq<u32>,
    contents: Map<u32, Vec<u8>>,
    max_results: usize,
) -> ScanView {
    ran(
        fresh_scan(max_results, kept.len() as int, None),
        paths_of(view, kept),
        contents_of(contents, kept),
        all_places(pattern, contents_of(contents, kept)),
        kept.len() as int,
    )
}

/// `result` is what a search for a pattern finds: the candidates of its query that lie below the root,
/// are not excluded and pass the filters are searched one after the other, and the matches put in
/// order. `excluded` says of the first slots of the file table whether they are.
pub open spec fn grep_finds(
    view: SnapshotView,
    pattern: CompiledPattern,
    reads: PostingReads,
    filters: PathFilters,
    search_root: PathKey,
    excluded: Seq<bool>,
    max_results: usize,
    contents: Map<u32, Vec<u8>>,
    result: GrepResult,
) -> bool {
    exists|query: RegexQuery, kept: Seq<u32>|
        {
            &&& query.asks_for(grep_pattern_runs(pattern))
            &&& #[trigger] searches(view, query, reads, filters, search_root, excluded, kept)
            &&& result.reports(
                view,
                scanned(view, pattern, kept, contents, max_results),
                query.is_unrestricted(),
            )
        }
}

/// The slot is one that is left out.
pub open spec fn slot_excluded(excluded: Seq<bool>, id: u32) -> bool {
    id < excluded.len() && excluded[id as int]
}

/// `kept` are the candidates of the query that lie below the root and that the filters let pass.
pub open spec fn searches(
    view: SnapshotView,
    query: RegexQuery,
    reads: PostingReads,
    filters: PathFilters,
    search_root: PathKey,
    excluded: Seq<bool>,
    kept: Seq<u32>,
) -> bool {
    exists|ids: Seq<u32>, left_out: Seq<bool>, accepted: Seq<bool>| #[trigger]
        search_of(view, query, reads, filters, search_root, excluded, kept, ids, left_out, accepted)
}

/// `ids` are the candidates of the query, the flags say of each whether it is left out and whether the
/// filters let it pass, and `kept` are those that remain.
pub open spec fn search_of(
    view: SnapshotView,
    query: RegexQuery,
    reads: PostingReads,
    filters: PathFilters,
    search_root: PathKey,
    excluded: Seq<bool>,
    kept: Seq<u32>,
    ids: Seq<u32>,
    left_out: Seq<bool>,
    accepted: Seq<bool>,
) -> bool {
    &&& strictly_ascending(ids)
    &&& forall|id: u32| #[trigger] ids.contains(id) <==> view.is_candidate(reads, query, id)
    &&& left_out.len() == ids.len()
    &&& forall|i: int|
        0 <= i < ids.len() ==> #[trigger] left_out[i] == slot_excluded(excluded, ids[i])
    &&& accepted.len() == ids.len()
    &&& forall|i: int|
        0 <= i < ids.len() ==> #[trigger] accepted[i] == filters.accepts(
            view.project_root,
            candidate_path(view, ids[i]),
        )
    &&& kept == selected(view, ids, search_root, left_out, accepted, ids.len() as int)
}

// ---------------------------------------------------------------------------------------------
// Globs
// ---------------------------------------------------------------------------------------------

/// The slots among the first `count` that lie in scope and are accepted.
pub open spec fn glob_slots(
    view: SnapshotView,
    root: PathKey,
    accepted: Seq<bool>,
    count: int,
) -> Seq<int>
    decreases count,
{
    if count <= 0 {
        Seq::empty()
    } else {
        let earlier = glob_slots(view, root, accepted, count - 1);
        if in_scope(view, root, count - 1) && accepted[count - 1] {
            earlier.push(count - 1)
        } else {
            earlier
        }
    }
}

pub open spec fn slot_paths(view: SnapshotView, slots: Seq<int>) -> Seq<PathKey> {
    slots.map_values(|slot: int| view.files[slot].path)
}

pub open spec fn slot_times(view: SnapshotView, slots: Seq<int>) -> Seq<Timestamp> {
    slots.map_values(|slot: int| view.files[slot].modified)
}

/// What a glob finds: the paths, whether the scope holds any file, and how many files were looked at.
pub struct GlobResult {
    pub paths: Vec<SearchPath>,
    pub scope_has_files: bool,
    pub entries_visited: usize,
}

impl GlobResult {
    /// The accepted files in scope, newest first where asked.
    pub open spec fn lists(
        &self,
        view: SnapshotView,
        root: PathKey,
        accepted: Seq<bool>,
        sort_by_mtime: bool,
    ) -> bool {
        let slots = glob_slots(view, root, accepted, view.files.len() as int);
        let paths = slot_paths(view, slots);
        &&& if sort_by_mtime {
            put_in_order(
                paths,
                path_views(self.paths@),
                file_keys(paths, slot_times(view, slots)),
            )
        } else {
            path_views(self.paths@) == paths
        }
        &&& self.scope_has_files == exists|slot: int|
            0 <= slot < view.files.len() && #[trigger] in_scope(view, root, slot)
        &&& self.entries_visited == view.files.len()
    }
}

impl SearchIndexSnapshot {
    /// The paths of all files.
    fn file_paths(&self) -> (paths: Vec<SearchPath>)
        ensures
            paths@.len() == self@.files.len(),
            forall|i: int|
                0 <= i < paths@.len() ==> (#[trigger] paths@[i])@ == self@.files[i].path,
    {
        let mut paths: Vec<SearchPath> = Vec::with_capacity(self.files.len());
        let mut i: usize = 0;
        while i < self.files.len()
            invariant
                i <= self.files@.len(),
                paths@.len() == i,
                forall|k: int| 0 <= k < i ==> (#[trigger] paths@[k])@ == self@.files[k].path,
            decreases self.files@.len() - i,
        {
            paths.push(self.files[i].path.duplicate());
            i += 1;
        }
        paths
    }

    /// The files in scope that were accepted.
    pub fn glob_accepted(
        &self,
        search_root: &SearchPath,
        accepted: &Vec<bool>,
        sort_by_mtime: bool,
    ) -> (result: GlobResult)
        requires
            accepted@.len() == self@.files.len(),
        ensures
            result.lists(self@, search_root@, accepted@, sort_by_mtime),
    {
        let ghost view = self@;
        let mut paths: Vec<SearchPath> = Vec::new();
        let mut times: Vec<Timestamp> = Vec::new();
        let mut slot: usize = 0;
        proof {
            assert(path_views(paths@) =~= slot_paths(view, Seq::empty()));
            assert(times@ =~= slot_times(view, Seq::empty()));
        }
        while slot < self.files.len()
            invariant
                view == self@,
                accepted@.len() == view.files.len(),
                slot <= self.files@.len(),
                path_views(paths@) == slot_paths(
                    view,
                    glob_slots(view, search_root@, accepted@, slot as int),
                ),
                times@ == slot_times(
                    view,
                    glob_slots(view, search_root@, accepted@, slot as int),
                ),
            decreases self.files@.len() - slot,
        {
            let file = &self.files[slot];
            let ghost earlier = glob_slots(view, search_root@, accepted@, slot as int);
            if !file.path.is_empty() && is_within_search_root(search_root, &file.path)
                && accepted[slot] {
                let ghost before = paths@;
                paths.push(file.path.duplicate());
                times.push(file.modified);
                proof {
                    let next = earlier.push(slot as int);
                    assert(path_views(paths@) =~= path_views(before).push(
                        view.files[slot as int].path,
                    ));
                    assert(slot_paths(view, next) =~= slot_paths(view, earlier).push(
                        view.files[slot as int].path,
                    ));
                    assert(slot_times(view, next) =~= slot_times(view, earlier).push(
                        view.files[slot as int].modified,
                    ));
                }
            }
            slot += 1;
        }
        let scope_has_files: bool = self.has_file_in_scope(search_root);
        proof {
            let slots = glob_slots(view, search_root@, accepted@, slot as int);
            assert(path_views(paths@).len() == slot_paths(view, slots).len());
        }
        let paths = if sort_by_mtime {
            sort_files_by_mtime_desc(&paths, &times)
        } else {
            paths
        };
        GlobResult { paths, scope_has_files, entries_visited: self.files.len() }
    }

    /// The files in scope that the filters let pass.
    pub fn glob_with(&self, filters: &PathFilters, search_root: &SearchPath, sort_by_mtime: bool) -> (
        result: GlobResult)
        ensures
            globs_with(self@, *filters, search_root@, sort_by_mtime, result),
    {
        let paths = self.file_paths();
        let accepted = filters.match_all(&self.project_root, &paths);
        proof {
            assert(glob_flags(self@, *filters, accepted@)) by {
                assert forall|i: int| 0 <= i < accepted@.len() implies #[trigger] accepted@[i]
                    == filters.accepts(self@.project_root, self@.files[i].path) by {
                    assert(paths@[i]@ == self@.files[i].path);
                }
            }
        }
        self.glob_accepted(search_root, &accepted, sort_by_mtime)
    }

    /// The files in scope that a glob matches. What is no glob is matched nowhere.
    pub fn glob_profiled(&self, pattern: &String, search_root: &SearchPath, sort_by_mtime: bool) -> (
        result: GlobResult)
        ensures
            globs(self@, pattern@, search_root@, sort_by_mtime, result),
    {
        let mut including: Vec<String> = Vec::new();
        including.push(pattern.clone());
        let excluding: Vec<String> = Vec::new();
        proof {
            assert(text_views(including@) =~= seq![pattern@]);
            assert(text_views(excluding@) =~= Seq::<Seq<char>>::empty());
        }
        let built = build_path_filters(&including, &excluding);
        assert(filters_follow(seq![pattern@], Seq::empty(), built));
        match &built {
            Ok(filters) => self.glob_with(filters, search_root, sort_by_mtime),
            Err(_) => GlobResult {
                paths: Vec::new(),
                scope_has_files: false,
                entries_visited: 0,
            },
        }
    }

    /// The files in scope that a glob matches, newest first.
    pub fn glob(&self, pattern: &String, search_root: &SearchPath) -> (paths: Vec<SearchPath>)
        ensures
            exists|result: GlobResult| #[trigger]
                globs(self@, pattern@, search_root@, true, result) && result.paths == paths,
    {
        let result = self.glob_profiled(pattern, search_root, true);
        result.paths
    }
}

/// `accepted` says of each file whether the filters let it pass.
pub open spec fn glob_flags(view: SnapshotView, filters: PathFilters, accepted: Seq<bool>) -> bool {
    &&& accepted.len() == view.files.len()
    &&& forall|i: int|
        0 <= i < accepted.len() ==> #[trigger] accepted[i] == filters.accepts(
            view.project_root,
            view.files[i].path,
        )
}

/// `result` lists the files in scope that the filters let pass.
pub open spec fn globs_with(
    view: SnapshotView,
    filters: PathFilters,
    search_root: PathKey,
    sort_by_mtime: bool,
    result: GlobResult,
) -> bool {
    exists|accepted: Seq<bool>| #[trigger]
        glob_flags(view, filters, accepted) && result.lists(
            view,
            search_root,
            accepted,
            sort_by_mtime,
        )
}

/// `result` is what becomes of a glob: the files in scope that it matches, or nothing where it cannot
/// be used.
pub open spec fn globs(
    view: SnapshotView,
    pattern: Seq<char>,
    search_root: PathKey,
    sort_by_mtime: bool,
    result: GlobResult,
) -> bool {
    exists|built: Result<PathFilters, String>| #[trigger]
        filters_follow(seq![pattern], Seq::empty(), built) && match built {
            Ok(filters) => globs_with(view, filters, search_root, sort_by_mtime, result),
            Err(_) => result.paths@.len() == 0 && !result.scope_has_files && result.entries_visited
                == 0,
        }
}

} // verus!
