//! One version of the index, as queries see it.

use crate::file_entry::file_views;
use crate::file_entry::FileEntry;
use crate::file_entry::FileView;
use crate::order::intersect_sorted_ids;
use crate::order::sort_and_dedup;
use crate::order::sorting_order;
use crate::order::strictly_ascending;
use crate::order::union_sorted_ids;
use crate::path::PathKey;
use crate::path::SearchPath;
use crate::path_table::PathTable;
use crate::postings::base_view;
use crate::postings::entry_for;
use crate::postings::passes_filter;
use crate::postings::posting_matches_filter;
use crate::postings::BasePostings;
use crate::postings::LookupEntry;
use crate::postings::Posting;
use crate::postings::PostingReads;
use crate::query::RegexQuery;
use crate::trigram::PostingFilter;
use std::collections::HashMap;
use std::collections::HashSet;
use vstd::prelude::*;
use vstd::std_specs::iter::IteratorSpec;

verus! {

/// Changes since the cache file was written. Postings and superseded files belong to one version:
/// mixing versions can hide both an old posting and its replacement.
pub struct DeltaState {
    pub postings: HashMap<u32, Vec<Posting>>,
    /// Files of the cache file whose postings there no longer count.
    pub superseded: HashSet<u32>,
}

/// One version of the index.
pub struct SearchIndexSnapshot {
    pub base: Option<BasePostings>,
    pub delta: DeltaState,
    pub files: Vec<FileEntry>,
    pub path_to_id: PathTable,
    pub ready: bool,
    pub project_root: SearchPath,
    pub file_trigram_count: Vec<u32>,
    /// Files that are searched although they have no postings.
    pub unindexed_files: HashSet<u32>,
}

/// The mathematical counterpart of a `SearchIndexSnapshot`.
pub struct SnapshotView {
    pub base: Option<(u64, u64, Seq<LookupEntry>)>,
    pub postings: Map<u32, Seq<Posting>>,
    pub superseded: Set<u32>,
    pub files: Seq<FileView>,
    pub ids: Map<PathKey, u32>,
    pub ready: bool,
    pub project_root: PathKey,
    pub file_trigram_count: Seq<u32>,
    pub unindexed: Set<u32>,
}

/// Posting lists by trigram.
pub open spec fn list_views(postings: Map<u32, Vec<Posting>>) -> Map<u32, Seq<Posting>> {
    postings.map_values(|list: Vec<Posting>| list@)
}

impl View for SearchIndexSnapshot {
    type V = SnapshotView;

    open spec fn view(&self) -> SnapshotView {
        SnapshotView {
            base: base_view(self.base),
            postings: list_views(self.delta.postings@),
            superseded: self.delta.superseded@,
            files: file_views(self.files@),
            ids: self.path_to_id@,
            ready: self.ready,
            project_root: self.project_root@,
            file_trigram_count: self.file_trigram_count@,
            unindexed: self.unindexed_files@,
        }
    }
}

impl DeltaState {
    /// The postings of `trigram` since the cache file was written.
    pub open spec fn list(&self, trigram: u32) -> Seq<Posting> {
        if self.postings@.contains_key(trigram) {
            self.postings@[trigram]@
        } else {
            Seq::empty()
        }
    }
}

/// A posting of the list speaks for `file_id` and passes `filter`.
pub open spec fn list_matches(
    postings: Seq<Posting>,
    filter: Option<PostingFilter>,
    file_id: u32,
) -> bool {
    exists|i: int|
        0 <= i < postings.len() && (#[trigger] postings[i]).file_id == file_id && passes_filter(
            postings[i],
            filter,
        )
}

/// The filter that a query sets for a trigram.
pub open spec fn filter_for(filters: Map<u32, PostingFilter>, trigram: u32) -> Option<
    PostingFilter,
> {
    if filters.contains_key(trigram) {
        Some(filters[trigram])
    } else {
        None
    }
}

/// The filter that a query sets for a trigram of a group.
pub open spec fn group_filter(query: RegexQuery, group: int, trigram: u32) -> Option<
    PostingFilter,
> {
    if group < query.or_filters@.len() {
        filter_for(query.or_filters@[group]@, trigram)
    } else {
        None
    }
}

impl SnapshotView {
    /// The postings of `trigram` since the cache file was written.
    pub open spec fn list(self, trigram: u32) -> Seq<Posting> {
        if self.postings.contains_key(trigram) {
            self.postings[trigram]
        } else {
            Seq::empty()
        }
    }

    /// The file counts in searches: its slot is in use and not replaced.
    pub open spec fn active(self, file_id: u32) -> bool {
        &&& !self.superseded.contains(file_id)
        &&& file_id < self.files.len()
        &&& self.files[file_id as int].path.len() > 0
    }

    /// Some path leads to the file.
    pub open spec fn listed(self, file_id: u32) -> bool {
        exists|path: PathKey| #[trigger]
            self.ids.contains_key(path) && self.ids[path] == file_id
    }

    /// Every file that counts in searches has a path that leads to it.
    pub open spec fn all_listed(self) -> bool {
        forall|id: u32| #[trigger] self.active(id) ==> self.listed(id)
    }

    /// An active file has a posting of `trigram` that passes `filter`.
    pub open spec fn has_posting(
        self,
        reads: PostingReads,
        trigram: u32,
        filter: Option<PostingFilter>,
        file_id: u32,
    ) -> bool {
        self.active(file_id) && (list_matches(
            reads.base_list(self.base, trigram),
            filter,
            file_id,
        ) || list_matches(self.list(trigram), filter, file_id))
    }

    /// The file has all trigrams that the query wants of every match.
    pub open spec fn has_all(self, reads: PostingReads, query: RegexQuery, file_id: u32) -> bool {
        forall|i: int|
            0 <= i < query.and_trigrams@.len() ==> self.has_posting(
                reads,
                #[trigger] query.and_trigrams@[i],
                filter_for(query.and_filters@, query.and_trigrams@[i]),
                file_id,
            )
    }

    /// The file has one of the trigrams of group `group`.
    pub open spec fn has_one_of(
        self,
        reads: PostingReads,
        query: RegexQuery,
        group: int,
        file_id: u32,
    ) -> bool {
        exists|i: int|
            0 <= i < query.or_groups@[group]@.len() && self.has_posting(
                reads,
                #[trigger] query.or_groups@[group]@[i],
                group_filter(query, group, query.or_groups@[group]@[i]),
                file_id,
            )
    }

    /// The file may hold a match of the query.
    pub open spec fn is_candidate(
        self,
        reads: PostingReads,
        query: RegexQuery,
        file_id: u32,
    ) -> bool {
        if query.is_unrestricted() {
            self.active(file_id) && self.listed(file_id)
        } else {
            ||| {
                &&& if query.and_trigrams@.len() == 0 {
                    self.active(file_id) && self.listed(file_id)
                } else {
                    self.has_all(reads, query, file_id)
                }
                &&& forall|group: int|
                    0 <= group < query.or_groups@.len() ==> #[trigger] self.has_one_of(
                        reads,
                        query,
                        group,
                        file_id,
                    )
            }
            ||| self.active(file_id) && self.unindexed.contains(file_id)
        }
    }

    /// How many postings the trigram has, on disk and since.
    pub open spec fn posting_total(self, trigram: u32) -> int {
        let base_count = match self.base {
            Some(base) => match entry_for(base.2, trigram) {
                Some(entry) => entry.count as int,
                None => 0,
            },
            None => 0,
        };
        let total = base_count + self.list(trigram).len();
        if total > usize::MAX {
            usize::MAX as int
        } else {
            total
        }
    }

    /// The file has the first `count` of `trigrams`.
    spec fn has_first(
        self,
        reads: PostingReads,
        query: RegexQuery,
        trigrams: Seq<u32>,
        count: int,
        file_id: u32,
    ) -> bool {
        forall|k: int|
            0 <= k < count ==> self.has_posting(
                reads,
                #[trigger] trigrams[k],
                filter_for(query.and_filters@, trigrams[k]),
                file_id,
            )
    }

    /// The file has one of the first `count` trigrams of a group.
    spec fn has_one_among(
        self,
        reads: PostingReads,
        query: RegexQuery,
        group: int,
        count: int,
        file_id: u32,
    ) -> bool {
        exists|i: int|
            0 <= i < count && self.has_posting(
                reads,
                #[trigger] query.or_groups@[group]@[i],
                group_filter(query, group, query.or_groups@[group]@[i]),
                file_id,
            )
    }
}

impl SearchIndexSnapshot {
    /// The path table names slots that hold the named paths and that were not replaced.
    pub open spec fn well_formed(&self) -> bool {
        &&& self.path_to_id.well_formed()
        &&& self.base matches Some(base) ==> base.well_formed()
        &&& self.files@.len() <= u32::MAX + 1
        &&& forall|path: PathKey| #[trigger]
            self.path_to_id@.contains_key(path) ==> self.path_to_id@[path] < self.files@.len()
                && self.files@[self.path_to_id@[path] as int].path@ == path
                && !self.delta.superseded@.contains(self.path_to_id@[path])
    }

    /// A copy that later changes do not reach.
    pub fn duplicate(&self) -> (copy: SearchIndexSnapshot)
        requires
            self.well_formed(),
        ensures
            copy@ == self@,
            copy.well_formed(),
    {
        let counts = self.file_trigram_count.clone();
        assert(counts@ =~= self.file_trigram_count@);
        let base = match &self.base {
            Some(base) => Some(base.duplicate()),
            None => None,
        };
        let copy = SearchIndexSnapshot {
            base,
            delta: DeltaState {
                postings: self.delta.postings.clone(),
                superseded: clone_ids(&self.delta.superseded),
            },
            files: crate::file_entry::duplicate_files(&self.files),
            path_to_id: self.path_to_id.duplicate(),
            ready: self.ready,
            project_root: self.project_root.duplicate(),
            file_trigram_count: counts,
            unindexed_files: clone_ids(&self.unindexed_files),
        };
        proof {
            assert(file_views(copy.files@).len() == copy.files@.len());
            assert forall|path: PathKey| #[trigger]
                copy.path_to_id@.contains_key(path) implies copy.path_to_id@[path]
                < copy.files@.len() && copy.files@[copy.path_to_id@[path] as int].path@
                == path by {
                let id = copy.path_to_id@[path] as int;
                assert(self.path_to_id@.contains_key(path));
                assert(file_views(copy.files@)[id] == file_views(self.files@)[id]);
            }
        }
        copy
    }

    pub fn is_active_file(&self, file_id: u32) -> (active: bool)
        ensures
            active == self@.active(file_id),
    {
        broadcast use vstd::std_specs::hash::group_hash_axioms;

        if self.delta.superseded.contains(&file_id) {
            return false;
        }
        let slot: u64 = file_id as u64;
        if slot >= self.files.len() as u64 {
            return false;
        }
        !self.files[file_id as usize].path.is_empty()
    }

    /// The files that a path leads to and that count, in ascending order.
    pub fn active_file_ids(&self) -> (ids: Vec<u32>)
        requires
            self.well_formed(),
        ensures
            strictly_ascending(ids@),
            forall|id: u32| #[trigger] ids@.contains(id) <==> self@.active(id) && self@.listed(id),
    {
        let mut ids: Vec<u32> = Vec::new();
        let mut slot: usize = 0;
        while slot < self.files.len()
            invariant
                self.well_formed(),
                slot <= self.files@.len(),
                strictly_ascending(ids@),
                forall|k: int| 0 <= k < ids@.len() ==> #[trigger] ids@[k] < slot,
                forall|id: u32| #[trigger]
                    ids@.contains(id) <==> id < slot && self@.active(id) && self@.listed(id),
            decreases self.files@.len() - slot,
        {
            let id: u32 = slot as u32;
            let ghost before = ids@;
            assert(id == slot);
            let mut keep: bool = false;
            if self.is_active_file(id) {
                if let Some(named) = self.path_to_id.get(&self.files[slot].path) {
                    keep = named == id;
                }
            }
            proof {
                if self@.listed(id) {
                    let path = choose|path: PathKey| #[trigger]
                        self.path_to_id@.contains_key(path) && self.path_to_id@[path] == id;
                    assert(self.path_to_id@.contains_key(path));
                    assert(self.files@[id as int].path@ == path);
                }
                if keep {
                    assert(self@.ids.contains_key(self.files@[slot as int].path@));
                }
                assert(keep == (self@.active(id) && self@.listed(id)));
            }
            if keep {
                ids.push(id);
            }
            slot += 1;
            proof {
                assert forall|other: u32| #[trigger]
                    ids@.contains(other) <==> other < slot && self@.active(other) && self@.listed(
                        other,
                    ) by {
                    if before.contains(other) {
                        let k = before.index_of(other);
                        assert(ids@[k] == other);
                    }
                    if keep {
                        assert(ids@[before.len() as int] == id);
                    }
                    if ids@.contains(other) {
                        let k = ids@.index_of(other);
                        if k < before.len() {
                            assert(before[k] == other);
                        }
                    }
                }
            }
        }
        ids
    }

    /// How many postings the trigram has, on disk and since.
    pub fn posting_count(&self, trigram: u32) -> (count: usize)
        requires
            self.base matches Some(base) ==> base.well_formed(),
        ensures
            count == self@.posting_total(trigram),
    {
        broadcast use vstd::std_specs::hash::group_hash_axioms;

        let base_count: usize = match &self.base {
            Some(base) => match base.lookup_entry(trigram) {
                Some(entry) => entry.count as usize,
                None => 0,
            },
            None => 0,
        };
        let delta_count: usize = match self.delta.postings.get(&trigram) {
            Some(postings) => postings.len(),
            None => 0,
        };
        base_count.saturating_add(delta_count)
    }

    fn collect_matches(
        &self,
        postings: &[Posting],
        filter: Option<PostingFilter>,
        matches: &mut Vec<u32>,
    )
        ensures
            forall|id: u32| #[trigger]
                final(matches)@.contains(id) <==> old(matches)@.contains(id) || (self@.active(id)
                    && list_matches(postings@, filter, id)),
    {
        let ghost start = matches@;
        let mut i: usize = 0;
        while i < postings.len()
            invariant
                start == old(matches)@,
                i <= postings@.len(),
                forall|id: u32| #[trigger]
                    matches@.contains(id) <==> start.contains(id) || (self@.active(id)
                        && list_matches(postings@.take(i as int), filter, id)),
            decreases postings@.len() - i,
        {
            let posting: Posting = postings[i];
            let ghost before = matches@;
            let keep: bool = posting_matches_filter(&posting, filter) && self.is_active_file(
                posting.file_id,
            );
            if keep {
                matches.push(posting.file_id);
            }
            i += 1;
            proof {
                let prev = postings@.take(i - 1);
                let next = postings@.take(i as int);
                assert forall|id: u32| #[trigger]
                    matches@.contains(id) <==> start.contains(id) || (self@.active(id)
                        && list_matches(next, filter, id)) by {
                    if before.contains(id) {
                        let k = before.index_of(id);
                        assert(matches@[k] == id);
                    }
                    if matches@.contains(id) && !before.contains(id) {
                        let k = matches@.index_of(id);
                        if k < before.len() {
                            assert(before[k] == id);
                        }
                        assert(id == posting.file_id);
                        assert(next[i - 1] == posting);
                    }
                    if list_matches(prev, filter, id) {
                        let k = choose|k: int|
                            0 <= k < prev.len() && (#[trigger] prev[k]).file_id == id
                                && passes_filter(prev[k], filter);
                        assert(next[k] == prev[k]);
                    }
                    if list_matches(next, filter, id) {
                        let k = choose|k: int|
                            0 <= k < next.len() && (#[trigger] next[k]).file_id == id
                                && passes_filter(next[k], filter);
                        if k < i - 1 {
                            assert(prev[k] == next[k]);
                        } else if keep {
                            assert(matches@[before.len() as int] == id);
                        }
                    }
                }
            }
        }
        assert(postings@.take(i as int) =~= postings@);
    }

    /// The active files with a posting of `trigram` that passes `filter`, in ascending order.
    pub fn postings_for_trigram(
        &self,
        reads: &PostingReads,
        trigram: u32,
        filter: Option<PostingFilter>,
    ) -> (ids: Vec<u32>)
        requires
            self.base matches Some(base) ==> base.well_formed(),
        ensures
            strictly_ascending(ids@),
            forall|id: u32| #[trigger]
                ids@.contains(id) <==> self@.has_posting(*reads, trigram, filter, id),
    {
        broadcast use vstd::std_specs::hash::group_hash_axioms;

        let mut matches: Vec<u32> = Vec::new();
        let on_disk = reads.postings_on_disk(&self.base, trigram);
        self.collect_matches(on_disk.as_slice(), filter, &mut matches);
        match self.delta.postings.get(&trigram) {
            Some(postings) => {
                self.collect_matches(postings.as_slice(), filter, &mut matches);
            },
            None => {},
        }
        sort_and_dedup(&matches)
    }

    /// The trigrams that the query wants of every match, those with the fewest postings first.
    fn rarest_first(&self, trigrams: &Vec<u32>) -> (sorted: Vec<u32>)
        requires
            self.base matches Some(base) ==> base.well_formed(),
        ensures
            sorted@.len() == trigrams@.len(),
            forall|trigram: u32| #[trigger]
                sorted@.contains(trigram) <==> trigrams@.contains(trigram),
    {
        let mut counts: Vec<usize> = Vec::new();
        let mut i: usize = 0;
        while i < trigrams.len()
            invariant
                self.base matches Some(base) ==> base.well_formed(),
                i <= trigrams@.len(),
                counts@.len() == i,
            decreases trigrams@.len() - i,
        {
            counts.push(self.posting_count(trigrams[i]));
            i += 1;
        }
        let order = sorting_order(counts.as_slice());
        let mut sorted: Vec<u32> = Vec::new();
        let mut k: usize = 0;
        while k < order.len()
            invariant
                counts@.len() == trigrams@.len(),
                crate::order::is_sorting_order(counts@, order@),
                k <= order@.len(),
                sorted@.len() == k,
                forall|m: int| 0 <= m < k ==> #[trigger] sorted@[m] == trigrams@[order@[m] as int],
            decreases order@.len() - k,
        {
            sorted.push(trigrams[order[k]]);
            k += 1;
        }
        proof {
            assert forall|trigram: u32| #[trigger]
                sorted@.contains(trigram) <==> trigrams@.contains(trigram) by {
                if sorted@.contains(trigram) {
                    let m = sorted@.index_of(trigram);
                    assert(trigrams@[order@[m] as int] == trigram);
                }
                if trigrams@.contains(trigram) {
                    let p = trigrams@.index_of(trigram);
                    assert(order@.contains(p as usize));
                    let m = order@.index_of(p as usize);
                    assert(sorted@[m] == trigram);
                }
            }
        }
        sorted
    }

    /// The files that have all trigrams of `trigrams`.
    fn files_with_all(&self, reads: &PostingReads, query: &RegexQuery) -> (ids: Vec<u32>)
        requires
            self.well_formed(),
        ensures
            strictly_ascending(ids@),
            forall|id: u32| #[trigger]
                ids@.contains(id) <==> (if query.and_trigrams@.len() == 0 {
                    self@.active(id) && self@.listed(id)
                } else {
                    self@.has_all(*reads, *query, id)
                }),
    {
        broadcast use vstd::std_specs::hash::group_hash_axioms;

        if query.and_trigrams.len() == 0 {
            return self.active_file_ids();
        }
        let trigrams = self.rarest_first(&query.and_trigrams);
        let mut current: Vec<u32> = Vec::new();
        let mut i: usize = 0;
        while i < trigrams.len() && (i == 0 || current.len() > 0)
            invariant
                self.well_formed(),
                i <= trigrams@.len(),
                strictly_ascending(current@),
                i > 0 ==> forall|id: u32| #[trigger]
                    current@.contains(id) <==> self@.has_first(*reads, *query, trigrams@, i as int, id),
            decreases trigrams@.len() - i,
        {
            let trigram: u32 = trigrams[i];
            let filter: Option<PostingFilter> = match query.and_filters.get(&trigram) {
                Some(filter) => Some(*filter),
                None => None,
            };
            let matches = self.postings_for_trigram(reads, trigram, filter);
            let ghost before = current@;
            if i == 0 {
                current = matches;
            } else {
                current = intersect_sorted_ids(current.as_slice(), matches.as_slice());
            }
            i += 1;
            proof {
                assert forall|id: u32| #[trigger]
                    current@.contains(id) <==> self@.has_first(
                        *reads,
                        *query,
                        trigrams@,
                        i as int,
                        id,
                    ) by {
                    assert(matches@.contains(id) <==> self@.has_posting(
                        *reads,
                        trigram,
                        filter,
                        id,
                    ));
                    assert(trigrams@[i - 1] == trigram);
                    if i > 1 {
                        assert(before.contains(id) <==> self@.has_first(
                            *reads,
                            *query,
                            trigrams@,
                            i - 1,
                            id,
                        ));
                    }
                    if self@.has_first(*reads, *query, trigrams@, i as int, id) {
                        assert(self@.has_first(*reads, *query, trigrams@, i - 1, id));
                    }
                }
            }
        }
        proof {
            assert forall|id: u32| #[trigger]
                current@.contains(id) <==> self@.has_all(*reads, *query, id) by {
                assert(trigrams@.len() > 0);
                if self@.has_all(*reads, *query, id) {
                    assert forall|k: int| 0 <= k < i implies self@.has_posting(
                        *reads,
                        #[trigger] trigrams@[k],
                        filter_for(query.and_filters@, trigrams@[k]),
                        id,
                    ) by {
                        assert(trigrams@.contains(trigrams@[k]));
                        assert(query.and_trigrams@.contains(trigrams@[k]));
                        let m = query.and_trigrams@.index_of(trigrams@[k]);
                        assert(query.and_trigrams@[m] == trigrams@[k]);
                    }
                    assert(self@.has_first(*reads, *query, trigrams@, i as int, id));
                }
                if current@.contains(id) {
                    assert(i == trigrams@.len());
                    assert forall|m: int|
                        0 <= m < query.and_trigrams@.len() implies self@.has_posting(
                        *reads,
                        #[trigger] query.and_trigrams@[m],
                        filter_for(query.and_filters@, query.and_trigrams@[m]),
                        id,
                    ) by {
                        assert(query.and_trigrams@.contains(query.and_trigrams@[m]));
                        assert(trigrams@.contains(query.and_trigrams@[m]));
                        let k = trigrams@.index_of(query.and_trigrams@[m]);
                        assert(trigrams@[k] == query.and_trigrams@[m]);
                    }
                }
            }
        }
        current
    }

    /// The files that have one of the trigrams of a group.
    fn files_with_one_of(&self, reads: &PostingReads, query: &RegexQuery, group: usize) -> (ids:
        Vec<u32>)
        requires
            self.well_formed(),
            group < query.or_groups@.len(),
        ensures
            strictly_ascending(ids@),
            forall|id: u32| #[trigger]
                ids@.contains(id) <==> self@.has_one_of(*reads, *query, group as int, id),
    {
        broadcast use vstd::std_specs::hash::group_hash_axioms;

        let trigrams = &query.or_groups[group];
        let mut ids: Vec<u32> = Vec::new();
        let mut i: usize = 0;
        while i < trigrams.len()
            invariant
                self.well_formed(),
                group < query.or_groups@.len(),
                trigrams == query.or_groups@[group as int],
                i <= trigrams@.len(),
                strictly_ascending(ids@),
                forall|id: u32| #[trigger]
                    ids@.contains(id) <==> self@.has_one_among(
                        *reads,
                        *query,
                        group as int,
                        i as int,
                        id,
                    ),
            decreases trigrams@.len() - i,
        {
            let trigram: u32 = trigrams[i];
            let filter: Option<PostingFilter> = if group < query.or_filters.len() {
                match query.or_filters[group].get(&trigram) {
                    Some(filter) => Some(*filter),
                    None => None,
                }
            } else {
                None
            };
            let matches = self.postings_for_trigram(reads, trigram, filter);
            let ghost before = ids@;
            ids = union_sorted_ids(ids.as_slice(), matches.as_slice());
            i += 1;
            proof {
                assert(filter == group_filter(*query, group as int, trigram));
                assert forall|id: u32| #[trigger]
                    ids@.contains(id) <==> self@.has_one_among(
                        *reads,
                        *query,
                        group as int,
                        i as int,
                        id,
                    ) by {
                    assert(ids@.contains(id) <==> before.contains(id) || matches@.contains(id));
                    if self@.has_one_among(*reads, *query, group as int, i - 1, id) {
                        let k = choose|k: int|
                            0 <= k < i - 1 && self@.has_posting(
                                *reads,
                                #[trigger] query.or_groups@[group as int]@[k],
                                group_filter(
                                    *query,
                                    group as int,
                                    query.or_groups@[group as int]@[k],
                                ),
                                id,
                            );
                        assert(0 <= k < i);
                    }
                    if matches@.contains(id) {
                        assert(query.or_groups@[group as int]@[i - 1] == trigram);
                    }
                    if self@.has_one_among(*reads, *query, group as int, i as int, id)
                        && !before.contains(id) {
                        let k = choose|k: int|
                            0 <= k < i && self@.has_posting(
                                *reads,
                                #[trigger] query.or_groups@[group as int]@[k],
                                group_filter(
                                    *query,
                                    group as int,
                                    query.or_groups@[group as int]@[k],
                                ),
                                id,
                            );
                        if k < i - 1 {
                            assert(self@.has_one_among(*reads, *query, group as int, i - 1, id));
                        }
                    }
                }
            }
        }
        proof {
            assert forall|id: u32| #[trigger]
                ids@.contains(id) <==> self@.has_one_of(*reads, *query, group as int, id) by {
                assert(self@.has_one_among(
                    *reads,
                    *query,
                    group as int,
                    trigrams@.len() as int,
                    id,
                ) == self@.has_one_of(*reads, *query, group as int, id));
            }
        }
        ids
    }

    /// The unindexed files that count, in ascending order.
    fn active_unindexed_files(&self) -> (ids: Vec<u32>)
        requires
            self.well_formed(),
        ensures
            strictly_ascending(ids@),
            forall|id: u32| #[trigger]
                ids@.contains(id) <==> self@.active(id) && self.unindexed_files@.contains(id),
    {
        broadcast use vstd::std_specs::hash::group_hash_axioms;

        let mut ids: Vec<u32> = Vec::new();
        let mut slot: usize = 0;
        if self.unindexed_files.is_empty() {
            assert(self.unindexed_files@ =~= Set::<u32>::empty());
            return ids;
        }
        while slot < self.files.len()
            invariant
                self.well_formed(),
                slot <= self.files@.len(),
                strictly_ascending(ids@),
                forall|k: int| 0 <= k < ids@.len() ==> #[trigger] ids@[k] < slot,
                forall|id: u32| #[trigger]
                    ids@.contains(id) <==> id < slot && self@.active(id)
                        && self.unindexed_files@.contains(id),
            decreases self.files@.len() - slot,
        {
            let id: u32 = slot as u32;
            let ghost before = ids@;
            let keep: bool = self.unindexed_files.contains(&id) && self.is_active_file(id);
            if keep {
                ids.push(id);
            }
            slot += 1;
            proof {
                assert forall|other: u32| #[trigger]
                    ids@.contains(other) <==> other < slot && self@.active(other)
                        && self.unindexed_files@.contains(other) by {
                    if before.contains(other) {
                        let k = before.index_of(other);
                        assert(ids@[k] == other);
                    }
                    if keep {
                        assert(ids@[before.len() as int] == id);
                    }
                    if ids@.contains(other) {
                        let k = ids@.index_of(other);
                        if k < before.len() {
                            assert(before[k] == other);
                        }
                    }
                }
            }
        }
        ids
    }

    /// The files that may hold a match of the query, in ascending order.
    pub fn candidates(&self, query: &RegexQuery, reads: &PostingReads) -> (ids: Vec<u32>)
        requires
            self.well_formed(),
        ensures
            strictly_ascending(ids@),
            forall|id: u32| #[trigger]
                ids@.contains(id) <==> self@.is_candidate(*reads, *query, id),
    {
        if query.and_trigrams.len() == 0 && query.or_groups.len() == 0 {
            return self.active_file_ids();
        }
        let mut current = self.files_with_all(reads, query);
        let ghost with_all = current@;
        let mut group: usize = 0;
        while group < query.or_groups.len() && current.len() > 0
            invariant
                self.well_formed(),
                group <= query.or_groups@.len(),
                strictly_ascending(current@),
                forall|id: u32| #[trigger]
                    current@.contains(id) <==> with_all.contains(id) && forall|g: int|
                        0 <= g < group ==> #[trigger] self@.has_one_of(*reads, *query, g, id),
            decreases query.or_groups@.len() - group,
        {
            let matches = self.files_with_one_of(reads, query, group);
            let ghost before = current@;
            current = intersect_sorted_ids(current.as_slice(), matches.as_slice());
            group += 1;
            proof {
                assert forall|id: u32| #[trigger]
                    current@.contains(id) <==> with_all.contains(id) && forall|g: int|
                        0 <= g < group ==> #[trigger] self@.has_one_of(*reads, *query, g, id) by {
                    assert(current@.contains(id) <==> before.contains(id) && matches@.contains(
                        id,
                    ));
                    assert(before.contains(id) <==> with_all.contains(id) && forall|g: int|
                        0 <= g < group - 1 ==> #[trigger] self@.has_one_of(*reads, *query, g, id));
                    assert(matches@.contains(id) <==> self@.has_one_of(
                        *reads,
                        *query,
                        group - 1,
                        id,
                    ));
                }
            }
        }
        proof {
            assert forall|id: u32| #[trigger]
                current@.contains(id) <==> with_all.contains(id) && forall|g: int|
                    0 <= g < query.or_groups@.len() ==> #[trigger] self@.has_one_of(
                        *reads,
                        *query,
                        g,
                        id,
                    ) by {
                if group < query.or_groups@.len() {
                    assert(current@.len() == 0);
                    assert(!current@.contains(id));
                }
            }
        }
        let unindexed = self.active_unindexed_files();
        let ghost matched = current@;
        let ids = union_sorted_ids(current.as_slice(), unindexed.as_slice());
        proof {
            assert forall|id: u32| #[trigger]
                ids@.contains(id) <==> self@.is_candidate(*reads, *query, id) by {
                assert(ids@.contains(id) <==> matched.contains(id) || unindexed@.contains(id));
                assert(with_all.contains(id) <==> (if query.and_trigrams@.len() == 0 {
                    self@.active(id) && self@.listed(id)
                } else {
                    self@.has_all(*reads, *query, id)
                }));
            }
        }
        ids
    }
}

/// The same set of ids.
pub fn clone_ids(ids: &HashSet<u32>) -> (copy: HashSet<u32>)
    ensures
        copy@ == ids@,
{
    broadcast use vstd::std_specs::hash::group_hash_axioms;

    let mut copy: HashSet<u32> = HashSet::new();
    let iter = ids.iter();
    let ghost all = iter.remaining();
    for id in it: iter
        invariant
            it.seq() == all,
            copy@ == all.take(it.index() as int).unref().to_set(),
    {
        copy.insert(*id);
        proof {
            let k = it.index() as int;
            assert(all.take(k + 1) =~= all.take(k).push(all[k]));
            assert(all.take(k + 1).unref() =~= all.take(k).unref().push(*all[k]));
            all.take(k).unref().lemma_push_to_set_commute(*all[k]);
        }
    }
    assert(all.take(all.len() as int) =~= all);
    copy
}

} // verus!
