//! The index and the changes to it.

use crate::file_entry::file_views;
use crate::file_entry::free_slot;
use crate::file_entry::zero_hash;
use crate::file_entry::zero_hash_bytes;
use crate::file_entry::ContentHash;
use crate::file_entry::FileEntry;
use crate::file_entry::FileView;
use crate::file_entry::SearchFileMetadata;
use crate::ledger::in_step;
use crate::ledger::key_list;
use crate::ledger::ledger_with;
use crate::ledger::ledger_without;
use crate::ledger::lemma_addition_stays_in_step;
use crate::ledger::lemma_key_list;
use crate::ledger::lemma_removal_stays_in_step;
use crate::ledger::stays_in_step;
use crate::order::lemma_ascending_lists_are_determined;
use crate::order::strictly_ascending;
use crate::path::PathKey;
use crate::path::SearchPath;
use crate::path_table::PathTable;
use crate::postings::ascending_postings;
use crate::postings::holds_file;
use crate::postings::insert_delta_posting;
use crate::postings::insertion_point;
use crate::postings::retain_other_files;
use crate::postings::without_file;
use crate::postings::Posting;
use crate::snapshot::list_views;
use crate::snapshot::DeltaState;
use crate::snapshot::SearchIndexSnapshot;
use crate::snapshot::SnapshotView;
use crate::tally::lengths;
use crate::tally::total;
use crate::trigram::lists_entries;
use crate::trigram::sorted_entries;
use crate::trigram::PostingFilter;
use std::collections::BTreeMap;
use std::collections::HashMap;
use std::collections::HashSet;
use vstd::prelude::*;

verus! {

/// Files above this size are searched without postings, unless set otherwise.
pub const DEFAULT_MAX_FILE_SIZE: u64 = 1_048_576;

pub const DELTA_COMPACT_SOFT_FILES: usize = 1_000;

pub const DELTA_COMPACT_HARD_FILES: usize = 5_000;

/// 32 MiB
pub const DELTA_COMPACT_SOFT_BYTES: usize = 33_554_432;

/// 128 MiB
pub const DELTA_COMPACT_HARD_BYTES: usize = 134_217_728;

/// Whether the changes since the cache file was written should be folded into a new one.
pub struct CompactionState {
    pub running: bool,
    pub requested_again: bool,
    /// Paths that changed while a compaction ran.
    pub buffered_paths: Vec<SearchPath>,
}

/// The index with what only changes to it need.
pub struct SearchIndex {
    pub current: SearchIndexSnapshot,
    /// The trigrams of each file that changed since the cache file was written.
    pub delta_file_trigrams: HashMap<u32, Vec<u32>>,
    /// Set when a build was refused because this root may not write the shared cache. The index
    /// stays empty and not ready, and no build is under way.
    pub build_denied: bool,
    pub git_head: Option<String>,
    pub max_file_size: u64,
    pub ignore_rules_fingerprint: String,
    pub base_file_count: u32,
    pub delta_packed_bytes: usize,
    pub compaction: CompactionState,
}

/// A file read and taken apart, ready to be added.
pub struct PreparedIndexedFile {
    pub metadata: SearchFileMetadata,
    pub content_hash: ContentHash,
    pub trigram_map: BTreeMap<u32, PostingFilter>,
}

// ---------------------------------------------------------------------------------------------
// Compaction requests
// ---------------------------------------------------------------------------------------------

pub open spec fn compact_soft(delta_files: int, packed_bytes: int) -> bool {
    delta_files >= DELTA_COMPACT_SOFT_FILES || packed_bytes >= DELTA_COMPACT_SOFT_BYTES
}

pub open spec fn compact_hard(delta_files: int, packed_bytes: int) -> bool {
    delta_files >= DELTA_COMPACT_HARD_FILES || packed_bytes >= DELTA_COMPACT_HARD_BYTES
}

/// The mathematical counterpart of a `CompactionState`.
pub struct CompactionView {
    pub running: bool,
    pub requested_again: bool,
    pub buffered_paths: Seq<PathKey>,
}

impl View for CompactionState {
    type V = CompactionView;

    open spec fn view(&self) -> CompactionView {
        CompactionView {
            running: self.running,
            requested_again: self.requested_again,
            buffered_paths: self.buffered_paths@.map_values(|path: SearchPath| path@),
        }
    }
}

/// What a change leaves of the compaction requests: while a compaction runs the changed path is
/// kept for later and either limit asks for another run; else the hard limit asks for a run, and so
/// does the soft limit.
pub open spec fn compaction_after(
    state: CompactionView,
    path: PathKey,
    delta_files: int,
    packed_bytes: int,
) -> CompactionView {
    let over = compact_soft(delta_files, packed_bytes) || compact_hard(delta_files, packed_bytes);
    CompactionView {
        running: state.running,
        requested_again: state.requested_again || over,
        buffered_paths: if state.running {
            state.buffered_paths.push(path)
        } else {
            state.buffered_paths
        },
    }
}

impl CompactionState {
    pub fn idle() -> (state: CompactionState)
        ensures
            !state.running,
            !state.requested_again,
            state.buffered_paths@.len() == 0,
    {
        CompactionState { running: false, requested_again: false, buffered_paths: Vec::new() }
    }

    pub fn note_change(&mut self, path: &SearchPath, delta_files: usize, packed_bytes: usize)
        ensures
            final(self)@ == compaction_after(
                old(self)@,
                path@,
                delta_files as int,
                packed_bytes as int,
            ),
    {
        let hard: bool = delta_files >= DELTA_COMPACT_HARD_FILES || packed_bytes
            >= DELTA_COMPACT_HARD_BYTES;
        let soft: bool = delta_files >= DELTA_COMPACT_SOFT_FILES || packed_bytes
            >= DELTA_COMPACT_SOFT_BYTES;
        let ghost before = self@.buffered_paths;
        if self.running {
            self.buffered_paths.push(path.duplicate());
            assert(self@.buffered_paths =~= before.push(path@));
            if soft || hard {
                self.requested_again = true;
            }
        } else if hard || (soft && !self.requested_again) {
            self.requested_again = true;
        }
    }
}

// ---------------------------------------------------------------------------------------------
// What changes mean
// ---------------------------------------------------------------------------------------------

/// `counts` with a slot for `file_id`.
pub open spec fn padded(counts: Seq<u32>, file_id: int) -> Seq<u32> {
    if counts.len() > file_id {
        counts
    } else {
        counts + Seq::new((file_id + 1 - counts.len()) as nat, |i: int| 0u32)
    }
}

/// The posting lists with one more file, which holds the trigrams of `filters`.
pub open spec fn lists_with(
    lists: Map<u32, Seq<Posting>>,
    file_id: u32,
    filters: Map<u32, PostingFilter>,
) -> Map<u32, Seq<Posting>> {
    Map::new(
        |t: u32| lists.contains_key(t) || filters.contains_key(t),
        |t: u32|
            {
                let list = if lists.contains_key(t) {
                    lists[t]
                } else {
                    Seq::empty()
                };
                if filters.contains_key(t) {
                    list.push(
                        Posting {
                            file_id,
                            next_mask: filters[t].next_mask,
                            loc_mask: filters[t].loc_mask,
                        },
                    )
                } else {
                    list
                }
            },
    )
}

/// The posting lists without a file. A list that the file had to itself is gone.
pub open spec fn lists_without(lists: Map<u32, Seq<Posting>>, file_id: u32) -> Map<
    u32,
    Seq<Posting>,
> {
    Map::new(
        |t: u32| lists.contains_key(t) && without_file(lists[t], file_id).len() > 0,
        |t: u32| without_file(lists[t], file_id),
    )
}

/// One more file, at the end of the file table.
pub open spec fn with_file(
    view: SnapshotView,
    path: PathKey,
    metadata: SearchFileMetadata,
    content_hash: Seq<u8>,
    filters: Map<u32, PostingFilter>,
) -> SnapshotView {
    let file_id = view.files.len() as u32;
    SnapshotView {
        postings: lists_with(view.postings, file_id, filters),
        files: view.files.push(
            FileView { path, size: metadata.size, modified: metadata.modified, content_hash },
        ),
        ids: view.ids.insert(path, file_id),
        file_trigram_count: padded(view.file_trigram_count, file_id as int).update(
            file_id as int,
            filters.len() as u32,
        ),
        unindexed: view.unindexed.remove(file_id),
        ..view
    }
}

/// One more file without postings.
pub open spec fn with_unindexed_file(
    view: SnapshotView,
    path: PathKey,
    metadata: SearchFileMetadata,
) -> SnapshotView {
    let file_id = view.files.len() as u32;
    SnapshotView {
        files: view.files.push(
            FileView {
                path,
                size: metadata.size,
                modified: metadata.modified,
                content_hash: zero_hash_bytes(),
            },
        ),
        ids: view.ids.insert(path, file_id),
        file_trigram_count: padded(view.file_trigram_count, file_id as int).update(
            file_id as int,
            0,
        ),
        unindexed: view.unindexed.insert(file_id),
        ..view
    }
}

/// The file that `path` leads to is gone. The cache file still holds the postings of a file with an
/// id below `base_file_count`, so that id is marked as superseded.
pub open spec fn without_path(view: SnapshotView, base_file_count: u32, path: PathKey) -> SnapshotView {
    let file_id = view.ids[path];
    SnapshotView {
        postings: lists_without(view.postings, file_id),
        superseded: if file_id < base_file_count {
            view.superseded.insert(file_id)
        } else {
            view.superseded
        },
        files: view.files.update(file_id as int, free_slot()),
        ids: view.ids.remove(path),
        file_trigram_count: if file_id < view.file_trigram_count.len() {
            view.file_trigram_count.update(file_id as int, 0)
        } else {
            view.file_trigram_count
        },
        unindexed: view.unindexed.remove(file_id),
        ..view
    }
}

/// The key under which a path is in the table: as given, else in its canonical form.
pub open spec fn table_key(ids: Map<PathKey, u32>, path: PathKey, canonical: PathKey) -> Option<
    PathKey,
> {
    if ids.contains_key(path) {
        Some(path)
    } else if ids.contains_key(canonical) {
        Some(canonical)
    } else {
        None
    }
}

/// How many slots hold a file.
pub open spec fn files_in_use(files: Seq<FileView>) -> nat
    decreases files.len(),
{
    if files.len() == 0 {
        0
    } else {
        files_in_use(files.drop_last()) + (if files.last().path.len() > 0 {
            1nat
        } else {
            0
        })
    }
}

/// The index after a removal.
pub open spec fn after_removal(
    view: SnapshotView,
    base_file_count: u32,
    path: PathKey,
    canonical: PathKey,
) -> SnapshotView {
    match table_key(view.ids, path, canonical) {
        Some(key) => without_path(view, base_file_count, key),
        None => view,
    }
}

pub open spec fn packed_bytes(count: int) -> int {
    if count * 6 > usize::MAX {
        usize::MAX as int
    } else {
        count * 6
    }
}

fn packed_len(count: usize) -> (bytes: usize)
    ensures
        bytes == packed_bytes(count as int),
{
    if count > usize::MAX / 6 {
        usize::MAX
    } else {
        count * 6
    }
}

pub fn ensure_count_slot(counts: &mut Vec<u32>, file_id: usize)
    requires
        file_id < usize::MAX,
    ensures
        final(counts)@ == padded(old(counts)@, file_id as int),
{
    let ghost before = counts@;
    while counts.len() <= file_id
        invariant
            file_id < usize::MAX,
            before == old(counts)@,
            before.len() <= counts@.len(),
            counts@.len() <= file_id + 1 || counts@ == before,
            counts@ == before + Seq::new((counts@.len() - before.len()) as nat, |i: int| 0u32),
        decreases file_id + 1 - counts@.len(),
    {
        counts.push(0);
        assert(counts@ =~= before + Seq::new((counts@.len() - before.len()) as nat, |i: int| 0u32));
    }
    assert(counts@ =~= padded(before, file_id as int));
}

// ---------------------------------------------------------------------------------------------
// Well-formed indexes
// ---------------------------------------------------------------------------------------------

/// Every posting since the cache file was written belongs to a file whose trigrams are recorded.
pub open spec fn delta_recorded(
    postings: Map<u32, Vec<Posting>>,
    file_trigrams: Map<u32, Vec<u32>>,
) -> bool {
    forall|t: u32, i: int|
        #![trigger postings[t]@[i]]
        postings.contains_key(t) && 0 <= i < postings[t]@.len() ==> {
            let id = postings[t]@[i].file_id;
            file_trigrams.contains_key(id) && file_trigrams[id]@.contains(t)
        }
}

/// Each trigram that is recorded of a file is recorded once, and its list has the file.
pub open spec fn delta_complete(
    postings: Map<u32, Vec<Posting>>,
    file_trigrams: Map<u32, Vec<u32>>,
    file_count: int,
) -> bool {
    forall|id: u32| #[trigger]
        file_trigrams.contains_key(id) ==> {
            &&& id < file_count
            &&& strictly_ascending(file_trigrams[id]@)
            &&& forall|k: int|
                0 <= k < file_trigrams[id]@.len() ==> {
                    let t = #[trigger] file_trigrams[id]@[k];
                    postings.contains_key(t) && holds_file(postings[t]@, id)
                }
        }
}

/// The lists are ascending, not empty, and speak of files with an id below `file_count`.
pub open spec fn delta_lists_sound(postings: Map<u32, Vec<Posting>>, file_count: int) -> bool {
    forall|t: u32| #[trigger]
        postings.contains_key(t) ==> {
            &&& postings[t]@.len() > 0
            &&& ascending_postings(postings[t]@)
            &&& forall|i: int|
                0 <= i < postings[t]@.len() ==> (#[trigger] postings[t]@[i]).file_id < file_count
        }
}

impl SearchIndex {
    pub open spec fn well_formed(&self) -> bool {
        &&& self.current.well_formed()
        &&& delta_lists_sound(self.current.delta.postings@, self.current.files@.len() as int)
        &&& delta_recorded(self.current.delta.postings@, self.delta_file_trigrams@)
        &&& delta_complete(
            self.current.delta.postings@,
            self.delta_file_trigrams@,
            self.current.files@.len() as int,
        )
        &&& self.base_file_count <= self.current.files@.len()
        &&& forall|id: u32| #[trigger]
            self.current.delta.superseded@.contains(id) ==> id < self.base_file_count
    }

    /// An empty index.
    pub fn new() -> (index: SearchIndex)
        ensures
            index.well_formed(),
            index.current@.all_listed(),
            !index.build_denied,
            index.git_head is None,
            index.max_file_size == DEFAULT_MAX_FILE_SIZE,
            index.ignore_rules_fingerprint@.len() == 0,
            index.base_file_count == 0,
            index.delta_packed_bytes == 0,
            index.delta_file_trigrams@ == Map::<u32, Vec<u32>>::empty(),
            index.current@ == (SnapshotView {
                base: None,
                postings: Map::empty(),
                superseded: Set::empty(),
                files: Seq::empty(),
                ids: Map::empty(),
                ready: false,
                project_root: Seq::empty(),
                file_trigram_count: Seq::empty(),
                unindexed: Set::empty(),
            }),
            index.compaction@ == (CompactionView {
                running: false,
                requested_again: false,
                buffered_paths: Seq::empty(),
            }),
    {
        let index = SearchIndex {
            current: SearchIndexSnapshot {
                base: None,
                delta: DeltaState { postings: HashMap::new(), superseded: HashSet::new() },
                files: Vec::new(),
                path_to_id: PathTable::new(),
                ready: false,
                project_root: SearchPath::new(),
                file_trigram_count: Vec::new(),
                unindexed_files: HashSet::new(),
            },
            delta_file_trigrams: HashMap::new(),
            build_denied: false,
            git_head: None,
            max_file_size: DEFAULT_MAX_FILE_SIZE,
            ignore_rules_fingerprint: String::new(),
            base_file_count: 0,
            delta_packed_bytes: 0,
            compaction: CompactionState::idle(),
        };
        proof {
            assert(index.current@.postings =~= Map::empty());
            assert(index.current@.files =~= Seq::empty());
            assert(index.compaction@.buffered_paths =~= Seq::empty());
        }
        index
    }
}


// ---------------------------------------------------------------------------------------------
// Adding files
// ---------------------------------------------------------------------------------------------

/// No two paths of a well-formed snapshot lead to one file.
pub proof fn lemma_paths_are_distinct(snapshot: SearchIndexSnapshot)
    requires
        snapshot.well_formed(),
    ensures
        snapshot@.ids.dom().finite(),
        snapshot@.ids.len() <= snapshot.files@.len(),
        forall|p: PathKey, q: PathKey|
            #![trigger snapshot@.ids[p], snapshot@.ids[q]]
            snapshot@.ids.contains_key(p) && snapshot@.ids.contains_key(q) && snapshot@.ids[p]
                == snapshot@.ids[q] ==> p == q,
{
    snapshot.path_to_id.lemma_finite();
    crate::path_table::lemma_table_size(snapshot@.ids, snapshot.files@.len());
}

/// A file under a path that led to none: its path leads to it, and those of the others to them.
pub proof fn lemma_addition_keeps_files_listed(before: SnapshotView, after: SnapshotView, path: PathKey)
    requires
        before.all_listed(),
        !before.ids.contains_key(path),
        before.files.len() <= u32::MAX,
        after.superseded == before.superseded,
        after.files.len() == before.files.len() + 1,
        after.files.drop_last() == before.files,
        after.ids == before.ids.insert(path, before.files.len() as u32),
    ensures
        after.all_listed(),
{
    assert forall|id: u32| #[trigger] after.active(id) implies after.listed(id) by {
        if id == before.files.len() {
            assert(after.ids.contains_key(path) && after.ids[path] == id);
        } else {
            assert(after.files[id as int] == after.files.drop_last()[id as int]);
            assert(before.active(id));
            let other = choose|p: PathKey| #[trigger]
                before.ids.contains_key(p) && before.ids[p] == id;
            assert(after.ids.contains_key(other) && after.ids[other] == id);
        }
    }
}

/// What else the index holds does not matter.
pub proof fn lemma_same_files_stay_listed(before: SnapshotView, after: SnapshotView)
    requires
        after.superseded == before.superseded,
        after.ids == before.ids,
        after.files.len() == before.files.len(),
        forall|i: int|
            0 <= i < before.files.len() ==> (#[trigger] after.files[i]).path
                == before.files[i].path,
    ensures
        before.all_listed() ==> after.all_listed(),
{
    if before.all_listed() {
        assert forall|id: u32| #[trigger] after.active(id) implies after.listed(id) by {
            assert(before.active(id));
            let path = choose|p: PathKey| #[trigger]
                before.ids.contains_key(p) && before.ids[p] == id;
            assert(after.ids.contains_key(path) && after.ids[path] == id);
        }
    }
}

/// A removal takes a file and its path together.
pub proof fn lemma_removal_keeps_files_listed(
    view: SnapshotView,
    base_file_count: u32,
    path: PathKey,
    canonical: PathKey,
)
    requires
        view.all_listed(),
        forall|p: PathKey| #[trigger] view.ids.contains_key(p) ==> view.ids[p] < view.files.len(),
    ensures
        after_removal(view, base_file_count, path, canonical).all_listed(),
        !after_removal(view, base_file_count, path, canonical).ids.contains_key(path),
{
    let after = after_removal(view, base_file_count, path, canonical);
    if table_key(view.ids, path, canonical) is Some {
        let key = table_key(view.ids, path, canonical)->0;
        assert forall|id: u32| #[trigger] after.active(id) implies after.listed(id) by {
            assert(id != view.ids[key]);
            assert(view.active(id));
            let other = choose|p: PathKey| #[trigger]
                view.ids.contains_key(p) && view.ids[p] == id;
            assert(after.ids.contains_key(other) && after.ids[other] == id);
        }
    }
}

impl SearchIndex {
    /// A new slot at the end of the file table, unless ids have run out.
    pub(crate) fn allocate_file_id_with_metadata(
        &mut self,
        path: &SearchPath,
        metadata: SearchFileMetadata,
        content_hash: ContentHash,
    ) -> (file_id: Option<u32>)
        requires
            old(self).well_formed(),
        ensures
            match file_id {
                Some(file_id) => {
                    &&& old(self).current.files@.len() <= u32::MAX
                    &&& file_id == old(self).current.files@.len()
                    &&& final(self).current@ == (SnapshotView {
                        files: old(self).current@.files.push(
                            FileView {
                                path: path@,
                                size: metadata.size,
                                modified: metadata.modified,
                                content_hash: content_hash@,
                            },
                        ),
                        ids: old(self).current@.ids.insert(path@, file_id),
                        file_trigram_count: padded(
                            old(self).current@.file_trigram_count,
                            file_id as int,
                        ),
                        ..old(self).current@
                    })
                    &&& final(self).current.delta == old(self).current.delta
                    &&& final(self).well_formed()
                },
                None => {
                    &&& old(self).current.files@.len() > u32::MAX
                    &&& *final(self) == *old(self)
                },
            },
            final(self).only_current_changed(*old(self)),
            old(self).current@.all_listed() && !old(self).current@.ids.contains_key(path@)
                ==> final(self).current@.all_listed(),
    {
        if self.current.files.len() as u64 > u32::MAX as u64 {
            return None;
        }
        let slot: usize = self.current.files.len();
        let file_id: u32 = slot as u32;
        let ghost before = self.current;
        proof {
            lemma_paths_are_distinct(before);
        }
        let entry = FileEntry {
            path: path.duplicate(),
            size: metadata.size,
            modified: metadata.modified,
            content_hash,
        };
        let ghost entry_view = entry@;
        self.current.files.push(entry);
        assert(self.current.files.len() == slot + 1);
        self.current.path_to_id.insert(path.duplicate(), file_id);
        ensure_count_slot(&mut self.current.file_trigram_count, slot);
        proof {
            let after = self.current;
            assert(after@.files =~= before@.files.push(entry_view));
            assert forall|p: PathKey| #[trigger]
                after.path_to_id@.contains_key(p) implies after.path_to_id@[p] < after.files@.len()
                && after.files@[after.path_to_id@[p] as int].path@ == p by {
                if p != path@ {
                    assert(before.path_to_id@.contains_key(p));
                }
            }
            assert(delta_lists_sound(after.delta.postings@, after.files@.len() as int)) by {
                assert forall|t: u32| #[trigger] after.delta.postings@.contains_key(t) implies {
                    &&& after.delta.postings@[t]@.len() > 0
                    &&& ascending_postings(after.delta.postings@[t]@)
                    &&& forall|i: int|
                        0 <= i < after.delta.postings@[t]@.len() ==> (
                        #[trigger] after.delta.postings@[t]@[i]).file_id < after.files@.len()
                } by {
                    assert(before.delta.postings@.contains_key(t));
                }
            }
        }
        proof {
            if before@.all_listed() && !before@.ids.contains_key(path@) {
                assert(self.current@.files.drop_last() =~= before@.files);
                lemma_addition_keeps_files_listed(before@, self.current@, path@);
            }
        }
        Some(file_id)
    }

    /// Nothing but the current version differs.
    pub open spec fn only_current_changed(&self, before: SearchIndex) -> bool {
        &&& self.delta_file_trigrams == before.delta_file_trigrams
        &&& self.build_denied == before.build_denied
        &&& self.git_head == before.git_head
        &&& self.max_file_size == before.max_file_size
        &&& self.ignore_rules_fingerprint == before.ignore_rules_fingerprint
        &&& self.base_file_count == before.base_file_count
        &&& self.delta_packed_bytes == before.delta_packed_bytes
        &&& self.compaction == before.compaction
    }

    /// Nothing of the settings differs.
    pub open spec fn same_settings(&self, before: SearchIndex) -> bool {
        &&& self.build_denied == before.build_denied
        &&& self.git_head == before.git_head
        &&& self.max_file_size == before.max_file_size
        &&& self.ignore_rules_fingerprint == before.ignore_rules_fingerprint
        &&& self.base_file_count == before.base_file_count
    }

    /// A file that is searched although it has no postings.
    pub fn track_unindexed_file_with_metadata(
        &mut self,
        path: &SearchPath,
        metadata: SearchFileMetadata,
    ) -> (added: bool)
        requires
            old(self).well_formed(),
        ensures
            final(self).well_formed(),
            added == (old(self).current.files@.len() <= u32::MAX),
            final(self).current@ == (if added {
                with_unindexed_file(old(self).current@, path@, metadata)
            } else {
                old(self).current@
            }),
            final(self).only_current_changed(*old(self)),
            old(self).current@.all_listed() && !old(self).current@.ids.contains_key(path@)
                ==> final(self).current@.all_listed(),
    {
        broadcast use vstd::std_specs::hash::group_hash_axioms;

        let file_id: u32 = match self.allocate_file_id_with_metadata(path, metadata, zero_hash()) {
            Some(file_id) => file_id,
            None => {
                return false;
            },
        };
        let ghost allocated = self.current@;
        self.current.unindexed_files.insert(file_id);
        self.current.file_trigram_count.set(file_id as usize, 0);
        proof {
            lemma_same_files_stay_listed(allocated, self.current@);
        }
        true
    }

    /// The posting of `file_id` at the end of the list of `trigram`.
    fn add_posting(&mut self, trigram: u32, posting: Posting)
        requires
            ascending_postings(old(self).current.delta.list(trigram)),
            forall|i: int|
                0 <= i < old(self).current.delta.list(trigram).len() ==> (#[trigger] old(
                    self,
                ).current.delta.list(trigram)[i]).file_id < posting.file_id,
        ensures
            list_views(final(self).current.delta.postings@) == list_views(
                old(self).current.delta.postings@,
            ).insert(trigram, old(self).current.delta.list(trigram).push(posting)),
            ascending_postings(old(self).current.delta.list(trigram).push(posting)),
            final(self).only_current_changed(*old(self)),
            final(self).current.base == old(self).current.base,
            final(self).current.delta.superseded == old(self).current.delta.superseded,
            final(self).current.files == old(self).current.files,
            final(self).current.path_to_id == old(self).current.path_to_id,
            final(self).current.ready == old(self).current.ready,
            final(self).current.project_root == old(self).current.project_root,
            final(self).current.file_trigram_count == old(self).current.file_trigram_count,
            final(self).current.unindexed_files == old(self).current.unindexed_files,
    {
        broadcast use vstd::std_specs::hash::group_hash_axioms;

        let ghost before = self.current.delta;
        let mut postings: Vec<Posting> = match self.current.delta.postings.remove(&trigram) {
            Some(postings) => postings,
            None => Vec::new(),
        };
        let ghost list = before.list(trigram);
        assert(postings@ =~= list);
        assert(!holds_file(postings@, posting.file_id));
        insert_delta_posting(&mut postings, posting);
        proof {
            let at = choose|at: int|
                insertion_point(list, posting.file_id, at) && postings@ == list.insert(
                    at,
                    posting,
                );
            if at < list.len() {
                assert(list[at].file_id >= posting.file_id);
            }
            assert(postings@ =~= list.push(posting));
        }
        self.current.delta.postings.insert(trigram, postings);
        assert(list_views(self.current.delta.postings@) =~= list_views(before.postings@).insert(
            trigram,
            list.push(posting),
        ));
    }
}


/// The map that a list of entries spells.
pub open spec fn entries_map(entries: Seq<(u32, PostingFilter)>) -> Map<u32, PostingFilter>
    decreases entries.len(),
{
    if entries.len() == 0 {
        Map::empty()
    } else {
        entries_map(entries.drop_last()).insert(entries.last().0, entries.last().1)
    }
}

proof fn lemma_entries_map_members(entries: Seq<(u32, PostingFilter)>, t: u32)
    requires
        forall|i: int, j: int|
            0 <= i < j < entries.len() ==> (#[trigger] entries[i]).0 < (#[trigger] entries[j]).0,
    ensures
        entries_map(entries).contains_key(t) <==> exists|i: int|
            0 <= i < entries.len() && (#[trigger] entries[i]).0 == t,
        forall|i: int|
            0 <= i < entries.len() && (#[trigger] entries[i]).0 == t ==> entries_map(entries)[t]
                == entries[i].1,
    decreases entries.len(),
{
    if entries.len() > 0 {
        let prev = entries.drop_last();
        assert forall|i: int, j: int| 0 <= i < j < prev.len() implies (#[trigger] prev[i]).0 < (
        #[trigger] prev[j]).0 by {
            assert(prev[i] == entries[i] && prev[j] == entries[j]);
        }
        lemma_entries_map_members(prev, t);
        assert(entries.last() == entries[entries.len() - 1]);
        assert forall|i: int|
            0 <= i < entries.len() && (#[trigger] entries[i]).0 == t implies entries_map(
            entries,
        ).contains_key(t) && entries_map(entries)[t] == entries[i].1 by {
            if i < prev.len() {
                assert(prev[i] == entries[i]);
                assert(entries[i].0 < entries[entries.len() - 1].0);
            }
        }
        if entries_map(entries).contains_key(t) {
            if t != entries.last().0 {
                let i = choose|i: int| 0 <= i < prev.len() && (#[trigger] prev[i]).0 == t;
                assert(entries[i].0 == t);
            }
        }
    }
}

pub(crate) proof fn lemma_entries_map(entries: Seq<(u32, PostingFilter)>, filters: Map<u32, PostingFilter>)
    requires
        lists_entries(entries, filters),
    ensures
        entries_map(entries) == filters,
{
    assert forall|t: u32| entries_map(entries).contains_key(t) == filters.contains_key(t) by {
        lemma_entries_map_members(entries, t);
        if filters.contains_key(t) {
            let i = entries.index_of((t, filters[t]));
            assert(entries[i].0 == t);
        }
    }
    assert forall|t: u32| filters.contains_key(t) implies entries_map(entries)[t]
        == filters[t] by {
        lemma_entries_map_members(entries, t);
        let i = entries.index_of((t, filters[t]));
        assert(entries[i].0 == t);
    }
    assert(entries_map(entries) =~= filters);
}

pub(crate) proof fn lemma_entries_len(entries: Seq<(u32, PostingFilter)>)
    requires
        forall|i: int, j: int|
            0 <= i < j < entries.len() ==> (#[trigger] entries[i]).0 < (#[trigger] entries[j]).0,
    ensures
        entries_map(entries).dom().finite(),
        entries_map(entries).len() == entries.len(),
    decreases entries.len(),
{
    if entries.len() > 0 {
        let prev = entries.drop_last();
        assert forall|i: int, j: int| 0 <= i < j < prev.len() implies (#[trigger] prev[i]).0 < (
        #[trigger] prev[j]).0 by {
            assert(prev[i] == entries[i] && prev[j] == entries[j]);
        }
        lemma_entries_len(prev);
        lemma_entries_map_members(prev, entries.last().0);
        assert(!entries_map(prev).contains_key(entries.last().0)) by {
            if entries_map(prev).contains_key(entries.last().0) {
                let i = choose|i: int|
                    0 <= i < prev.len() && (#[trigger] prev[i]).0 == entries.last().0;
                assert(entries[i].0 < entries[entries.len() - 1].0);
            }
        }
    }
}

impl SearchIndex {
    /// A file with its postings, under a new id. The path's earlier file, if any, keeps its slot.
    pub fn index_prepared_new_file(&mut self, path: &SearchPath, file: &PreparedIndexedFile) -> (
        added: bool)
        requires
            old(self).well_formed(),
        ensures
            final(self).well_formed(),
            final(self).same_settings(*old(self)),
            added == (old(self).current.files@.len() <= u32::MAX),
            added ==> {
                &&& final(self).current@ == with_file(
                    old(self).current@,
                    path@,
                    file.metadata,
                    file.content_hash@,
                    file.trigram_map@,
                )
                &&& final(self).ledger() == ledger_with(
                    old(self).ledger(),
                    old(self).current@.files.len() as u32,
                    path@,
                    file.trigram_map@,
                )
                &&& stays_in_step(old(self).ledger(), final(self).ledger())
                &&& total(lengths(final(self).ledger().file_trigrams)) == total(
                    lengths(old(self).ledger().file_trigrams),
                ) + file.trigram_map@.len()
            },
            !added ==> *final(self) == *old(self),
            old(self).current@.all_listed() && !old(self).current@.ids.contains_key(path@)
                ==> final(self).current@.all_listed(),
    {
        broadcast use vstd::std_specs::hash::group_hash_axioms;

        let ghost start = *self;
        let file_id: u32 = match self.allocate_file_id_with_metadata(
            path,
            file.metadata,
            file.content_hash,
        ) {
            Some(file_id) => file_id,
            None => {
                return false;
            },
        };
        let entries = sorted_entries(&file.trigram_map);
        let ghost lists = list_views(start.current.delta.postings@);
        let ghost allocated = *self;
        let mut file_trigrams: Vec<u32> = Vec::new();
        let mut i: usize = 0;
        proof {
            assert(entries@.take(0) =~= Seq::empty());
            assert(lists_with(lists, file_id, Map::empty()) =~= lists);
        }
        while i < entries.len()
            invariant
                lists == list_views(start.current.delta.postings@),
                start.well_formed(),
                file_id == start.current.files@.len(),
                lists_entries(entries@, file.trigram_map@),
                i <= entries@.len(),
                file_trigrams@.len() == i,
                forall|k: int| 0 <= k < i ==> #[trigger] file_trigrams@[k] == entries@[k].0,
                list_views(self.current.delta.postings@) == lists_with(
                    lists,
                    file_id,
                    entries_map(entries@.take(i as int)),
                ),
                self.only_current_changed(allocated),
                self.current.base == allocated.current.base,
                self.current.delta.superseded == allocated.current.delta.superseded,
                self.current.files == allocated.current.files,
                self.current.path_to_id == allocated.current.path_to_id,
                self.current.ready == allocated.current.ready,
                self.current.project_root == allocated.current.project_root,
                self.current.file_trigram_count == allocated.current.file_trigram_count,
                self.current.unindexed_files == allocated.current.unindexed_files,
            decreases entries@.len() - i,
        {
            let (trigram, filter) = entries[i];
            let posting = Posting {
                file_id,
                next_mask: filter.next_mask,
                loc_mask: filter.loc_mask,
            };
            let ghost mid = list_views(self.current.delta.postings@);
            proof {
                let done = entries@.take(i as int);
                assert forall|a: int, b: int| 0 <= a < b < done.len() implies (
                #[trigger] done[a]).0 < (#[trigger] done[b]).0 by {
                    assert(done[a] == entries@[a] && done[b] == entries@[b]);
                }
                lemma_entries_map_members(done, trigram);
                assert(!entries_map(done).contains_key(trigram)) by {
                    if entries_map(done).contains_key(trigram) {
                        let k = choose|k: int|
                            0 <= k < done.len() && (#[trigger] done[k]).0 == trigram;
                        assert(entries@[k].0 < entries@[i as int].0);
                    }
                }
                if self.current.delta.postings@.contains_key(trigram) {
                    assert(mid.contains_key(trigram));
                    assert(lists.contains_key(trigram));
                    assert(mid[trigram] == lists[trigram]);
                    assert(start.current.delta.postings@.contains_key(trigram));
                    assert(self.current.delta.list(trigram)
                        == start.current.delta.postings@[trigram]@);
                } else {
                    assert(!mid.contains_key(trigram));
                    assert(!lists.contains_key(trigram));
                }
                assert(entries@.take(i + 1).drop_last() =~= done);
                assert(entries@.take(i + 1).last() == entries@[i as int]);
                assert(entries_map(entries@.take(i + 1)) == entries_map(done).insert(
                    trigram,
                    filter,
                ));
            }
            let ghost list = self.current.delta.list(trigram);
            self.add_posting(trigram, posting);
            file_trigrams.push(trigram);
            i += 1;
            proof {
                assert(list_views(self.current.delta.postings@) == mid.insert(
                    trigram,
                    list.push(posting),
                ));
                assert(list_views(self.current.delta.postings@) =~= lists_with(
                    lists,
                    file_id,
                    entries_map(entries@.take(i as int)),
                ));
            }
        }
        let count: usize = file_trigrams.len();
        proof {
            assert(entries@.take(i as int) =~= entries@);
            lemma_entries_map(entries@, file.trigram_map@);
            lemma_entries_len(entries@);
        }
        self.delta_packed_bytes = self.delta_packed_bytes.saturating_add(packed_len(count));
        let ghost trigrams = file_trigrams@;
        self.delta_file_trigrams.insert(file_id, file_trigrams);
        self.current.file_trigram_count.set(file_id as usize, count as u32);
        self.current.unindexed_files.remove(&file_id);
        let delta_files: usize = self.delta_file_trigrams.len();
        self.compaction.note_change(path, delta_files, self.delta_packed_bytes);
        proof {
            let after = self.current.delta.postings@;
            let before = start.current.delta.postings@;
            assert(list_views(after) == lists_with(lists, file_id, file.trigram_map@));
            assert(file_views(allocated.current.files@).len() == file_id + 1);
            assert(self.current.files@.len() == file_id + 1);
            assert forall|t: u32| #[trigger] after.contains_key(t) implies after[t]@
                == lists_with(lists, file_id, file.trigram_map@)[t] && (before.contains_key(t)
                || file.trigram_map@.contains_key(t)) by {
                assert(list_views(after).contains_key(t));
                assert(list_views(after)[t] == after[t]@);
            }
            assert(delta_lists_sound(after, self.current.files@.len() as int)) by {
                assert forall|t: u32| #[trigger] after.contains_key(t) implies {
                    &&& after[t]@.len() > 0
                    &&& ascending_postings(after[t]@)
                    &&& forall|k: int|
                        0 <= k < after[t]@.len() ==> (#[trigger] after[t]@[k]).file_id
                            < self.current.files@.len()
                } by {
                    let list = if before.contains_key(t) {
                        before[t]@
                    } else {
                        Seq::empty()
                    };
                    if before.contains_key(t) {
                        assert(lists[t] == before[t]@);
                    } else {
                        assert(!lists.contains_key(t));
                    }
                    assert forall|k: int| 0 <= k < list.len() implies (#[trigger] list[k]).file_id
                        < file_id by {
                        assert(before[t]@[k].file_id < start.current.files@.len());
                    }
                    assert forall|k: int| 0 <= k < list.len() implies #[trigger] after[t]@[k]
                        == list[k] by {}
                    assert forall|a: int, b: int| 0 <= a < b < after[t]@.len() implies (
                    #[trigger] after[t]@[a]).file_id < (#[trigger] after[t]@[b]).file_id by {
                        assert(after[t]@[a] == list[a]);
                        if b < list.len() {
                            assert(list[a].file_id < list[b].file_id);
                        }
                    }
                }
            }
            assert(strictly_ascending(trigrams)) by {
                assert forall|a: int, b: int| 0 <= a < b < trigrams.len() implies #[trigger] trigrams[a]
                    < #[trigger] trigrams[b] by {
                    assert(entries@[a].0 < entries@[b].0);
                }
            }
            assert(delta_complete(
                after,
                self.delta_file_trigrams@,
                self.current.files@.len() as int,
            )) by {
                let recorded = self.delta_file_trigrams@;
                assert forall|id: u32, k: int|
                    recorded.contains_key(id) && 0 <= k < recorded[id]@.len() implies after.contains_key(
                    #[trigger] recorded[id]@[k],
                ) && holds_file(after[recorded[id]@[k]]@, id) by {
                    let t = recorded[id]@[k];
                    if id == file_id {
                        assert(t == entries@[k].0);
                        assert(entries@.contains(entries@[k]));
                        assert(file.trigram_map@.contains_key(t));
                        assert(lists_with(lists, file_id, file.trigram_map@).contains_key(t));
                        assert(list_views(after).contains_key(t));
                        assert(after[t]@.last().file_id == file_id);
                        assert(after[t]@[after[t]@.len() - 1].file_id == file_id);
                    } else {
                        assert(start.delta_file_trigrams@.contains_key(id));
                        assert(start.delta_file_trigrams@[id]@[k] == t);
                        let m = choose|m: int|
                            0 <= m < before[t]@.len() && (#[trigger] before[t]@[m]).file_id == id;
                        assert(lists.contains_key(t) && lists[t] == before[t]@);
                        assert(lists_with(lists, file_id, file.trigram_map@).contains_key(t));
                        assert(list_views(after).contains_key(t));
                        assert(after[t]@[m] == before[t]@[m]);
                    }
                }
            }
            assert(delta_recorded(after, self.delta_file_trigrams@)) by {
                assert forall|t: u32, k: int|
                    #![trigger after[t]@[k]]
                    after.contains_key(t) && 0 <= k < after[t]@.len() implies {
                    let id = after[t]@[k].file_id;
                    self.delta_file_trigrams@.contains_key(id)
                        && self.delta_file_trigrams@[id]@.contains(t)
                } by {
                    let list = if before.contains_key(t) {
                        before[t]@
                    } else {
                        Seq::empty()
                    };
                    if before.contains_key(t) {
                        assert(lists[t] == before[t]@);
                    }
                    if k < list.len() {
                        assert(after[t]@[k] == before[t]@[k]);
                        let id = before[t]@[k].file_id;
                        assert(start.delta_file_trigrams@.contains_key(id));
                        assert(id < start.current.files@.len());
                    } else {
                        assert(file.trigram_map@.contains_key(t));
                        let m = entries@.index_of((t, file.trigram_map@[t]));
                        assert(trigrams[m] == t);
                    }
                }
            }
            assert(self.current@.file_trigram_count =~= padded(
                start.current@.file_trigram_count,
                file_id as int,
            ).update(file_id as int, file.trigram_map@.len() as u32));
            lemma_key_list(file.trigram_map@);
            assert forall|t: u32|
                trigrams.contains(t) <==> key_list(file.trigram_map@).contains(t) by {
                if trigrams.contains(t) {
                    let m = trigrams.index_of(t);
                    assert(entries@.contains(entries@[m]));
                }
                if file.trigram_map@.contains_key(t) {
                    let m = entries@.index_of((t, file.trigram_map@[t]));
                    assert(trigrams[m] == t);
                }
            }
            lemma_ascending_lists_are_determined(trigrams, key_list(file.trigram_map@));
            assert(self.ledger().file_trigrams =~= start.ledger().file_trigrams.insert(
                file_id,
                key_list(file.trigram_map@),
            ));
            assert(self.ledger().file_trigrams.dom() =~= self.delta_file_trigrams@.dom());
            assert(start.ledger().file_trigrams.dom() =~= start.delta_file_trigrams@.dom());
            assert(!start.delta_file_trigrams@.contains_key(file_id));
            lemma_addition_stays_in_step(start.ledger(), file_id, path@, file.trigram_map@);
            lemma_same_files_stay_listed(allocated.current@, self.current@);
        }
        true
    }
}

pub open spec fn saturated(total: int) -> int {
    if total > usize::MAX {
        usize::MAX as int
    } else {
        total
    }
}


// ---------------------------------------------------------------------------------------------
// Removing files
// ---------------------------------------------------------------------------------------------

pub proof fn lemma_without_absent_file(postings: Seq<Posting>, file_id: u32)
    requires
        !holds_file(postings, file_id),
    ensures
        without_file(postings, file_id) == postings,
    decreases postings.len(),
{
    reveal(Seq::filter);
    if postings.len() > 0 {
        let prev = postings.drop_last();
        assert forall|i: int| 0 <= i < prev.len() implies (#[trigger] prev[i]).file_id
            != file_id by {
            assert(prev[i] == postings[i]);
        }
        lemma_without_absent_file(prev, file_id);
        assert(postings.last() == postings[postings.len() - 1]);
        assert(prev.push(postings.last()) =~= postings);
    }
    assert(without_file(postings, file_id) =~= postings);
}

pub(crate) proof fn lemma_without_keeps_others(postings: Seq<Posting>, file_id: u32, at: int)
    requires
        0 <= at < postings.len(),
        postings[at].file_id != file_id,
    ensures
        without_file(postings, file_id).contains(postings[at]),
    decreases postings.len(),
{
    reveal(Seq::filter);
    let prev = postings.drop_last();
    let kept = without_file(postings, file_id);
    if at == postings.len() - 1 {
        assert(kept.last() == postings[at]);
    } else {
        lemma_without_keeps_others(prev, file_id, at);
        assert(prev[at] == postings[at]);
        let k = without_file(prev, file_id).index_of(postings[at]);
        assert(kept[k] == postings[at]);
    }
}

pub proof fn lemma_without_file_members(postings: Seq<Posting>, file_id: u32)
    ensures
        forall|i: int|
            0 <= i < without_file(postings, file_id).len() ==> postings.contains(
                #[trigger] without_file(postings, file_id)[i],
            ) && without_file(postings, file_id)[i].file_id != file_id,
        ascending_postings(postings) ==> ascending_postings(without_file(postings, file_id)),
    decreases postings.len(),
{
    reveal(Seq::filter);
    if postings.len() > 0 {
        let prev = postings.drop_last();
        let last = postings.last();
        lemma_without_file_members(prev, file_id);
        let kept = without_file(postings, file_id);
        let earlier = without_file(prev, file_id);
        assert(last == postings[postings.len() - 1]);
        assert forall|i: int| 0 <= i < kept.len() implies postings.contains(#[trigger] kept[i])
            && kept[i].file_id != file_id by {
            if i < earlier.len() {
                assert(kept[i] == earlier[i]);
                let k = prev.index_of(earlier[i]);
                assert(postings[k] == earlier[i]);
            }
        }
        if ascending_postings(postings) {
            assert forall|i: int, j: int| 0 <= i < j < prev.len() implies (
            #[trigger] prev[i]).file_id < (#[trigger] prev[j]).file_id by {
                assert(prev[i] == postings[i] && prev[j] == postings[j]);
            }
            assert forall|i: int, j: int| 0 <= i < j < kept.len() implies (
            #[trigger] kept[i]).file_id < (#[trigger] kept[j]).file_id by {
                if j < earlier.len() {
                    assert(kept[i] == earlier[i] && kept[j] == earlier[j]);
                } else {
                    assert(kept[i] == earlier[i]);
                    let k = prev.index_of(earlier[i]);
                    assert(postings[k].file_id < postings[postings.len() - 1].file_id);
                }
            }
        }
    }
}

/// The posting lists without a file, done for the trigrams in `done` only.
pub open spec fn lists_without_in(
    lists: Map<u32, Seq<Posting>>,
    file_id: u32,
    done: Seq<u32>,
) -> Map<u32, Seq<Posting>> {
    Map::new(
        |t: u32|
            lists.contains_key(t) && (done.contains(t) ==> without_file(lists[t], file_id).len()
                > 0),
        |t: u32|
            if done.contains(t) {
                without_file(lists[t], file_id)
            } else {
                lists[t]
            },
    )
}

proof fn lemma_without_file_twice(postings: Seq<Posting>, file_id: u32)
    ensures
        without_file(without_file(postings, file_id), file_id) == without_file(
            postings,
            file_id,
        ),
{
    lemma_without_file_members(postings, file_id);
    lemma_without_absent_file(without_file(postings, file_id), file_id);
}

impl SearchIndex {
    /// Takes the file out of the posting lists of `trigrams`.
    fn drop_postings(
        postings: &mut HashMap<u32, Vec<Posting>>,
        trigrams: &Vec<u32>,
        file_id: u32,
    )
        ensures
            list_views(final(postings)@) == lists_without_in(
                list_views(old(postings)@),
                file_id,
                trigrams@,
            ),
    {
        broadcast use vstd::std_specs::hash::group_hash_axioms;

        let ghost lists = list_views(postings@);
        let mut i: usize = 0;
        assert(lists_without_in(lists, file_id, trigrams@.take(0)) =~= lists);
        while i < trigrams.len()
            invariant
                lists == list_views(old(postings)@),
                i <= trigrams@.len(),
                list_views(postings@) == lists_without_in(
                    lists,
                    file_id,
                    trigrams@.take(i as int),
                ),
            decreases trigrams@.len() - i,
        {
            let trigram: u32 = trigrams[i];
            let ghost mid = list_views(postings@);
            let ghost done = trigrams@.take(i as int);
            let ghost next = trigrams@.take(i + 1);
            proof {
                assert forall|t: u32| next.contains(t) == (done.contains(t) || t == trigram) by {
                    if done.contains(t) {
                        let k = done.index_of(t);
                        assert(next[k] == t);
                    }
                    assert(next[i as int] == trigram);
                    if next.contains(t) && t != trigram {
                        let k = next.index_of(t);
                        assert(done[k] == t);
                    }
                }
            }
            match postings.remove(&trigram) {
                Some(list) => {
                    let kept = retain_other_files(&list, file_id);
                    proof {
                        assert(mid.contains_key(trigram) && mid[trigram] == list@);
                        lemma_without_file_twice(lists[trigram], file_id);
                        assert(kept@ == without_file(lists[trigram], file_id));
                    }
                    let ghost kept_list = kept@;
                    assert(list_views(postings@) =~= mid.remove(trigram));
                    if kept.len() > 0 {
                        postings.insert(trigram, kept);
                        assert(list_views(postings@) =~= mid.insert(trigram, kept_list));
                    }
                    proof {
                        let target = lists_without_in(lists, file_id, next);
                        assert forall|t: u32|
                            list_views(postings@).contains_key(t) == target.contains_key(t) by {
                            assert(next.contains(t) == (done.contains(t) || t == trigram));
                        }
                        assert forall|t: u32| target.contains_key(t) implies list_views(
                            postings@,
                        )[t] == target[t] by {
                            assert(next.contains(t) == (done.contains(t) || t == trigram));
                        }
                        assert(list_views(postings@) =~= target);
                    }
                },
                None => {
                    assert(!mid.contains_key(trigram));
                    assert(list_views(postings@) =~= mid);
                    assert(list_views(postings@) =~= lists_without_in(lists, file_id, next));
                },
            }
            i += 1;
        }
        assert(trigrams@.take(i as int) =~= trigrams@);
    }

    /// Takes a file out of the index. The path counts as given or, where the table does not hold
    /// it so, in its canonical form.
    pub fn remove_file(&mut self, path: &SearchPath, canonical_path: &SearchPath)
        requires
            old(self).well_formed(),
        ensures
            final(self).well_formed(),
            final(self).same_settings(*old(self)),
            final(self).current@ == after_removal(
                old(self).current@,
                old(self).base_file_count,
                path@,
                canonical_path@,
            ),
            final(self).ledger() == ledger_without(
                old(self).ledger(),
                old(self).current@.ids,
                path@,
                canonical_path@,
            ),
            in_step(old(self).ledger()) ==> in_step(final(self).ledger()),
            old(self).current@.all_listed() ==> final(self).current@.all_listed(),
    {
        broadcast use vstd::std_specs::hash::group_hash_axioms;

        let ghost start = *self;
        proof {
            lemma_paths_are_distinct(start.current);
            if start.current@.all_listed() {
                lemma_removal_keeps_files_listed(
                    start.current@,
                    start.base_file_count,
                    path@,
                    canonical_path@,
                );
            }
            assert(start.ledger().file_trigrams.dom() =~= start.delta_file_trigrams@.dom());
            if in_step(start.ledger()) {
                lemma_removal_stays_in_step(
                    start.ledger(),
                    start.current@.ids,
                    path@,
                    canonical_path@,
                );
            }
        }
        let found: Option<u32> = match self.current.path_to_id.remove(path) {
            Some(file_id) => Some(file_id),
            None => self.current.path_to_id.remove(canonical_path),
        };
        let ghost key = table_key(start.current@.ids, path@, canonical_path@);
        let file_id: u32 = match found {
            Some(file_id) => file_id,
            None => {
                proof {
                    assert(start.current@.ids.remove(path@) =~= start.current@.ids);
                    assert(start.current@.ids.remove(canonical_path@) =~= start.current@.ids);
                }
                return ;
            },
        };
        proof {
            assert(key is Some);
            assert(file_id == start.current@.ids[key->0]);
            assert(start.current.path_to_id@.contains_key(key->0));
            assert(start.current@.ids.remove(path@).remove(canonical_path@)
                =~= start.current@.ids.remove(canonical_path@)
                || start.current@.ids.contains_key(path@));
            assert(self.current@.ids =~= start.current@.ids.remove(key->0));
        }
        if file_id < self.base_file_count {
            self.current.delta.superseded.insert(file_id);
        }
        let ghost lists = list_views(start.current.delta.postings@);
        match self.delta_file_trigrams.remove(&file_id) {
            Some(trigrams) => {
                self.delta_packed_bytes = self.delta_packed_bytes.saturating_sub(
                    packed_len(trigrams.len()),
                );
                SearchIndex::drop_postings(
                    &mut self.current.delta.postings,
                    &trigrams,
                    file_id,
                );
                proof {
                    assert forall|t: u32|
                        lists.contains_key(t) && !trigrams@.contains(t) implies !holds_file(
                        #[trigger] lists[t],
                        file_id,
                    ) by {
                        if holds_file(lists[t], file_id) {
                            let k = choose|k: int|
                                0 <= k < lists[t].len() && (#[trigger] lists[t][k]).file_id
                                    == file_id;
                            assert(start.current.delta.postings@[t]@[k].file_id == file_id);
                        }
                    }
                    lemma_lists_without_done(lists, file_id, trigrams@);
                }
            },
            None => {
                proof {
                    assert(self.delta_file_trigrams@ =~= start.delta_file_trigrams@.remove(
                        file_id,
                    ));
                    assert forall|t: u32| lists.contains_key(t) implies !holds_file(
                        #[trigger] lists[t],
                        file_id,
                    ) by {
                        if holds_file(lists[t], file_id) {
                            let k = choose|k: int|
                                0 <= k < lists[t].len() && (#[trigger] lists[t][k]).file_id
                                    == file_id;
                            assert(start.current.delta.postings@[t]@[k].file_id == file_id);
                        }
                    }
                    assert(lists_without_in(lists, file_id, Seq::empty()) =~= lists);
                    lemma_lists_without_done(lists, file_id, Seq::empty());
                }
            },
        }
        self.current.unindexed_files.remove(&file_id);
        let slot: usize = file_id as usize;
        let entry = FileEntry::free();
        self.current.files.set(slot, entry);
        if slot < self.current.file_trigram_count.len() {
            self.current.file_trigram_count.set(slot, 0);
        }
        let delta_files: usize = self.delta_file_trigrams.len();
        self.compaction.note_change(path, delta_files, self.delta_packed_bytes);
        proof {
            let after = self.current;
            assert(after@.files =~= start.current@.files.update(slot as int, free_slot()));
            assert(list_views(after.delta.postings@) == lists_without(lists, file_id));
            assert forall|p: PathKey| #[trigger]
                after.path_to_id@.contains_key(p) implies after.path_to_id@[p] < after.files@.len()
                && after.files@[after.path_to_id@[p] as int].path@ == p by {
                assert(start.current.path_to_id@.contains_key(p));
                assert(p != key->0);
                assert(start.current@.ids[p] != start.current@.ids[key->0]);
            }
            lemma_removal_keeps_delta(start, after.delta.postings@, file_id);
            assert(self.ledger().file_trigrams =~= start.ledger().file_trigrams.remove(file_id));
            assert(self.ledger().file_trigrams.dom() =~= self.delta_file_trigrams@.dom());
        }
    }
}

pub(crate) proof fn lemma_lists_without_done(lists: Map<u32, Seq<Posting>>, file_id: u32, done: Seq<u32>)
    requires
        forall|t: u32|
            lists.contains_key(t) && !done.contains(t) ==> !holds_file(#[trigger] lists[t], file_id),
        forall|t: u32| lists.contains_key(t) ==> (#[trigger] lists[t]).len() > 0,
    ensures
        lists_without_in(lists, file_id, done) == lists_without(lists, file_id),
{
    assert forall|t: u32| lists.contains_key(t) && !done.contains(t) implies without_file(
        #[trigger] lists[t],
        file_id,
    ) == lists[t] by {
        lemma_without_absent_file(lists[t], file_id);
    }
    assert(lists_without_in(lists, file_id, done) =~= lists_without(lists, file_id));
}

/// Taking a file out of the lists leaves them sound, and leaves the others' postings recorded.
proof fn lemma_removal_keeps_delta(
    start: SearchIndex,
    after: Map<u32, Vec<Posting>>,
    file_id: u32,
)
    requires
        start.well_formed(),
        list_views(after) == lists_without(list_views(start.current.delta.postings@), file_id),
    ensures
        delta_lists_sound(after, start.current.files@.len() as int),
        delta_recorded(after, start.delta_file_trigrams@.remove(file_id)),
        delta_complete(
            after,
            start.delta_file_trigrams@.remove(file_id),
            start.current.files@.len() as int,
        ),
{
    let before = start.current.delta.postings@;
    let lists = list_views(before);
    assert forall|t: u32| #[trigger] after.contains_key(t) implies {
        &&& before.contains_key(t)
        &&& after[t]@ == without_file(before[t]@, file_id)
        &&& after[t]@.len() > 0
    } by {
        assert(list_views(after).contains_key(t));
        assert(list_views(after)[t] == after[t]@);
        assert(lists[t] == before[t]@);
    }
    assert forall|t: u32| #[trigger] after.contains_key(t) implies {
        &&& after[t]@.len() > 0
        &&& ascending_postings(after[t]@)
        &&& forall|k: int|
            0 <= k < after[t]@.len() ==> (#[trigger] after[t]@[k]).file_id
                < start.current.files@.len()
    } by {
        lemma_without_file_members(before[t]@, file_id);
        assert forall|k: int| 0 <= k < after[t]@.len() implies (#[trigger] after[t]@[k]).file_id
            < start.current.files@.len() by {
            let m = before[t]@.index_of(after[t]@[k]);
            assert(before[t]@[m] == after[t]@[k]);
        }
    }
    let recorded = start.delta_file_trigrams@.remove(file_id);
    assert forall|t: u32, k: int|
        #![trigger after[t]@[k]]
        after.contains_key(t) && 0 <= k < after[t]@.len() implies {
        let id = after[t]@[k].file_id;
        recorded.contains_key(id) && recorded[id]@.contains(t)
    } by {
        lemma_without_file_members(before[t]@, file_id);
        let m = before[t]@.index_of(after[t]@[k]);
        assert(before[t]@[m] == after[t]@[k]);
    }
    assert forall|id: u32, k: int|
        recorded.contains_key(id) && 0 <= k < recorded[id]@.len() implies after.contains_key(
        #[trigger] recorded[id]@[k],
    ) && holds_file(after[recorded[id]@[k]]@, id) by {
        let t = recorded[id]@[k];
        assert(start.delta_file_trigrams@.contains_key(id));
        assert(start.delta_file_trigrams@[id]@[k] == t);
        let m = choose|m: int|
            0 <= m < before[t]@.len() && (#[trigger] before[t]@[m]).file_id == id;
        lemma_without_keeps_others(before[t]@, file_id, m);
        let kept = without_file(before[t]@, file_id);
        let n = kept.index_of(before[t]@[m]);
        assert(kept[n].file_id == id);
        assert(lists_without(lists, file_id).contains_key(t));
        assert(list_views(after).contains_key(t));
        assert(list_views(after)[t] == kept);
    }
}


// ---------------------------------------------------------------------------------------------
// Reading
// ---------------------------------------------------------------------------------------------

impl SearchIndex {
    /// The current version, which later changes do not reach.
    pub fn snapshot(&self) -> (snapshot: SearchIndexSnapshot)
        requires
            self.well_formed(),
        ensures
            snapshot@ == self.current@,
            snapshot.well_formed(),
    {
        self.current.duplicate()
    }

    /// Number of indexed files. Slots that are free do not count.
    pub fn file_count(&self) -> (count: usize)
        ensures
            count == files_in_use(self.current@.files),
    {
        let ghost files = self.current@.files;
        let mut count: usize = 0;
        let mut i: usize = 0;
        assert(files.take(0) =~= Seq::<FileView>::empty());
        while i < self.current.files.len()
            invariant
                files == self.current@.files,
                i <= self.current.files@.len(),
                count <= i,
                count == files_in_use(files.take(i as int)),
            decreases self.current.files@.len() - i,
        {
            proof {
                let next = files.take(i + 1);
                assert(next.drop_last() =~= files.take(i as int));
                assert(next.last() == self.current.files@[i as int]@);
            }
            if !self.current.files[i].path.is_empty() {
                count += 1;
            }
            i += 1;
        }
        assert(files.take(i as int) =~= files);
        count
    }

    /// The commit that the index was last brought up to.
    pub fn stored_git_head(&self) -> (head: Option<&str>)
        ensures
            match head {
                Some(head) => self.git_head is Some && head@ == self.git_head->0@,
                None => self.git_head is None,
            },
    {
        match &self.git_head {
            Some(head) => Some(head.as_str()),
            None => None,
        }
    }

    pub fn configured_max_file_size(&self) -> (size: u64)
        ensures
            size == self.max_file_size,
    {
        self.max_file_size
    }

    pub fn set_ready(&mut self, ready: bool)
        ensures
            final(self).current@ == (SnapshotView { ready, ..old(self).current@ }),
            old(self).well_formed() ==> final(self).well_formed(),
            final(self).only_current_changed(*old(self)),
            old(self).current@.all_listed() ==> final(self).current@.all_listed(),
    {
        self.current.ready = ready;
        assert(old(self).current@.all_listed() ==> self.current@.all_listed()) by {
            lemma_same_files_stay_listed(old(self).current@, self.current@);
        }
    }

    /// The index of a root that may not write the shared cache: empty, and settled.
    pub fn denied(root: &SearchPath, max_file_size: u64) -> (index: SearchIndex)
        ensures
            index.well_formed(),
            index.current@.all_listed(),
            index.build_denied,
            index.max_file_size == max_file_size,
            index.git_head is None,
            index.base_file_count == 0,
            index.current@ == (SnapshotView {
                base: None,
                postings: Map::empty(),
                superseded: Set::empty(),
                files: Seq::empty(),
                ids: Map::empty(),
                ready: false,
                project_root: root@,
                file_trigram_count: Seq::empty(),
                unindexed: Set::empty(),
            }),
    {
        let mut index = SearchIndex::new();
        index.current.project_root = root.duplicate();
        index.max_file_size = max_file_size;
        index.build_denied = true;
        index
    }
}

} // verus!
