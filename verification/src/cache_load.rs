//! From a cache file to an index.

use crate::cache_read::text_option;
use crate::cache_read::ParsedCache;
use crate::cache_read::ParsedFile;
use crate::cache_read::ParsedFileView;
use crate::file_entry::FileEntry;
use crate::file_entry::FileView;
use crate::index::CompactionState;
use crate::index::CompactionView;
use crate::index::SearchIndex;
use crate::path::PathKey;
use crate::path::SearchPath;
use crate::path_table::PathTable;
use crate::path_text::accepted_path;
use crate::path_text::cached_path_under_root;
use crate::path_text::PathProbe;
use crate::snapshot::DeltaState;
use crate::snapshot::SearchIndexSnapshot;
use crate::snapshot::SnapshotView;
use std::collections::HashMap;
use std::collections::HashSet;
use vstd::prelude::*;

verus! {

/// What happens to a cache file that was written under other ignore rules.
#[derive(Clone, Copy, Debug, PartialEq, Eq, Structural)]
pub enum IgnoreRulesLoadPolicy {
    /// The file is not used.
    Strict,
    /// The file is used, and the difference is reported.
    BorrowTolerant,
}

/// The full paths of the first `count` files with their ids; of two files with one path the later
/// one is kept.
pub open spec fn loaded_ids(paths: Seq<PathKey>, count: int) -> Map<PathKey, u32>
    decreases count,
{
    if count <= 0 {
        Map::empty()
    } else {
        loaded_ids(paths, count - 1).insert(paths[count - 1], (count - 1) as u32)
    }
}

/// The full path of file `i`, where it may be used.
pub open spec fn loaded_path(
    root: PathKey,
    files: Seq<ParsedFile>,
    probes: Seq<PathProbe>,
    i: int,
) -> Option<PathKey> {
    accepted_path(root, files[i].path@, probes[i])
}

pub open spec fn loaded_paths(
    root: PathKey,
    files: Seq<ParsedFile>,
    probes: Seq<PathProbe>,
) -> Seq<PathKey> {
    Seq::new(files.len(), |i: int| loaded_path(root, files, probes, i)->0)
}

pub open spec fn loaded_file(file: ParsedFileView, path: PathKey) -> FileView {
    FileView {
        path,
        size: file.size,
        modified: file.modified,
        content_hash: file.content_hash,
    }
}

/// The index that a cache file stands for.
pub open spec fn loaded_view(
    parsed: ParsedCache,
    root: PathKey,
    probes: Seq<PathProbe>,
) -> SnapshotView {
    let paths = loaded_paths(root, parsed.files@, probes);
    SnapshotView {
        base: Some(parsed.base@),
        postings: Map::empty(),
        superseded: Set::empty(),
        files: Seq::new(
            parsed.files@.len(),
            |i: int| loaded_file(parsed.files@[i]@, paths[i]),
        ),
        ids: loaded_ids(paths, paths.len() as int),
        ready: false,
        project_root: root,
        file_trigram_count: parsed.file_trigram_count@,
        unindexed: Set::new(
            |id: u32| id < parsed.files@.len() && parsed.files@[id as int].unindexed,
        ),
    }
}

/// The cache file may be used: its ignore rules do not stand against it, and no file of it leads
/// out of the root.
pub open spec fn loadable(
    parsed: ParsedCache,
    root: PathKey,
    probes: Seq<PathProbe>,
    fingerprint: Seq<char>,
    policy: IgnoreRulesLoadPolicy,
) -> bool {
    &&& parsed.ignore_fingerprint@ == fingerprint || policy
        == IgnoreRulesLoadPolicy::BorrowTolerant
    &&& forall|i: int|
        0 <= i < parsed.files@.len() ==> (#[trigger] loaded_path(
            root,
            parsed.files@,
            probes,
            i,
        )) is Some
}

proof fn lemma_loaded_ids(paths: Seq<PathKey>, count: int)
    requires
        0 <= count <= paths.len(),
        count <= u32::MAX,
    ensures
        loaded_ids(paths, count).dom().finite(),
        loaded_ids(paths, count).len() <= count,
        forall|p: PathKey| #[trigger]
            loaded_ids(paths, count).contains_key(p) ==> loaded_ids(paths, count)[p] < count
                && paths[loaded_ids(paths, count)[p] as int] == p,
        paths.no_duplicates() ==> forall|i: int|
            0 <= i < count ==> loaded_ids(paths, count).contains_key(#[trigger] paths[i])
                && loaded_ids(paths, count)[paths[i]] == i,
    decreases count,
{
    if count > 0 {
        lemma_loaded_ids(paths, count - 1);
    }
}

/// The index that a cache file stands for, and whether it was written under other ignore rules.
/// `probes` holds what the disk says of each file. Where the file names a path twice, the earlier
/// file of that path counts in searches although no path leads to it.
pub fn load_index(
    parsed: ParsedCache,
    current_root: &SearchPath,
    probes: &Vec<PathProbe>,
    current_fingerprint: String,
    policy: IgnoreRulesLoadPolicy,
) -> (loaded: Option<(SearchIndex, bool)>)
    requires
        parsed.base.well_formed(),
        parsed.files@.len() == probes@.len(),
        parsed.files@.len() <= u32::MAX,
    ensures
        match loaded {
            Some((index, differs)) => {
                &&& loadable(parsed, current_root@, probes@, current_fingerprint@, policy)
                &&& differs == (parsed.ignore_fingerprint@ != current_fingerprint@)
                &&& index.well_formed()
                &&& index.current@ == loaded_view(parsed, current_root@, probes@)
                &&& loaded_paths(current_root@, parsed.files@, probes@).no_duplicates()
                    ==> index.current@.all_listed()
                &&& index.delta_file_trigrams@ == Map::<u32, Vec<u32>>::empty()
                &&& !index.build_denied
                &&& text_option(index.git_head) == text_option(parsed.git_head)
                &&& index.max_file_size == parsed.max_file_size
                &&& index.ignore_rules_fingerprint@ == current_fingerprint@
                &&& index.base_file_count == parsed.files@.len()
                &&& index.delta_packed_bytes == 0
                &&& index.compaction@ == (CompactionView {
                    running: false,
                    requested_again: false,
                    buffered_paths: Seq::empty(),
                })
            },
            None => !loadable(parsed, current_root@, probes@, current_fingerprint@, policy),
        },
{
    broadcast use vstd::std_specs::hash::group_hash_axioms;

    let differs: bool = !(parsed.ignore_fingerprint == current_fingerprint);
    if differs && policy == IgnoreRulesLoadPolicy::Strict {
        return None;
    }
    let ghost paths = loaded_paths(current_root@, parsed.files@, probes@);
    let mut files: Vec<FileEntry> = Vec::with_capacity(parsed.files.len());
    let mut path_to_id = PathTable::new();
    let mut unindexed_files: HashSet<u32> = HashSet::new();
    let mut i: usize = 0;
    while i < parsed.files.len()
        invariant
            parsed.files@.len() == probes@.len(),
            parsed.files@.len() <= u32::MAX,
            paths == loaded_paths(current_root@, parsed.files@, probes@),
            i <= parsed.files@.len(),
            files@.len() == i,
            path_to_id.well_formed(),
            path_to_id@ == loaded_ids(paths, i as int),
            forall|k: int|
                0 <= k < i ==> (#[trigger] loaded_path(
                    current_root@,
                    parsed.files@,
                    probes@,
                    k,
                )) is Some,
            forall|k: int|
                0 <= k < i ==> (#[trigger] files@[k])@ == loaded_file(parsed.files@[k]@, paths[k]),
            forall|id: u32| #[trigger]
                unindexed_files@.contains(id) <==> id < i && parsed.files@[id as int].unindexed,
        decreases parsed.files@.len() - i,
    {
        let file = &parsed.files[i];
        let path = match cached_path_under_root(current_root, &file.path, &probes[i]) {
            Some(path) => path,
            None => {
                assert(loaded_path(current_root@, parsed.files@, probes@, i as int) is None);
                return None;
            },
        };
        proof {
            assert(loaded_path(current_root@, parsed.files@, probes@, i as int) == Some(path@));
            lemma_loaded_ids(paths, i as int);
        }
        let id: u32 = i as u32;
        files.push(
            FileEntry {
                path: path.duplicate(),
                size: file.size,
                modified: file.modified,
                content_hash: file.content_hash,
            },
        );
        path_to_id.insert(path, id);
        if file.unindexed {
            unindexed_files.insert(id);
        }
        i += 1;
    }
    let file_count: u32 = parsed.files.len() as u32;
    let index = SearchIndex {
        current: SearchIndexSnapshot {
            base: Some(parsed.base),
            delta: DeltaState { postings: HashMap::new(), superseded: HashSet::new() },
            files,
            path_to_id,
            ready: false,
            project_root: current_root.duplicate(),
            file_trigram_count: parsed.file_trigram_count,
            unindexed_files,
        },
        delta_file_trigrams: HashMap::new(),
        build_denied: false,
        git_head: parsed.git_head,
        max_file_size: parsed.max_file_size,
        ignore_rules_fingerprint: current_fingerprint,
        base_file_count: file_count,
        delta_packed_bytes: 0,
        compaction: CompactionState::idle(),
    };
    proof {
        let view = loaded_view(parsed, current_root@, probes@);
        lemma_loaded_ids(paths, i as int);
        assert(index.current@.postings =~= view.postings);
        assert(index.current@.files =~= view.files);
        assert(index.current@.unindexed =~= view.unindexed);
        assert(index.compaction@.buffered_paths =~= Seq::empty());
        if paths.no_duplicates() {
            assert forall|id: u32| #[trigger] index.current@.active(id) implies index.current@.listed(
                id,
            ) by {
                let path = paths[id as int];
                assert(index.current@.ids.contains_key(path) && index.current@.ids[path] == id);
            }
        }
    }
    Some((index, differs))
}

} // verus!
