//! From what the disk says of a file to its place in the index.

use crate::file_entry::epoch;
use crate::file_entry::SearchFileMetadata;
use crate::file_entry::Timestamp;
use crate::index::after_removal;
use crate::index::lemma_removal_keeps_files_listed;
use crate::index::with_file;
use crate::index::with_unindexed_file;
use crate::index::PreparedIndexedFile;
use crate::index::SearchIndex;
use crate::ledger::ledger_with;
use crate::ledger::ledger_without;
use crate::ledger::stays_in_step;
use crate::ledger::Ledger;
use crate::outside::blake3_hash;
use crate::outside::hash_bytes;
use crate::outside::inspect_is_binary;
use crate::outside::looks_binary;
use crate::outside::utf8_text;
use crate::path::PathKey;
use crate::path::SearchPath;
use crate::snapshot::SnapshotView;
use crate::tally::lengths;
use crate::tally::total;
use crate::trigram::filter_map;
use crate::trigram::trigram_filter_map;
use crate::trigram::PostingFilter;
use vstd::prelude::*;
use vstd::utf8::decode_utf8;
use vstd::utf8::valid_utf8;

verus! {

/// How much of a file's front is looked at to tell binary content.
pub const PREVIEW_BYTES: usize = 8192;

/// What reading a path gave.
pub struct FileProbe {
    /// Size and time, where the path names a file.
    pub metadata: Option<SearchFileMetadata>,
    /// The front of the file, where it could be read.
    pub preview: Option<Vec<u8>>,
    /// The whole file, where it could be read.
    pub content: Option<Vec<u8>>,
}

/// What becomes of a path.
pub enum PreparedSearchPath {
    Indexed(PreparedIndexedFile),
    Unindexed(SearchFileMetadata),
    Skipped,
}

/// The mathematical counterpart of a `PreparedSearchPath`.
pub enum PreparedView {
    Indexed {
        metadata: SearchFileMetadata,
        content_hash: Seq<u8>,
        filters: Map<u32, PostingFilter>,
    },
    Unindexed(SearchFileMetadata),
    Skipped,
}

impl View for PreparedSearchPath {
    type V = PreparedView;

    open spec fn view(&self) -> PreparedView {
        match self {
            PreparedSearchPath::Indexed(file) => PreparedView::Indexed {
                metadata: file.metadata,
                content_hash: file.content_hash@,
                filters: file.trigram_map@,
            },
            PreparedSearchPath::Unindexed(metadata) => PreparedView::Unindexed(*metadata),
            PreparedSearchPath::Skipped => PreparedView::Skipped,
        }
    }
}

pub open spec fn bytes_option(bytes: Option<Vec<u8>>) -> Option<Seq<u8>> {
    match bytes {
        Some(bytes) => Some(bytes@),
        None => None,
    }
}

/// The front of a file tells that it is binary. An unreadable file counts as binary, an empty one
/// does not.
pub open spec fn preview_is_binary(size: u64, preview: Option<Seq<u8>>) -> bool {
    size > 0 && (preview is None || looks_binary(preview->0))
}

/// The file goes into the index without postings, whatever its content.
pub open spec fn left_unindexed(
    metadata: SearchFileMetadata,
    preview: Option<Seq<u8>>,
    max_file_size: u64,
) -> bool {
    preview_is_binary(metadata.size, preview) || metadata.size > max_file_size
}

/// What content is indexed as.
pub open spec fn indexed_content(metadata: SearchFileMetadata, content: Seq<u8>) -> PreparedView {
    PreparedView::Indexed {
        metadata,
        content_hash: blake3_hash(content),
        filters: filter_map(content, true),
    }
}

/// What becomes of a path: no file is skipped unless it cannot be read; binary and oversized files
/// are kept without postings.
pub open spec fn prepared(
    metadata: Option<SearchFileMetadata>,
    preview: Option<Seq<u8>>,
    content: Option<Seq<u8>>,
    max_file_size: u64,
) -> PreparedView {
    match metadata {
        None => PreparedView::Skipped,
        Some(metadata) => if left_unindexed(metadata, preview, max_file_size) {
            PreparedView::Unindexed(metadata)
        } else {
            match content {
                None => PreparedView::Skipped,
                Some(content) => if looks_binary(content) {
                    PreparedView::Unindexed(metadata)
                } else {
                    indexed_content(metadata, content)
                },
            }
        },
    }
}

pub fn is_binary_bytes(content: &[u8]) -> (binary: bool)
    ensures
        binary == looks_binary(content@),
{
    inspect_is_binary(content)
}

/// How many bytes to read for the preview of a file of `size` bytes.
pub fn preview_len(size: u64) -> (len: usize)
    ensures
        len == (if size < PREVIEW_BYTES {
            size as int
        } else {
            PREVIEW_BYTES as int
        }),
{
    if size < PREVIEW_BYTES as u64 {
        size as usize
    } else {
        PREVIEW_BYTES
    }
}

/// The front of a file tells that it is binary.
pub fn is_binary_path(size: u64, preview: &Option<Vec<u8>>) -> (binary: bool)
    ensures
        binary == preview_is_binary(size, bytes_option(*preview)),
{
    if size == 0 {
        return false;
    }
    match preview {
        Some(preview) => is_binary_bytes(preview.as_slice()),
        None => true,
    }
}

/// The content has to be read to tell what becomes of the file.
pub fn needs_content(
    metadata: SearchFileMetadata,
    preview: &Option<Vec<u8>>,
    max_file_size: u64,
) -> (needed: bool)
    ensures
        needed == !left_unindexed(metadata, bytes_option(*preview), max_file_size),
{
    !(is_binary_path(metadata.size, preview) || metadata.size > max_file_size)
}

/// What becomes of a path.
pub fn prepare_search_path(probe: &FileProbe, max_file_size: u64) -> (result: PreparedSearchPath)
    ensures
        result@ == prepared(
            probe.metadata,
            bytes_option(probe.preview),
            bytes_option(probe.content),
            max_file_size,
        ),
{
    let metadata: SearchFileMetadata = match probe.metadata {
        Some(metadata) => metadata,
        None => {
            return PreparedSearchPath::Skipped;
        },
    };
    if !needs_content(metadata, &probe.preview, max_file_size) {
        return PreparedSearchPath::Unindexed(metadata);
    }
    match &probe.content {
        None => PreparedSearchPath::Skipped,
        Some(content) => {
            if is_binary_bytes(content.as_slice()) {
                PreparedSearchPath::Unindexed(metadata)
            } else {
                PreparedSearchPath::Indexed(
                    PreparedIndexedFile {
                        metadata,
                        content_hash: hash_bytes(content.as_slice()),
                        trigram_map: trigram_filter_map(content.as_slice(), true),
                    },
                )
            }
        },
    }
}

/// The text of a file that can be searched as text.
pub fn searchable_text(content: Vec<u8>) -> (text: Option<String>)
    ensures
        match text {
            Some(text) => !looks_binary(content@) && valid_utf8(content@) && text@ == decode_utf8(
                content@,
            ),
            None => looks_binary(content@) || !valid_utf8(content@),
        },
{
    if is_binary_bytes(content.as_slice()) {
        return None;
    }
    utf8_text(content)
}

/// The index with one more prepared path. Where ids have run out nothing is added.
pub open spec fn added_as(view: SnapshotView, path: PathKey, file: PreparedView) -> SnapshotView {
    if view.files.len() > u32::MAX {
        view
    } else {
        match file {
            PreparedView::Indexed { metadata, content_hash, filters } => with_file(
                view,
                path,
                metadata,
                content_hash,
                filters,
            ),
            PreparedView::Unindexed(metadata) => with_unindexed_file(view, path, metadata),
            PreparedView::Skipped => view,
        }
    }
}

/// What is noted down of one more prepared path.
pub open spec fn noted_as(
    ledger: Ledger,
    view: SnapshotView,
    path: PathKey,
    file: PreparedView,
) -> Ledger {
    if view.files.len() > u32::MAX {
        ledger
    } else {
        match file {
            PreparedView::Indexed { filters, .. } => ledger_with(
                ledger,
                view.files.len() as u32,
                path,
                filters,
            ),
            _ => ledger,
        }
    }
}

/// What is noted down of the first `count` prepared paths, one after the other.
pub open spec fn noted(
    ledger: Ledger,
    view: SnapshotView,
    paths: Seq<PathKey>,
    files: Seq<PreparedView>,
    count: int,
) -> Ledger
    decreases count,
{
    if count <= 0 {
        ledger
    } else {
        noted_as(
            noted(ledger, view, paths, files, count - 1),
            ingested(view, paths, files, count - 1),
            paths[count - 1],
            files[count - 1],
        )
    }
}

/// The path was given a slot.
pub open spec fn gets_slot(view: SnapshotView, file: PreparedView) -> bool {
    view.files.len() <= u32::MAX && !(file is Skipped)
}

/// The index with the first `count` prepared paths, one after the other.
pub open spec fn ingested(
    view: SnapshotView,
    paths: Seq<PathKey>,
    files: Seq<PreparedView>,
    count: int,
) -> SnapshotView
    decreases count,
{
    if count <= 0 {
        view
    } else {
        added_as(ingested(view, paths, files, count - 1), paths[count - 1], files[count - 1])
    }
}

/// How many of the first `count` prepared paths were given a slot.
pub open spec fn ingested_count(
    view: SnapshotView,
    paths: Seq<PathKey>,
    files: Seq<PreparedView>,
    count: int,
) -> int
    decreases count,
{
    if count <= 0 {
        0
    } else {
        ingested_count(view, paths, files, count - 1) + (if gets_slot(
            ingested(view, paths, files, count - 1),
            files[count - 1],
        ) {
            1int
        } else {
            0
        })
    }
}

pub open spec fn path_views(paths: Seq<SearchPath>) -> Seq<PathKey> {
    paths.map_values(|path: SearchPath| path@)
}

pub open spec fn prepared_views(files: Seq<PreparedSearchPath>) -> Seq<PreparedView> {
    files.map_values(|file: PreparedSearchPath| file@)
}

/// The paths differ from one another, and none leads to a file yet.
pub open spec fn all_new(ids: Map<PathKey, u32>, paths: Seq<PathKey>) -> bool {
    &&& paths.no_duplicates()
    &&& forall|i: int| 0 <= i < paths.len() ==> !ids.contains_key(#[trigger] paths[i])
}

/// Adding new paths leaves the later ones new.
proof fn lemma_later_paths_stay_new(
    view: SnapshotView,
    paths: Seq<PathKey>,
    files: Seq<PreparedView>,
    count: int,
    path: PathKey,
)
    requires
        0 <= count <= paths.len(),
        !view.ids.contains_key(path),
        forall|i: int| 0 <= i < count ==> #[trigger] paths[i] != path,
    ensures
        !ingested(view, paths, files, count).ids.contains_key(path),
    decreases count,
{
    if count > 0 {
        lemma_later_paths_stay_new(view, paths, files, count - 1, path);
        assert(paths[count - 1] != path);
    }
}

impl SearchIndex {
    /// Adds a prepared path; says whether it was given a slot.
    pub fn add_prepared(&mut self, path: &SearchPath, file: &PreparedSearchPath) -> (added: bool)
        requires
            old(self).well_formed(),
        ensures
            final(self).well_formed(),
            final(self).same_settings(*old(self)),
            final(self).current@ == added_as(old(self).current@, path@, file@),
            final(self).ledger() == noted_as(
                old(self).ledger(),
                old(self).current@,
                path@,
                file@,
            ),
            stays_in_step(old(self).ledger(), final(self).ledger()),
            total(lengths(final(self).ledger().file_trigrams)) >= total(
                lengths(old(self).ledger().file_trigrams),
            ),
            added == gets_slot(old(self).current@, file@),
            old(self).current@.all_listed() && !old(self).current@.ids.contains_key(path@)
                ==> final(self).current@.all_listed(),
    {
        assert(self.current@.files.len() == self.current.files@.len());
        match file {
            PreparedSearchPath::Indexed(file) => self.index_prepared_new_file(path, file),
            PreparedSearchPath::Unindexed(metadata) => self.track_unindexed_file_with_metadata(
                path,
                *metadata,
            ),
            PreparedSearchPath::Skipped => false,
        }
    }

    /// Adds prepared paths in their order; says how many were given a slot.
    pub fn ingest_prepared(
        &mut self,
        paths: &Vec<SearchPath>,
        files: &Vec<PreparedSearchPath>,
    ) -> (indexed: usize)
        requires
            old(self).well_formed(),
            paths@.len() == files@.len(),
        ensures
            final(self).well_formed(),
            final(self).same_settings(*old(self)),
            final(self).current@ == ingested(
                old(self).current@,
                path_views(paths@),
                prepared_views(files@),
                paths@.len() as int,
            ),
            final(self).ledger() == noted(
                old(self).ledger(),
                old(self).current@,
                path_views(paths@),
                prepared_views(files@),
                paths@.len() as int,
            ),
            stays_in_step(old(self).ledger(), final(self).ledger()),
            indexed == ingested_count(
                old(self).current@,
                path_views(paths@),
                prepared_views(files@),
                paths@.len() as int,
            ),
            old(self).current@.all_listed() && all_new(old(self).current@.ids, path_views(paths@))
                ==> final(self).current@.all_listed(),
    {
        let mut indexed: usize = 0;
        let mut i: usize = 0;
        while i < paths.len()
            invariant
                paths@.len() == files@.len(),
                i <= paths@.len(),
                indexed <= i,
                self.well_formed(),
                self.same_settings(*old(self)),
                self.current@ == ingested(
                    old(self).current@,
                    path_views(paths@),
                    prepared_views(files@),
                    i as int,
                ),
                self.ledger() == noted(
                    old(self).ledger(),
                    old(self).current@,
                    path_views(paths@),
                    prepared_views(files@),
                    i as int,
                ),
                stays_in_step(old(self).ledger(), self.ledger()),
                indexed == ingested_count(
                    old(self).current@,
                    path_views(paths@),
                    prepared_views(files@),
                    i as int,
                ),
                old(self).current@.all_listed() && all_new(
                    old(self).current@.ids,
                    path_views(paths@),
                ) ==> self.current@.all_listed(),
            decreases paths@.len() - i,
        {
            proof {
                assert(path_views(paths@)[i as int] == paths@[i as int]@);
                assert(prepared_views(files@)[i as int] == files@[i as int]@);
                if all_new(old(self).current@.ids, path_views(paths@)) {
                    lemma_later_paths_stay_new(
                        old(self).current@,
                        path_views(paths@),
                        prepared_views(files@),
                        i as int,
                        paths@[i as int]@,
                    );
                }
            }
            if self.add_prepared(&paths[i], &files[i]) {
                indexed += 1;
            }
            i += 1;
        }
        indexed
    }

    /// Puts the file at `path` into the index anew, from what reading it gave.
    pub fn update_file(
        &mut self,
        path: &SearchPath,
        canonical_path: &SearchPath,
        probe: &FileProbe,
    )
        requires
            old(self).well_formed(),
        ensures
            final(self).well_formed(),
            final(self).same_settings(*old(self)),
            final(self).current@ == added_as(
                after_removal(
                    old(self).current@,
                    old(self).base_file_count,
                    path@,
                    canonical_path@,
                ),
                path@,
                prepared(
                    probe.metadata,
                    bytes_option(probe.preview),
                    bytes_option(probe.content),
                    old(self).max_file_size,
                ),
            ),
            final(self).ledger() == noted_as(
                ledger_without(
                    old(self).ledger(),
                    old(self).current@.ids,
                    path@,
                    canonical_path@,
                ),
                after_removal(
                    old(self).current@,
                    old(self).base_file_count,
                    path@,
                    canonical_path@,
                ),
                path@,
                prepared(
                    probe.metadata,
                    bytes_option(probe.preview),
                    bytes_option(probe.content),
                    old(self).max_file_size,
                ),
            ),
            stays_in_step(old(self).ledger(), final(self).ledger()),
            old(self).current@.all_listed() ==> final(self).current@.all_listed(),
    {
        proof {
            if self.current@.all_listed() {
                lemma_removal_keeps_files_listed(
                    self.current@,
                    self.base_file_count,
                    path@,
                    canonical_path@,
                );
            }
        }
        self.remove_file(path, canonical_path);
        let file = prepare_search_path(probe, self.max_file_size);
        self.add_prepared(path, &file);
    }

    /// Puts `content` into the index as the file at `path`. Where the disk says nothing of the
    /// file, it has the content's size and no age.
    pub fn index_file(
        &mut self,
        path: &SearchPath,
        canonical_path: &SearchPath,
        content: &[u8],
        metadata: Option<SearchFileMetadata>,
    )
        requires
            old(self).well_formed(),
        ensures
            final(self).well_formed(),
            final(self).same_settings(*old(self)),
            final(self).current@ == added_as(
                after_removal(
                    old(self).current@,
                    old(self).base_file_count,
                    path@,
                    canonical_path@,
                ),
                path@,
                indexed_content(
                    match metadata {
                        Some(metadata) => metadata,
                        None => SearchFileMetadata {
                            size: content@.len() as u64,
                            modified: epoch(),
                        },
                    },
                    content@,
                ),
            ),
            final(self).ledger() == noted_as(
                ledger_without(
                    old(self).ledger(),
                    old(self).current@.ids,
                    path@,
                    canonical_path@,
                ),
                after_removal(
                    old(self).current@,
                    old(self).base_file_count,
                    path@,
                    canonical_path@,
                ),
                path@,
                indexed_content(
                    match metadata {
                        Some(metadata) => metadata,
                        None => SearchFileMetadata {
                            size: content@.len() as u64,
                            modified: epoch(),
                        },
                    },
                    content@,
                ),
            ),
            stays_in_step(old(self).ledger(), final(self).ledger()),
            old(self).current@.all_listed() ==> final(self).current@.all_listed(),
    {
        proof {
            if self.current@.all_listed() {
                lemma_removal_keeps_files_listed(
                    self.current@,
                    self.base_file_count,
                    path@,
                    canonical_path@,
                );
            }
        }
        self.remove_file(path, canonical_path);
        let metadata: SearchFileMetadata = match metadata {
            Some(metadata) => metadata,
            None => SearchFileMetadata {
                size: content.len() as u64,
                modified: Timestamp::epoch(),
            },
        };
        let file = PreparedSearchPath::Indexed(
            PreparedIndexedFile {
                metadata,
                content_hash: hash_bytes(content),
                trigram_map: trigram_filter_map(content, true),
            },
        );
        self.add_prepared(path, &file);
    }
}

} // verus!
