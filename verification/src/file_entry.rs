//! What the index knows of one file.

use crate::order::TotalOrder;
use crate::path::PathKey;
use crate::path::SearchPath;
use vstd::prelude::*;

verus! {

/// A point in time: seconds since the start of 1970 and nanoseconds within the second.
#[derive(Clone, Copy, Debug, PartialEq, Eq, Structural)]
pub struct Timestamp {
    pub secs: i64,
    pub nanos: u32,
}

/// The start of 1970.
pub open spec fn epoch() -> Timestamp {
    Timestamp { secs: 0, nanos: 0 }
}

impl Timestamp {
    /// The nanoseconds are those within a second.
    pub open spec fn is_valid(self) -> bool {
        self.nanos < 1_000_000_000
    }

    pub fn epoch() -> (time: Timestamp)
        ensures
            time == epoch(),
    {
        Timestamp { secs: 0, nanos: 0 }
    }
}

/// Length of a content hash.
pub const HASH_BYTES: usize = 32;

/// The hash of a file's content.
#[derive(Clone, Copy, Debug)]
pub struct ContentHash {
    pub bytes: [u8; 32],
}

/// One slot of the file table. A slot with an empty path is free.
#[derive(Clone, Debug)]
pub struct FileEntry {
    pub path: SearchPath,
    pub size: u64,
    pub modified: Timestamp,
    pub content_hash: ContentHash,
}

/// The mathematical counterpart of a `FileEntry`.
pub struct FileView {
    pub path: PathKey,
    pub size: u64,
    pub modified: Timestamp,
    pub content_hash: Seq<u8>,
}

/// What the file system says of a file.
#[derive(Clone, Copy, Debug, PartialEq, Eq, Structural)]
pub struct SearchFileMetadata {
    pub size: u64,
    pub modified: Timestamp,
}

impl View for ContentHash {
    type V = Seq<u8>;

    open spec fn view(&self) -> Seq<u8> {
        self.bytes@
    }
}

impl View for FileEntry {
    type V = FileView;

    open spec fn view(&self) -> FileView {
        FileView {
            path: self.path@,
            size: self.size,
            modified: self.modified,
            content_hash: self.content_hash@,
        }
    }
}

pub open spec fn zero_hash_bytes() -> Seq<u8> {
    Seq::new(32, |i: int| 0u8)
}

/// The slot of a removed file.
pub open spec fn free_slot() -> FileView {
    FileView {
        path: Seq::empty(),
        size: 0,
        modified: epoch(),
        content_hash: zero_hash_bytes(),
    }
}

/// The hash that stands where no content was hashed.
pub fn zero_hash() -> (hash: ContentHash)
    ensures
        hash@ == zero_hash_bytes(),
{
    let hash = ContentHash { bytes: [0u8;32] };
    assert(hash@ =~= zero_hash_bytes());
    hash
}

/// The hash stored at `at`.
pub fn hash_from_bytes(bytes: &[u8], at: usize) -> (hash: ContentHash)
    requires
        at + 32 <= bytes@.len(),
    ensures
        hash@ == bytes@.subrange(at as int, at + 32),
{
    let mut out: [u8; 32] = [0u8;32];
    let mut i: usize = 0;
    assert(bytes@.len() == bytes.len());
    while i < 32
        invariant
            i <= 32,
            at + 32 <= bytes@.len(),
            at + 32 <= usize::MAX,
            forall|k: int| 0 <= k < i ==> #[trigger] out@[k] == bytes@[at + k],
        decreases 32 - i,
    {
        out[i] = bytes[at + i];
        i += 1;
    }
    let hash = ContentHash { bytes: out };
    assert(hash@ =~= bytes@.subrange(at as int, at + 32));
    hash
}

impl FileEntry {
    pub fn duplicate(&self) -> (copy: FileEntry)
        ensures
            copy@ == self@,
    {
        FileEntry {
            path: self.path.duplicate(),
            size: self.size,
            modified: self.modified,
            content_hash: self.content_hash,
        }
    }

    pub fn free() -> (entry: FileEntry)
        ensures
            entry@ == free_slot(),
    {
        FileEntry {
            path: SearchPath::new(),
            size: 0,
            modified: Timestamp::epoch(),
            content_hash: zero_hash(),
        }
    }
}

pub open spec fn file_views(files: Seq<FileEntry>) -> Seq<FileView> {
    files.map_values(|file: FileEntry| file@)
}

pub fn duplicate_files(files: &Vec<FileEntry>) -> (copy: Vec<FileEntry>)
    ensures
        file_views(copy@) == file_views(files@),
{
    let mut copy: Vec<FileEntry> = Vec::with_capacity(files.len());
    let mut i: usize = 0;
    while i < files.len()
        invariant
            i <= files@.len(),
            copy@.len() == i,
            forall|k: int| 0 <= k < i ==> (#[trigger] copy@[k])@ == files@[k]@,
        decreases files@.len() - i,
    {
        copy.push(files[i].duplicate());
        i += 1;
    }
    assert(file_views(copy@) =~= file_views(files@));
    copy
}

pub open spec fn time_at_most(a: Timestamp, b: Timestamp) -> bool {
    a.secs < b.secs || (a.secs == b.secs && a.nanos <= b.nanos)
}

impl TotalOrder for Timestamp {
    open spec fn at_most(&self, other: &Self) -> bool {
        time_at_most(*self, *other)
    }

    proof fn lemma_total(a: &Self, b: &Self) {
    }

    proof fn lemma_transitive(a: &Self, b: &Self, c: &Self) {
    }

    fn is_at_most(&self, other: &Self) -> (result: bool) {
        self.secs < other.secs || (self.secs == other.secs && self.nanos <= other.nanos)
    }
}

impl ContentHash {
    pub fn same_as(&self, other: &ContentHash) -> (same: bool)
        ensures
            same == (self@ == other@),
    {
        let mut i: usize = 0;
        while i < 32
            invariant
                i <= 32,
                forall|k: int| 0 <= k < i ==> self@[k] == #[trigger] other@[k],
            decreases 32 - i,
        {
            if self.bytes[i] != other.bytes[i] {
                assert(self@[i as int] != other@[i as int]);
                return false;
            }
            i += 1;
        }
        assert(self@ =~= other@);
        true
    }
}

} // verus!
