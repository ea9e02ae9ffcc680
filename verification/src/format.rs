//! The bytes of a cache file.

use crate::codec::lemma_u32_round_trip;
use crate::codec::lemma_u64_round_trip;
use crate::codec::u32_bytes;
use crate::codec::u64_bytes;
use crate::codec::write_u32;
use crate::codec::write_u64;
use crate::file_entry::FileEntry;
use crate::file_entry::FileView;
use crate::file_entry::Timestamp;
use crate::merge::lookup_fits;
use crate::merge::lookup_of;
use crate::merge::merge_error;
use crate::merge::merge_sources;
use crate::merge::merged;
use crate::merge::source_streams;
use crate::merge::sources_sound;
use crate::merge::sources_well_formed;
use crate::merge::RecordSource;
use crate::outside::checksum;
use crate::outside::crc32;
use crate::outside::lossy_chars;
use crate::outside::lossy_text;
use crate::path::cache_relative_path;
use crate::path::cached_relative;
use crate::path::normalized;
use crate::path::starts_with_path;
use crate::path::PathKey;
use crate::path::SearchPath;
use crate::path_table::PathTable;
use crate::path_text::path_option;
use crate::path_text::path_text;
use crate::path_text::push_bytes;
use crate::postings::BasePostings;
use crate::postings::LookupEntry;
use crate::records::record_bytes;
use crate::records::INDEX_VERSION;
use crate::records::RecordError;
use crate::records::SpillRecord;
use std::collections::HashMap;
use std::collections::HashSet;
use vstd::prelude::*;
use vstd::utf8::encode_utf8;

verus! {

/// `XID1`, as a number whose low byte comes first.
pub const CACHE_MAGIC: u32 = 0x3144_4958;

/// Bytes of a stored file without its path.
pub const MIN_FILE_ENTRY_BYTES: usize = 57;

/// Bytes of a lookup entry.
pub const LOOKUP_ENTRY_BYTES: usize = 16;

/// No table of a cache file is longer.
pub const MAX_ENTRIES: usize = 10_000_000;

/// `AFTIDX01`
pub open spec fn index_magic() -> Seq<u8> {
    seq![65u8, 70, 84, 73, 68, 88, 48, 49]
}

/// `AFTLKP01`
pub open spec fn lookup_magic() -> Seq<u8> {
    seq![65u8, 70, 84, 76, 75, 80, 48, 49]
}

/// `AFTFTC01`
pub open spec fn counts_magic() -> Seq<u8> {
    seq![65u8, 70, 84, 70, 84, 67, 48, 49]
}

pub fn index_magic_bytes() -> (magic: Vec<u8>)
    ensures
        magic@ == index_magic(),
{
    let magic = vec![65u8, 70, 84, 73, 68, 88, 48, 49];
    assert(magic@ =~= index_magic());
    magic
}

pub fn lookup_magic_bytes() -> (magic: Vec<u8>)
    ensures
        magic@ == lookup_magic(),
{
    let magic = vec![65u8, 70, 84, 76, 75, 80, 48, 49];
    assert(magic@ =~= lookup_magic());
    magic
}

pub fn counts_magic_bytes() -> (magic: Vec<u8>)
    ensures
        magic@ == counts_magic(),
{
    let magic = vec![65u8, 70, 84, 70, 84, 67, 48, 49];
    assert(magic@ =~= counts_magic());
    magic
}

// ---------------------------------------------------------------------------------------------
// What is written
// ---------------------------------------------------------------------------------------------

/// A file as the header stores it.
pub struct StoredFile {
    pub unindexed: bool,
    pub path: Seq<u8>,
    pub size: u64,
    pub secs: u64,
    pub nanos: u32,
    pub content_hash: Seq<u8>,
}

/// The header of a cache file.
pub struct Header {
    pub head: Seq<u8>,
    pub root: Seq<u8>,
    pub fingerprint: Seq<u8>,
    pub max_file_size: u64,
    pub files: Seq<StoredFile>,
}

pub open spec fn stored_file_bytes(file: StoredFile) -> Seq<u8> {
    seq![if file.unindexed { 1u8 } else { 0u8 }] + u32_bytes(file.path.len() as u32) + u64_bytes(
        file.size,
    ) + u64_bytes(file.secs) + u32_bytes(file.nanos) + file.content_hash + file.path
}

pub open spec fn stored_files_bytes(files: Seq<StoredFile>) -> Seq<u8>
    decreases files.len(),
{
    if files.len() == 0 {
        Seq::empty()
    } else {
        stored_files_bytes(files.drop_last()) + stored_file_bytes(files.last())
    }
}

pub open spec fn header_bytes(header: Header) -> Seq<u8> {
    index_magic() + u32_bytes(INDEX_VERSION) + u32_bytes(header.head.len() as u32) + u32_bytes(
        header.root.len() as u32,
    ) + u32_bytes(header.fingerprint.len() as u32) + u64_bytes(header.max_file_size) + u32_bytes(
        header.files.len() as u32,
    ) + header.head + header.root + header.fingerprint + stored_files_bytes(header.files)
}

pub open spec fn lookup_entry_bytes(entry: LookupEntry) -> Seq<u8> {
    u32_bytes(entry.trigram) + u64_bytes(entry.offset) + u32_bytes(entry.count)
}

pub open spec fn lookup_entries_bytes(entries: Seq<LookupEntry>) -> Seq<u8>
    decreases entries.len(),
{
    if entries.len() == 0 {
        Seq::empty()
    } else {
        lookup_entries_bytes(entries.drop_last()) + lookup_entry_bytes(entries.last())
    }
}

pub open spec fn lookup_body(entries: Seq<LookupEntry>) -> Seq<u8> {
    lookup_magic() + u32_bytes(INDEX_VERSION) + u32_bytes(entries.len() as u32)
        + lookup_entries_bytes(entries)
}

/// `bytes` with their checksum behind them.
pub open spec fn with_checksum(bytes: Seq<u8>) -> Seq<u8> {
    bytes + u32_bytes(crc32(bytes))
}

pub open spec fn lookup_section(entries: Seq<LookupEntry>) -> Seq<u8> {
    with_checksum(lookup_body(entries))
}

pub open spec fn counts_bytes(counts: Seq<u32>) -> Seq<u8>
    decreases counts.len(),
{
    if counts.len() == 0 {
        Seq::empty()
    } else {
        counts_bytes(counts.drop_last()) + u32_bytes(counts.last())
    }
}

pub open spec fn counts_extension(counts: Seq<u32>) -> Seq<u8> {
    counts_magic() + u32_bytes(INDEX_VERSION) + u32_bytes(counts.len() as u32) + counts_bytes(
        counts,
    )
}

/// Header, posting lists and trigram counts.
pub open spec fn postings_body(
    header: Header,
    records: Seq<SpillRecord>,
    counts: Seq<u32>,
) -> Seq<u8> {
    header_bytes(header) + u64_bytes((6 * records.len()) as u64) + record_bytes(records)
        + counts_extension(counts)
}

/// A whole cache file.
pub open spec fn cache_file(
    header: Header,
    records: Seq<SpillRecord>,
    counts: Seq<u32>,
) -> Seq<u8> {
    let section = with_checksum(postings_body(header, records, counts));
    u32_bytes(CACHE_MAGIC) + u32_bytes(INDEX_VERSION) + u64_bytes(section.len() as u64) + section
        + lookup_section(lookup_of(records))
}

// ---------------------------------------------------------------------------------------------
// Plans
// ---------------------------------------------------------------------------------------------

/// Why a cache file cannot be written.
#[derive(Clone, Copy, Debug, PartialEq, Eq, Structural)]
pub enum CacheWriteError {
    HeadTooLarge,
    RootTooLarge,
    FingerprintTooLarge,
    TooManyFiles,
    PathOutsideRoot,
    PathTooLarge,
    TooManyLookupEntries,
    TooManyCounts,
    Records(RecordError),
}

/// What a cache file is to hold besides posting lists.
pub struct CacheWritePlan {
    pub project_root: SearchPath,
    pub git_head: Option<String>,
    pub ignore_fingerprint: String,
    pub max_file_size: u64,
    pub files: Vec<FileEntry>,
    pub path_to_id: PathTable,
    pub unindexed_files: HashSet<u32>,
    pub file_trigram_count: Vec<u32>,
    /// New ids of the files that are kept.
    pub id_map: HashMap<u32, u32>,
}

/// The text of a path as a cache file holds it.
pub open spec fn stored_text(path: PathKey) -> Seq<u8> {
    encode_utf8(lossy_chars(path_text(path)))
}

/// The name under which the cache knows a path: below the root as it is, or in canonical form.
pub open spec fn cache_name(root: PathKey, path: PathKey, canonical: Option<PathKey>) -> Option<
    PathKey,
> {
    match name_below(root, path) {
        Some(name) => Some(name),
        None => match canonical {
            Some(canonical) => name_below(root, canonical),
            None => None,
        },
    }
}

pub open spec fn name_below(root: PathKey, path: PathKey) -> Option<PathKey> {
    if starts_with_path(normalized(path), normalized(root)) {
        cached_relative(normalized(path).skip(normalized(root).len() as int))
    } else {
        None
    }
}

/// Seconds and nanoseconds since 1970; a time before that counts as none.
pub open spec fn stored_time(time: Timestamp) -> (u64, u32) {
    if time.secs < 0 {
        (0, 0)
    } else {
        (time.secs as u64, time.nanos)
    }
}

/// A file as the header stores it.
pub open spec fn stored_file(file: FileView, name: PathKey, unindexed: bool) -> StoredFile {
    StoredFile {
        unindexed,
        path: stored_text(name),
        size: file.size,
        secs: stored_time(file.modified).0,
        nanos: stored_time(file.modified).1,
        content_hash: file.content_hash,
    }
}

impl CacheWritePlan {
    pub open spec fn head_bytes(&self) -> Seq<u8> {
        match self.git_head {
            Some(head) => encode_utf8(head@),
            None => Seq::empty(),
        }
    }

    /// The name of file `i`.
    pub open spec fn name_of(&self, canonical_paths: Seq<Option<SearchPath>>, i: int) -> Option<
        PathKey,
    > {
        cache_name(
            self.project_root@,
            self.files@[i].path@,
            path_option(canonical_paths[i]),
        )
    }

    pub open spec fn stored(&self, canonical_paths: Seq<Option<SearchPath>>, i: int) -> StoredFile {
        stored_file(
            self.files@[i]@,
            self.name_of(canonical_paths, i)->0,
            self.unindexed_files@.contains(i as u32),
        )
    }

    /// The header that the plan asks for.
    pub open spec fn header(&self, canonical_paths: Seq<Option<SearchPath>>) -> Header {
        Header {
            head: self.head_bytes(),
            root: stored_text(self.project_root@),
            fingerprint: encode_utf8(self.ignore_fingerprint@),
            max_file_size: self.max_file_size,
            files: Seq::new(self.files@.len(), |i: int| self.stored(canonical_paths, i)),
        }
    }

    /// File `i` has a name, and one that fits.
    pub open spec fn can_store(&self, canonical_paths: Seq<Option<SearchPath>>, i: int) -> bool {
        self.name_of(canonical_paths, i) is Some && self.stored(canonical_paths, i).path.len()
            <= u32::MAX
    }

    /// What is wrong with the first of the files from `i` on that cannot be stored.
    pub open spec fn file_error(&self, canonical_paths: Seq<Option<SearchPath>>, i: int) -> Option<
        CacheWriteError,
    >
        decreases self.files@.len() - i,
    {
        if i >= self.files@.len() {
            None
        } else if self.name_of(canonical_paths, i) is None {
            Some(CacheWriteError::PathOutsideRoot)
        } else if self.stored(canonical_paths, i).path.len() > u32::MAX {
            Some(CacheWriteError::PathTooLarge)
        } else {
            self.file_error(canonical_paths, i + 1)
        }
    }

    /// Why the header cannot be written: what comes first in it and does not fit.
    pub open spec fn header_error(&self, canonical_paths: Seq<Option<SearchPath>>) -> Option<
        CacheWriteError,
    > {
        if self.head_bytes().len() > u32::MAX {
            Some(CacheWriteError::HeadTooLarge)
        } else if stored_text(self.project_root@).len() > u32::MAX {
            Some(CacheWriteError::RootTooLarge)
        } else if encode_utf8(self.ignore_fingerprint@).len() > u32::MAX {
            Some(CacheWriteError::FingerprintTooLarge)
        } else if self.files@.len() > u32::MAX {
            Some(CacheWriteError::TooManyFiles)
        } else {
            self.file_error(canonical_paths, 0)
        }
    }

    /// The header can be written.
    pub open spec fn header_fits(&self, canonical_paths: Seq<Option<SearchPath>>) -> bool {
        &&& self.head_bytes().len() <= u32::MAX
        &&& stored_text(self.project_root@).len() <= u32::MAX
        &&& encode_utf8(self.ignore_fingerprint@).len() <= u32::MAX
        &&& self.files@.len() <= u32::MAX
        &&& forall|i: int|
            0 <= i < self.files@.len() ==> #[trigger] self.can_store(canonical_paths, i)
    }
}

/// The text of a path as a cache file holds it.
pub fn store_text(path: &SearchPath) -> (text: String)
    ensures
        encode_utf8(text@) == stored_text(path@),
{
    let text = path.text();
    lossy_text(text.as_slice())
}

pub fn name_for_cache(root: &SearchPath, path: &SearchPath, canonical: &Option<SearchPath>) -> (
    name: Option<SearchPath>)
    ensures
        path_option(name) == cache_name(root@, path@, path_option(*canonical)),
{
    match cache_relative_path(root, path) {
        Some(name) => Some(name),
        None => match canonical {
            Some(canonical) => cache_relative_path(root, canonical),
            None => None,
        },
    }
}

fn fits_u32(len: usize) -> (fits: bool)
    ensures
        fits == (len <= u32::MAX),
{
    len as u64 <= u32::MAX as u64
}

fn push_stored_file(
    out: &mut Vec<u8>,
    file: &FileEntry,
    path: &String,
    unindexed: bool,
    Ghost(name): Ghost<PathKey>,
)
    requires
        encode_utf8(path@) == stored_text(name),
        stored_text(name).len() <= u32::MAX,
    ensures
        final(out)@ == old(out)@ + stored_file_bytes(stored_file(file@, name, unindexed)),
{
    let ghost before = out@;
    let ghost stored = stored_file(file@, name, unindexed);
    let text: &[u8] = path.as_str().as_bytes();
    out.push(
        if unindexed {
            1u8
        } else {
            0u8
        },
    );
    write_u32(out, text.len() as u32);
    write_u64(out, file.size);
    let secs: u64 = if file.modified.secs < 0 {
        0
    } else {
        file.modified.secs as u64
    };
    let nanos: u32 = if file.modified.secs < 0 {
        0
    } else {
        file.modified.nanos
    };
    write_u64(out, secs);
    write_u32(out, nanos);
    push_bytes(out, file.content_hash.bytes.as_slice());
    push_bytes(out, text);
    assert(out@ =~= before + stored_file_bytes(stored));
}

/// The header of a cache file. `canonical_paths` holds the canonical form of each file's path,
/// where there is one.
pub fn build_postings_header_bytes(
    plan: &CacheWritePlan,
    canonical_paths: &Vec<Option<SearchPath>>,
) -> (result: Result<Vec<u8>, CacheWriteError>)
    requires
        canonical_paths@.len() == plan.files@.len(),
    ensures
        match result {
            Ok(bytes) => plan.header_fits(canonical_paths@) && bytes@ == header_bytes(
                plan.header(canonical_paths@),
            ),
            Err(error) => !plan.header_fits(canonical_paths@) && plan.header_error(canonical_paths@)
                == Some(error),
        },
{
    broadcast use vstd::std_specs::hash::group_hash_axioms;

    let root = store_text(&plan.project_root);
    let empty = String::new();
    let head: &String = match &plan.git_head {
        Some(head) => head,
        None => &empty,
    };
    let head_text: &[u8] = head.as_str().as_bytes();
    let root_text: &[u8] = root.as_str().as_bytes();
    let fingerprint_text: &[u8] = plan.ignore_fingerprint.as_str().as_bytes();
    proof {
        assert(head_text@ =~= plan.head_bytes()) by {
            if plan.git_head is None {
                assert(encode_utf8(Seq::<char>::empty()) =~= Seq::<u8>::empty());
            }
        }
    }
    if !fits_u32(head_text.len()) {
        return Err(CacheWriteError::HeadTooLarge);
    }
    if !fits_u32(root_text.len()) {
        return Err(CacheWriteError::RootTooLarge);
    }
    if !fits_u32(fingerprint_text.len()) {
        return Err(CacheWriteError::FingerprintTooLarge);
    }
    if !fits_u32(plan.files.len()) {
        return Err(CacheWriteError::TooManyFiles);
    }
    let ghost header = plan.header(canonical_paths@);
    let mut out = index_magic_bytes();
    write_u32(&mut out, INDEX_VERSION);
    write_u32(&mut out, head_text.len() as u32);
    write_u32(&mut out, root_text.len() as u32);
    write_u32(&mut out, fingerprint_text.len() as u32);
    write_u64(&mut out, plan.max_file_size);
    write_u32(&mut out, plan.files.len() as u32);
    push_bytes(&mut out, head_text);
    push_bytes(&mut out, root_text);
    push_bytes(&mut out, fingerprint_text);
    let ghost front = out@;
    let mut i: usize = 0;
    proof {
        assert(header.files.take(0) =~= Seq::<StoredFile>::empty());
        assert(out@ =~= front + stored_files_bytes(header.files.take(0)));
    }
    while i < plan.files.len()
        invariant
            canonical_paths@.len() == plan.files@.len(),
            plan.files@.len() <= u32::MAX,
            header == plan.header(canonical_paths@),
            i <= plan.files@.len(),
            forall|k: int| 0 <= k < i ==> #[trigger] plan.can_store(canonical_paths@, k),
            plan.header_error(canonical_paths@) == plan.file_error(canonical_paths@, i as int),
            out@ == front + stored_files_bytes(header.files.take(i as int)),
        decreases plan.files@.len() - i,
    {
        let file = &plan.files[i];
        let name = match name_for_cache(&plan.project_root, &file.path, &canonical_paths[i]) {
            Some(name) => name,
            None => {
                assert(plan.name_of(canonical_paths@, i as int) is None);
                assert(!plan.can_store(canonical_paths@, i as int));
                return Err(CacheWriteError::PathOutsideRoot);
            },
        };
        assert(plan.name_of(canonical_paths@, i as int) == Some(name@));
        let path = store_text(&name);
        let text: &[u8] = path.as_str().as_bytes();
        if !fits_u32(text.len()) {
            assert(plan.stored(canonical_paths@, i as int).path.len() > u32::MAX);
            assert(!plan.can_store(canonical_paths@, i as int));
            return Err(CacheWriteError::PathTooLarge);
        }
        let id: u32 = i as u32;
        let unindexed: bool = plan.unindexed_files.contains(&id);
        let ghost before = out@;
        push_stored_file(&mut out, file, &path, unindexed, Ghost(name@));
        proof {
            let next = header.files.take(i + 1);
            assert(next.drop_last() =~= header.files.take(i as int));
            assert(next.last() == plan.stored(canonical_paths@, i as int));
            assert(plan.can_store(canonical_paths@, i as int));
            assert(out@ =~= front + stored_files_bytes(next));
        }
        i += 1;
    }
    proof {
        assert(header.files.take(i as int) =~= header.files);
        assert(out@ =~= header_bytes(header));
    }
    Ok(out)
}

/// The lookup table of a cache file, with its checksum.
pub fn build_lookup_section_bytes(entries: &Vec<LookupEntry>) -> (result: Result<
    Vec<u8>,
    CacheWriteError,
>)
    ensures
        match result {
            Ok(bytes) => entries@.len() <= u32::MAX && bytes@ == lookup_section(entries@),
            Err(error) => entries@.len() > u32::MAX && error
                == CacheWriteError::TooManyLookupEntries,
        },
{
    if !fits_u32(entries.len()) {
        return Err(CacheWriteError::TooManyLookupEntries);
    }
    let mut out = lookup_magic_bytes();
    write_u32(&mut out, INDEX_VERSION);
    write_u32(&mut out, entries.len() as u32);
    let ghost front = out@;
    let mut i: usize = 0;
    proof {
        assert(entries@.take(0) =~= Seq::<LookupEntry>::empty());
        assert(out@ =~= front + lookup_entries_bytes(entries@.take(0)));
    }
    while i < entries.len()
        invariant
            i <= entries@.len(),
            out@ == front + lookup_entries_bytes(entries@.take(i as int)),
        decreases entries@.len() - i,
    {
        let entry: LookupEntry = entries[i];
        write_u32(&mut out, entry.trigram);
        write_u64(&mut out, entry.offset);
        write_u32(&mut out, entry.count);
        proof {
            let next = entries@.take(i + 1);
            assert(next.drop_last() =~= entries@.take(i as int));
            assert(next.last() == entry);
            assert(out@ =~= front + lookup_entries_bytes(next));
        }
        i += 1;
    }
    assert(entries@.take(i as int) =~= entries@);
    assert(out@ =~= lookup_body(entries@));
    let sum: u32 = checksum(out.as_slice());
    write_u32(&mut out, sum);
    Ok(out)
}

/// The table of trigram counts of a cache file.
pub fn build_file_trigram_count_extension(counts: &Vec<u32>) -> (result: Result<
    Vec<u8>,
    CacheWriteError,
>)
    ensures
        match result {
            Ok(bytes) => counts@.len() <= u32::MAX && bytes@ == counts_extension(counts@),
            Err(error) => counts@.len() > u32::MAX && error == CacheWriteError::TooManyCounts,
        },
{
    if !fits_u32(counts.len()) {
        return Err(CacheWriteError::TooManyCounts);
    }
    let mut out = counts_magic_bytes();
    write_u32(&mut out, INDEX_VERSION);
    write_u32(&mut out, counts.len() as u32);
    let ghost front = out@;
    let mut i: usize = 0;
    proof {
        assert(counts@.take(0) =~= Seq::<u32>::empty());
        assert(out@ =~= front + counts_bytes(counts@.take(0)));
    }
    while i < counts.len()
        invariant
            i <= counts@.len(),
            out@ == front + counts_bytes(counts@.take(i as int)),
        decreases counts@.len() - i,
    {
        write_u32(&mut out, counts[i]);
        proof {
            let next = counts@.take(i + 1);
            assert(next.drop_last() =~= counts@.take(i as int));
            assert(next.last() == counts@[i as int]);
            assert(out@ =~= front + counts_bytes(next));
        }
        i += 1;
    }
    assert(counts@.take(i as int) =~= counts@);
    assert(out@ =~= counts_extension(counts@));
    Ok(out)
}

/// A cache file and where its posting lists stand.
pub struct EncodedCache {
    pub bytes: Vec<u8>,
    pub base: BasePostings,
}

/// What a written cache file holds.
pub open spec fn is_cache_of(
    encoded: EncodedCache,
    header: Header,
    records: Seq<SpillRecord>,
    counts: Seq<u32>,
) -> bool {
    &&& encoded.bytes@ == cache_file(header, records, counts)
    &&& encoded.base.postings_blob_start == 16 + header_bytes(header).len() + 8
    &&& encoded.base.postings_blob_len == 6 * records.len()
    &&& encoded.base.lookup@ == lookup_of(records)
}

impl CacheWritePlan {
    /// The header fits exactly where nothing is wrong with it.
    pub(crate) proof fn lemma_header_error(&self, canonical_paths: Seq<Option<SearchPath>>)
        ensures
            self.header_fits(canonical_paths) <==> self.header_error(canonical_paths) is None,
    {
        self.lemma_file_error(canonical_paths, 0);
    }

    proof fn lemma_file_error(&self, canonical_paths: Seq<Option<SearchPath>>, i: int)
        requires
            0 <= i,
        ensures
            self.file_error(canonical_paths, i) is None <==> forall|k: int|
                i <= k < self.files@.len() ==> #[trigger] self.can_store(canonical_paths, k),
        decreases self.files@.len() - i,
    {
        if i < self.files@.len() {
            self.lemma_file_error(canonical_paths, i + 1);
            if self.file_error(canonical_paths, i) is None {
                assert(self.can_store(canonical_paths, i));
            } else if self.can_store(canonical_paths, i) {
                assert(self.file_error(canonical_paths, i + 1) is Some);
            }
        }
    }
}

/// Why a cache file cannot be written: the header does not fit, the posting lists cannot be merged,
/// or one of the tables is too long; the first of these counts.
pub open spec fn write_error(
    plan: CacheWritePlan,
    canonical_paths: Seq<Option<SearchPath>>,
    records: Seq<SpillRecord>,
    sound: bool,
    error: CacheWriteError,
) -> bool {
    match plan.header_error(canonical_paths) {
        Some(first) => error == first,
        None => if !sound || !lookup_fits(records) {
            error matches CacheWriteError::Records(inner) && merge_error(records, sound, inner)
        } else if plan.file_trigram_count@.len() > u32::MAX {
            error == CacheWriteError::TooManyCounts
        } else {
            error == CacheWriteError::TooManyLookupEntries
        },
    }
}

/// The cache file of a plan, with the posting lists that the sources merge into.
pub fn write_cache_from_sources(
    plan: &CacheWritePlan,
    canonical_paths: &Vec<Option<SearchPath>>,
    sources: &mut Vec<RecordSource>,
) -> (result: Result<EncodedCache, CacheWriteError>)
    requires
        canonical_paths@.len() == plan.files@.len(),
        sources_well_formed(old(sources)@),
    ensures
        ({
            let records = merged(source_streams(old(sources)@));
            let writable = {
                &&& plan.header_fits(canonical_paths@)
                &&& sources_sound(old(sources)@)
                &&& lookup_fits(records)
                &&& plan.file_trigram_count@.len() <= u32::MAX
                &&& lookup_of(records).len() <= u32::MAX
            };
            match result {
                Ok(encoded) => writable && is_cache_of(
                    encoded,
                    plan.header(canonical_paths@),
                    records,
                    plan.file_trigram_count@,
                ),
                Err(error) => !writable && write_error(
                    *plan,
                    canonical_paths@,
                    records,
                    sources_sound(old(sources)@),
                    error,
                ),
            }
        }),
{
    let header = match build_postings_header_bytes(plan, canonical_paths) {
        Ok(header) => header,
        Err(error) => {
            return Err(error);
        },
    };
    let ghost records = merged(source_streams(sources@));
    proof {
        plan.lemma_header_error(canonical_paths@);
    }
    let postings = match merge_sources(sources) {
        Ok(postings) => postings,
        Err(error) => {
            return Err(CacheWriteError::Records(error));
        },
    };
    let extension = match build_file_trigram_count_extension(&plan.file_trigram_count) {
        Ok(extension) => extension,
        Err(error) => {
            return Err(error);
        },
    };
    let lookup = match build_lookup_section_bytes(&postings.lookup) {
        Ok(lookup) => lookup,
        Err(error) => {
            return Err(error);
        },
    };
    let mut body: Vec<u8> = header;
    let ghost head = plan.header(canonical_paths@);
    proof {
        crate::merge_laws::lemma_blob_piece(records, 0, 0);
    }
    let blob_len: u64 = postings.blob.len() as u64;
    write_u64(&mut body, blob_len);
    let blob_start: u64 = body.len() as u64;
    proof {
        lemma_u64_round_trip(blob_len);
    }
    push_bytes(&mut body, postings.blob.as_slice());
    push_bytes(&mut body, extension.as_slice());
    assert(body@ =~= postings_body(head, records, plan.file_trigram_count@));
    let sum: u32 = checksum(body.as_slice());
    write_u32(&mut body, sum);
    let ghost section = with_checksum(postings_body(head, records, plan.file_trigram_count@));
    assert(body@ == section);
    let mut bytes: Vec<u8> = Vec::new();
    write_u32(&mut bytes, CACHE_MAGIC);
    write_u32(&mut bytes, INDEX_VERSION);
    write_u64(&mut bytes, body.len() as u64);
    proof {
        lemma_u32_round_trip(CACHE_MAGIC);
        lemma_u32_round_trip(INDEX_VERSION);
        lemma_u64_round_trip(body@.len() as u64);
    }
    push_bytes(&mut bytes, body.as_slice());
    push_bytes(&mut bytes, lookup.as_slice());
    assert(bytes@ =~= cache_file(head, records, plan.file_trigram_count@));
    assert(bytes@.len() == bytes.len());
    assert(blob_start + 16 <= bytes.len());
    Ok(
        EncodedCache {
            bytes,
            base: BasePostings {
                postings_blob_start: blob_start + 16,
                postings_blob_len: blob_len,
                lookup: postings.lookup,
            },
        },
    )
}

} // verus!
