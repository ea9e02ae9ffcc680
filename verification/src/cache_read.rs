//! Reading a cache file.

use crate::codec::read_u32;
use crate::codec::read_u64;
use crate::codec::u32_at;
use crate::codec::u64_at;
use crate::file_entry::hash_from_bytes;
use crate::file_entry::ContentHash;
use crate::file_entry::Timestamp;
use crate::format::counts_magic;
use crate::format::counts_magic_bytes;
use crate::format::index_magic;
use crate::format::index_magic_bytes;
use crate::format::lookup_magic;
use crate::format::lookup_magic_bytes;
use crate::format::CACHE_MAGIC;
use crate::format::LOOKUP_ENTRY_BYTES;
use crate::format::MAX_ENTRIES;
use crate::format::MIN_FILE_ENTRY_BYTES;
use crate::outside::checksum;
use crate::outside::crc32;
use crate::outside::utf8_text;
use crate::path::PathKey;
use crate::path::SearchPath;
use crate::path_text::copy_range;
use crate::path_text::parse_path;
use crate::path_text::path_parts;
use crate::postings::ascending_lookup;
use crate::postings::decode_postings;
use crate::postings::postings_of;
use crate::postings::BasePostings;
use crate::postings::LookupEntry;
use crate::postings::Posting;
use crate::records::starts_with_at;
use crate::records::INDEX_VERSION;
use vstd::prelude::*;
use vstd::utf8::decode_utf8;
use vstd::utf8::valid_utf8;

verus! {

/// A file as a cache file names it.
pub struct ParsedFile {
    pub unindexed: bool,
    pub path: SearchPath,
    pub size: u64,
    pub modified: Timestamp,
    pub content_hash: ContentHash,
}

/// The mathematical counterpart of a `ParsedFile`.
pub struct ParsedFileView {
    pub unindexed: bool,
    pub path: PathKey,
    pub size: u64,
    pub modified: Timestamp,
    pub content_hash: Seq<u8>,
}

/// What a cache file says.
pub struct ParsedCache {
    pub git_head: Option<String>,
    pub ignore_fingerprint: String,
    pub max_file_size: u64,
    pub files: Vec<ParsedFile>,
    pub base: BasePostings,
    pub file_trigram_count: Vec<u32>,
    /// The file had no table of trigram counts: they were counted from the posting lists.
    pub migrated_counts: bool,
}

impl View for ParsedFile {
    type V = ParsedFileView;

    open spec fn view(&self) -> ParsedFileView {
        ParsedFileView {
            unindexed: self.unindexed,
            path: self.path@,
            size: self.size,
            modified: self.modified,
            content_hash: self.content_hash@,
        }
    }
}

// ---------------------------------------------------------------------------------------------
// Where things stand
// ---------------------------------------------------------------------------------------------

/// Where the postings section ends.
pub open spec fn section_end(bytes: Seq<u8>) -> int {
    16 + u64_at(bytes, 8)
}

/// Where the checksum of the postings section stands.
pub open spec fn body_end(bytes: Seq<u8>) -> int {
    section_end(bytes) - 4
}

pub open spec fn root_at(bytes: Seq<u8>) -> int {
    52 + u32_at(bytes, 28)
}

pub open spec fn fingerprint_at(bytes: Seq<u8>) -> int {
    root_at(bytes) + u32_at(bytes, 32)
}

pub open spec fn files_at(bytes: Seq<u8>) -> int {
    fingerprint_at(bytes) + u32_at(bytes, 36)
}

pub open spec fn stored_file_count(bytes: Seq<u8>) -> int {
    u32_at(bytes, 48) as int
}

/// Where file `i` stands.
pub open spec fn file_at(bytes: Seq<u8>, i: int) -> int
    decreases i,
{
    if i <= 0 {
        files_at(bytes)
    } else {
        let previous = file_at(bytes, i - 1);
        previous + 57 + u32_at(bytes, previous + 1)
    }
}

pub open spec fn path_bytes_at(bytes: Seq<u8>, at: int) -> Seq<u8> {
    bytes.subrange(at + 57, at + 57 + u32_at(bytes, at + 1))
}

/// The file that stands at `at`.
pub open spec fn parsed_file_at(bytes: Seq<u8>, at: int) -> ParsedFileView {
    ParsedFileView {
        unindexed: bytes[at] == 1,
        path: path_parts(path_bytes_at(bytes, at)),
        size: u64_at(bytes, at + 5),
        modified: Timestamp { secs: u64_at(bytes, at + 13) as i64, nanos: u32_at(bytes, at + 21) },
        content_hash: bytes.subrange(at + 25, at + 57),
    }
}

/// Where the length of the posting lists stands.
pub open spec fn blob_len_at(bytes: Seq<u8>) -> int {
    file_at(bytes, stored_file_count(bytes))
}

pub open spec fn stored_blob_len(bytes: Seq<u8>) -> u64 {
    u64_at(bytes, blob_len_at(bytes))
}

pub open spec fn blob_start(bytes: Seq<u8>) -> int {
    blob_len_at(bytes) + 8
}

pub open spec fn blob_end(bytes: Seq<u8>) -> int {
    blob_start(bytes) + stored_blob_len(bytes)
}

/// The lookup table and its checksum.
pub open spec fn lookup_part(bytes: Seq<u8>) -> Seq<u8> {
    bytes.skip(section_end(bytes))
}

/// Lookup entry `i` of a lookup table.
pub open spec fn lookup_entry_at(section: Seq<u8>, i: int) -> LookupEntry {
    LookupEntry {
        trigram: u32_at(section, 16 + 16 * i),
        offset: u64_at(section, 20 + 16 * i),
        count: u32_at(section, 28 + 16 * i),
    }
}

pub open spec fn stored_lookup(section: Seq<u8>) -> Seq<LookupEntry> {
    Seq::new(u32_at(section, 12) as nat, |i: int| lookup_entry_at(section, i))
}

// ---------------------------------------------------------------------------------------------
// What must hold
// ---------------------------------------------------------------------------------------------

/// The two outer numbers, the length of the postings section and the texts of the header.
pub open spec fn front_ok(bytes: Seq<u8>) -> bool {
    &&& bytes.len() >= 52
    &&& u32_at(bytes, 0) == CACHE_MAGIC
    &&& u32_at(bytes, 4) == INDEX_VERSION
    &&& section_end(bytes) <= bytes.len()
    &&& bytes.subrange(16, 24) == index_magic()
    &&& u32_at(bytes, 24) == INDEX_VERSION
    &&& stored_file_count(bytes) <= MAX_ENTRIES
    &&& files_at(bytes) <= body_end(bytes)
    &&& valid_utf8(bytes.subrange(root_at(bytes), fingerprint_at(bytes)))
    &&& valid_utf8(bytes.subrange(fingerprint_at(bytes), files_at(bytes)))
}

/// A file stands at `at`, all of it before `end`. Its time has a place in a `Timestamp`.
pub open spec fn file_ok(bytes: Seq<u8>, at: int, end: int) -> bool {
    &&& at + 57 <= end
    &&& u64_at(bytes, at + 13) <= i64::MAX
    &&& u32_at(bytes, at + 21) < 1_000_000_000
    &&& at + 57 + u32_at(bytes, at + 1) <= end
    &&& valid_utf8(path_bytes_at(bytes, at))
}

pub open spec fn files_ok(bytes: Seq<u8>) -> bool {
    forall|i: int|
        0 <= i < stored_file_count(bytes) ==> file_ok(
            bytes,
            #[trigger] file_at(bytes, i),
            body_end(bytes),
        )
}

pub open spec fn blob_ok(bytes: Seq<u8>) -> bool {
    &&& blob_start(bytes) <= body_end(bytes)
    &&& blob_end(bytes) <= body_end(bytes)
    &&& stored_blob_len(bytes) % 6 == 0
}

/// The list that `entry` speaks of lies within a blob of `blob_len` bytes.
pub open spec fn entry_ok(entry: LookupEntry, blob_len: u64) -> bool {
    entry.count <= MAX_ENTRIES && entry.offset + entry.count * 6 <= blob_len
}

/// A lookup table: checksum, magic, version, and entries in ascending order that lie within the
/// posting lists.
pub open spec fn lookup_ok(section: Seq<u8>, blob_len: u64) -> bool {
    &&& section.len() >= 20
    &&& crc32(section.take(section.len() - 4)) == u32_at(section, section.len() - 4)
    &&& section.subrange(0, 8) == lookup_magic()
    &&& u32_at(section, 8) == INDEX_VERSION
    &&& u32_at(section, 12) <= MAX_ENTRIES
    &&& 16 + 16 * u32_at(section, 12) <= section.len() - 4
    &&& ascending_lookup(stored_lookup(section))
    &&& forall|i: int|
        0 <= i < stored_lookup(section).len() ==> entry_ok(
            #[trigger] stored_lookup(section)[i],
            blob_len,
        )
}

/// The table of trigram counts behind the posting lists, if any.
pub enum StoredCounts {
    Absent,
    Broken,
    Counts(Seq<u32>),
}

pub open spec fn stored_counts(
    bytes: Seq<u8>,
    start: int,
    end: int,
    file_count: int,
) -> StoredCounts {
    if end - start < 16 || bytes.subrange(start, start + 8) != counts_magic() {
        StoredCounts::Absent
    } else if u32_at(bytes, start + 8) != INDEX_VERSION || u32_at(bytes, start + 12) != file_count
        || 16 + 4 * file_count > end - start {
        StoredCounts::Broken
    } else {
        StoredCounts::Counts(
            Seq::new(file_count as nat, |i: int| u32_at(bytes, start + 16 + 4 * i)),
        )
    }
}

/// How many of `postings` speak of `file_id`.
pub open spec fn occurrences(postings: Seq<Posting>, file_id: u32) -> int
    decreases postings.len(),
{
    if postings.len() == 0 {
        0
    } else {
        occurrences(postings.drop_last(), file_id) + (if postings.last().file_id == file_id {
            1int
        } else {
            0
        })
    }
}

/// The postings of the first `count` lookup entries, one list after the other.
pub open spec fn listed_postings(blob: Seq<u8>, lookup: Seq<LookupEntry>, count: int) -> Seq<
    Posting,
>
    decreases count,
{
    if count <= 0 {
        Seq::empty()
    } else {
        let entry = lookup[count - 1];
        listed_postings(blob, lookup, count - 1) + postings_of(
            blob.subrange(entry.offset as int, entry.offset + entry.count * 6),
        )
    }
}

pub open spec fn all_known(postings: Seq<Posting>, file_count: int) -> bool {
    forall|i: int| 0 <= i < postings.len() ==> (#[trigger] postings[i]).file_id < file_count
}

pub open spec fn clamped(count: int) -> u32 {
    if count > u32::MAX {
        u32::MAX
    } else {
        count as u32
    }
}

/// The number of postings of each file.
pub open spec fn counted(postings: Seq<Posting>, file_count: nat) -> Seq<u32> {
    Seq::new(file_count, |i: int| clamped(occurrences(postings, i as u32)))
}

pub open spec fn stored_postings(bytes: Seq<u8>) -> Seq<Posting> {
    let lookup = stored_lookup(lookup_part(bytes));
    listed_postings(
        bytes.subrange(blob_start(bytes), blob_end(bytes)),
        lookup,
        lookup.len() as int,
    )
}

pub open spec fn counts_in(bytes: Seq<u8>) -> StoredCounts {
    stored_counts(bytes, blob_end(bytes), body_end(bytes), stored_file_count(bytes))
}

pub open spec fn counts_ok(bytes: Seq<u8>) -> bool {
    match counts_in(bytes) {
        StoredCounts::Absent => all_known(stored_postings(bytes), stored_file_count(bytes)),
        StoredCounts::Broken => false,
        StoredCounts::Counts(_) => true,
    }
}

/// The bytes are those of a cache file.
pub open spec fn cache_ok(bytes: Seq<u8>) -> bool {
    &&& front_ok(bytes)
    &&& files_ok(bytes)
    &&& blob_ok(bytes)
    &&& lookup_ok(lookup_part(bytes), stored_blob_len(bytes))
    &&& counts_ok(bytes)
}

/// The commit that the cache was written at: a text that is not empty.
pub open spec fn head_in(bytes: Seq<u8>) -> Option<Seq<char>> {
    let head = bytes.subrange(52, root_at(bytes));
    if valid_utf8(head) && decode_utf8(head).len() > 0 {
        Some(decode_utf8(head))
    } else {
        None
    }
}

pub open spec fn text_option(text: Option<String>) -> Option<Seq<char>> {
    match text {
        Some(text) => Some(text@),
        None => None,
    }
}

pub open spec fn counts_of(bytes: Seq<u8>) -> Seq<u32> {
    match counts_in(bytes) {
        StoredCounts::Counts(counts) => counts,
        _ => counted(stored_postings(bytes), stored_file_count(bytes) as nat),
    }
}

impl ParsedCache {
    /// This is what the bytes say.
    pub open spec fn reads(&self, bytes: Seq<u8>) -> bool {
        &&& text_option(self.git_head) == head_in(bytes)
        &&& self.ignore_fingerprint@ == decode_utf8(
            bytes.subrange(fingerprint_at(bytes), files_at(bytes)),
        )
        &&& self.max_file_size == u64_at(bytes, 40)
        &&& self.files@.len() == stored_file_count(bytes)
        &&& forall|i: int|
            0 <= i < self.files@.len() ==> (#[trigger] self.files@[i])@ == parsed_file_at(
                bytes,
                file_at(bytes, i),
            )
        &&& self.base.postings_blob_start == blob_start(bytes)
        &&& self.base.postings_blob_len == stored_blob_len(bytes)
        &&& self.base.lookup@ == stored_lookup(lookup_part(bytes))
        &&& self.file_trigram_count@ == counts_of(bytes)
        &&& self.migrated_counts == (counts_in(bytes) is Absent)
    }
}

// ---------------------------------------------------------------------------------------------
// Reading
// ---------------------------------------------------------------------------------------------

/// The texts and numbers in front of the files.
struct Front {
    git_head: Option<String>,
    ignore_fingerprint: String,
    max_file_size: u64,
    file_count: usize,
    files_start: usize,
    section_end: usize,
}

fn text_at(bytes: &[u8], start: usize, end: usize) -> (text: Option<String>)
    requires
        start <= end <= bytes@.len(),
    ensures
        match text {
            Some(text) => valid_utf8(bytes@.subrange(start as int, end as int)) && text@
                == decode_utf8(bytes@.subrange(start as int, end as int)),
            None => !valid_utf8(bytes@.subrange(start as int, end as int)),
        },
{
    utf8_text(copy_range(bytes, start, end))
}

fn read_front(bytes: &[u8]) -> (front: Option<Front>)
    ensures
        match front {
            Some(front) => {
                &&& front_ok(bytes@)
                &&& text_option(front.git_head) == head_in(bytes@)
                &&& front.ignore_fingerprint@ == decode_utf8(
                    bytes@.subrange(fingerprint_at(bytes@), files_at(bytes@)),
                )
                &&& front.max_file_size == u64_at(bytes@, 40)
                &&& front.file_count == stored_file_count(bytes@)
                &&& front.files_start == files_at(bytes@)
                &&& front.section_end == section_end(bytes@)
            },
            None => !front_ok(bytes@),
        },
{
    if bytes.len() < 52 {
        return None;
    }
    let total: u64 = read_u64(bytes, 8);
    let magic = index_magic_bytes();
    if read_u32(bytes, 0) != CACHE_MAGIC || read_u32(bytes, 4) != INDEX_VERSION {
        return None;
    }
    if total > bytes.len() as u64 - 16 || total < 4 {
        return None;
    }
    let section_end: usize = 16 + total as usize;
    let body_end: usize = section_end - 4;
    if !starts_with_at(bytes, 16, magic.as_slice()) || read_u32(bytes, 24) != INDEX_VERSION {
        return None;
    }
    let head_len: u64 = read_u32(bytes, 28) as u64;
    let root_len: u64 = read_u32(bytes, 32) as u64;
    let fingerprint_len: u64 = read_u32(bytes, 36) as u64;
    let file_count: u32 = read_u32(bytes, 48);
    if file_count as u64 > MAX_ENTRIES as u64 {
        return None;
    }
    let texts: u64 = 52 + head_len + root_len + fingerprint_len;
    if texts > body_end as u64 {
        return None;
    }
    let root_start: usize = 52 + head_len as usize;
    let fingerprint_start: usize = root_start + root_len as usize;
    let files_start: usize = fingerprint_start + fingerprint_len as usize;
    let git_head: Option<String> = match text_at(bytes, 52, root_start) {
        Some(head) => {
            if head.as_str().is_empty() {
                proof {
                    assert(head@ =~= Seq::<char>::empty()) by {
                        lemma_empty_text(head@);
                    }
                }
                None
            } else {
                proof {
                    if head@.len() == 0 {
                        assert(head@ =~= Seq::<char>::empty());
                        assert(vstd::utf8::encode_utf8(head@) =~= Seq::<u8>::empty());
                    }
                }
                Some(head)
            }
        },
        None => None,
    };
    if text_at(bytes, root_start, fingerprint_start).is_none() {
        return None;
    }
    let ignore_fingerprint: String = match text_at(bytes, fingerprint_start, files_start) {
        Some(text) => text,
        None => {
            return None;
        },
    };
    Some(
        Front {
            git_head,
            ignore_fingerprint,
            max_file_size: read_u64(bytes, 40),
            file_count: file_count as usize,
            files_start,
            section_end,
        },
    )
}

proof fn lemma_empty_text(text: Seq<char>)
    requires
        vstd::utf8::encode_utf8(text).len() == 0,
    ensures
        text.len() == 0,
{
    if text.len() > 0 {
        vstd::utf8::encode_utf8_first_scalar(text);
    }
}

/// The file at `at` and where the next one stands.
fn read_file(bytes: &[u8], at: usize, end: usize) -> (file: Option<(ParsedFile, usize)>)
    requires
        at <= end <= bytes@.len(),
    ensures
        match file {
            Some((file, next)) => {
                &&& file_ok(bytes@, at as int, end as int)
                &&& file@ == parsed_file_at(bytes@, at as int)
                &&& next == at + 57 + u32_at(bytes@, at + 1)
                &&& next <= end
            },
            None => !file_ok(bytes@, at as int, end as int),
        },
{
    if end - at < MIN_FILE_ENTRY_BYTES {
        return None;
    }
    let path_len: u32 = read_u32(bytes, at + 1);
    let secs: u64 = read_u64(bytes, at + 13);
    let nanos: u32 = read_u32(bytes, at + 21);
    if nanos >= 1_000_000_000 || secs > i64::MAX as u64 {
        return None;
    }
    if path_len as u64 > (end - at - 57) as u64 {
        return None;
    }
    let path_start: usize = at + 57;
    let next: usize = path_start + path_len as usize;
    let path_bytes = copy_range(bytes, path_start, next);
    let path = parse_path(path_bytes.as_slice());
    if utf8_text(path_bytes).is_none() {
        return None;
    }
    Some(
        (
            ParsedFile {
                unindexed: bytes[at] == 1,
                path,
                size: read_u64(bytes, at + 5),
                modified: Timestamp { secs: secs as i64, nanos },
                content_hash: hash_from_bytes(bytes, at + 25),
            },
            next,
        ),
    )
}

fn read_files(bytes: &[u8], front: &Front) -> (files: Option<(Vec<ParsedFile>, usize)>)
    requires
        front_ok(bytes@),
        front.file_count == stored_file_count(bytes@),
        front.files_start == files_at(bytes@),
        front.section_end == section_end(bytes@),
    ensures
        match files {
            Some((files, end)) => {
                &&& files_ok(bytes@)
                &&& files@.len() == stored_file_count(bytes@)
                &&& forall|i: int|
                    0 <= i < files@.len() ==> (#[trigger] files@[i])@ == parsed_file_at(
                        bytes@,
                        file_at(bytes@, i),
                    )
                &&& end == blob_len_at(bytes@)
                &&& end <= body_end(bytes@)
            },
            None => !files_ok(bytes@),
        },
{
    let end: usize = front.section_end - 4;
    let mut files: Vec<ParsedFile> = Vec::new();
    let mut at: usize = front.files_start;
    let mut i: usize = 0;
    while i < front.file_count
        invariant
            i <= front.file_count,
            front.file_count == stored_file_count(bytes@),
            end == body_end(bytes@),
            at <= end <= bytes@.len(),
            at == file_at(bytes@, i as int),
            files@.len() == i,
            forall|k: int| 0 <= k < i ==> file_ok(bytes@, #[trigger] file_at(bytes@, k), end as int),
            forall|k: int|
                0 <= k < i ==> (#[trigger] files@[k])@ == parsed_file_at(
                    bytes@,
                    file_at(bytes@, k),
                ),
        decreases front.file_count - i,
    {
        match read_file(bytes, at, end) {
            Some((file, next)) => {
                files.push(file);
                at = next;
            },
            None => {
                assert(!file_ok(bytes@, file_at(bytes@, i as int), end as int));
                return None;
            },
        }
        i += 1;
    }
    Some((files, at))
}

/// The lookup table of a cache file, where its checksum and all its entries hold.
fn read_lookup(section: &[u8], blob_len: u64) -> (lookup: Option<Vec<LookupEntry>>)
    ensures
        match lookup {
            Some(lookup) => lookup_ok(section@, blob_len) && lookup@ == stored_lookup(section@),
            None => !lookup_ok(section@, blob_len),
        },
{
    if section.len() < 20 {
        return None;
    }
    let body_len: usize = section.len() - 4;
    if !checksum_holds(section) {
        return None;
    }
    let magic = lookup_magic_bytes();
    if !starts_with_at(section, 0, magic.as_slice()) || read_u32(section, 8) != INDEX_VERSION {
        return None;
    }
    let count: u32 = read_u32(section, 12);
    if count as u64 > MAX_ENTRIES as u64 {
        return None;
    }
    let entry_count: usize = count as usize;
    if entry_count * LOOKUP_ENTRY_BYTES > body_len - 16 {
        return None;
    }
    let ghost stored = stored_lookup(section@);
    let mut lookup: Vec<LookupEntry> = Vec::with_capacity(entry_count);
    let mut i: usize = 0;
    while i < entry_count
        invariant
            i <= entry_count <= MAX_ENTRIES,
            stored == stored_lookup(section@),
            stored.len() == entry_count,
            16 + 16 * entry_count <= section@.len() - 4,
            lookup@ == stored.take(i as int),
            forall|a: int, b: int|
                0 <= a < b < i ==> (#[trigger] stored[a]).trigram < (#[trigger] stored[b]).trigram,
            forall|k: int| 0 <= k < i ==> entry_ok(#[trigger] stored[k], blob_len),
        decreases entry_count - i,
    {
        let at: usize = 16 + 16 * i;
        let entry = LookupEntry {
            trigram: read_u32(section, at),
            offset: read_u64(section, at + 4),
            count: read_u32(section, at + 12),
        };
        assert(stored[i as int] == entry);
        if entry.count as u64 > MAX_ENTRIES as u64 {
            assert(!entry_ok(stored[i as int], blob_len));
            return None;
        }
        if i > 0 && lookup[i - 1].trigram >= entry.trigram {
            assert(stored[i - 1].trigram >= stored[i as int].trigram);
            return None;
        }
        let in_blob: bool = match entry.offset.checked_add(entry.count as u64 * 6) {
            Some(end) => end <= blob_len,
            None => false,
        };
        if !in_blob {
            assert(!entry_ok(stored[i as int], blob_len));
            return None;
        }
        lookup.push(entry);
        proof {
            assert(lookup@ =~= stored.take(i + 1));
            assert forall|a: int, b: int| 0 <= a < b < i + 1 implies (
            #[trigger] stored[a]).trigram < (#[trigger] stored[b]).trigram by {
                if b == i {
                    assert(stored[i - 1].trigram < stored[i as int].trigram);
                    if a < i - 1 {
                        assert(stored[a].trigram < stored[i - 1].trigram);
                    }
                }
            }
        }
        i += 1;
    }
    assert(lookup@ =~= stored);
    Some(lookup)
}

/// The last four bytes are the checksum of what stands before them.
pub fn checksum_holds(bytes: &[u8]) -> (holds: bool)
    ensures
        holds == (bytes@.len() >= 4 && crc32(bytes@.take(bytes@.len() - 4)) == u32_at(
            bytes@,
            bytes@.len() - 4,
        )),
{
    if bytes.len() < 4 {
        return false;
    }
    let body_len: usize = bytes.len() - 4;
    let body = copy_range(bytes, 0, body_len);
    assert(body@ =~= bytes@.take(body_len as int));
    checksum(body.as_slice()) == read_u32(bytes, body_len)
}

/// A table of trigram counts that was found.
enum FoundCounts {
    Absent,
    Broken,
    Counts(Vec<u32>),
}

/// The table of trigram counts between `start` and `end`, if there is one.
fn read_file_trigram_count_extension(
    bytes: &[u8],
    start: usize,
    end: usize,
    file_count: usize,
) -> (found: FoundCounts)
    requires
        start <= end <= bytes@.len(),
        file_count <= MAX_ENTRIES,
    ensures
        match found {
            FoundCounts::Absent => stored_counts(
                bytes@,
                start as int,
                end as int,
                file_count as int,
            ) is Absent,
            FoundCounts::Broken => stored_counts(
                bytes@,
                start as int,
                end as int,
                file_count as int,
            ) is Broken,
            FoundCounts::Counts(counts) => stored_counts(
                bytes@,
                start as int,
                end as int,
                file_count as int,
            ) == StoredCounts::Counts(counts@),
        },
{
    if end - start < 16 {
        return FoundCounts::Absent;
    }
    let magic = counts_magic_bytes();
    if !starts_with_at(bytes, start, magic.as_slice()) {
        return FoundCounts::Absent;
    }
    if read_u32(bytes, start + 8) != INDEX_VERSION {
        return FoundCounts::Broken;
    }
    if read_u32(bytes, start + 12) as u64 != file_count as u64 {
        return FoundCounts::Broken;
    }
    if 16 + 4 * file_count > end - start {
        return FoundCounts::Broken;
    }
    let ghost all = Seq::new(file_count as nat, |i: int| u32_at(bytes@, start + 16 + 4 * i));
    let mut counts: Vec<u32> = Vec::with_capacity(file_count);
    let mut i: usize = 0;
    while i < file_count
        invariant
            i <= file_count,
            start + 16 + 4 * file_count <= bytes@.len(),
            bytes@.len() == bytes.len(),
            all == Seq::new(file_count as nat, |k: int| u32_at(bytes@, start + 16 + 4 * k)),
            counts@ == all.take(i as int),
        decreases file_count - i,
    {
        counts.push(read_u32(bytes, start + 16 + 4 * i));
        i += 1;
        assert(counts@ =~= all.take(i as int));
    }
    assert(counts@ =~= all);
    FoundCounts::Counts(counts)
}

proof fn lemma_occurrences_step(postings: Seq<Posting>, more: Seq<Posting>, i: int, file_id: u32)
    requires
        0 <= i < more.len(),
    ensures
        occurrences(postings + more.take(i + 1), file_id) == occurrences(
            postings + more.take(i),
            file_id,
        ) + (if more[i].file_id == file_id {
            1int
        } else {
            0
        }),
{
    let next = postings + more.take(i + 1);
    assert(next.drop_last() =~= postings + more.take(i));
    assert(next.last() == more[i]);
}

/// Counts the postings of each file; nothing where a posting speaks of a file that is not there.
fn compute_file_trigram_counts_from_base(
    bytes: &[u8],
    start: usize,
    lookup: &Vec<LookupEntry>,
    blob_len: u64,
    file_count: usize,
) -> (counts: Option<Vec<u32>>)
    requires
        start + blob_len <= bytes@.len(),
        file_count <= MAX_ENTRIES,
        forall|i: int| 0 <= i < lookup@.len() ==> entry_ok(#[trigger] lookup@[i], blob_len),
    ensures
        ({
            let all = listed_postings(
                bytes@.subrange(start as int, start + blob_len),
                lookup@,
                lookup@.len() as int,
            );
            match counts {
                Some(counts) => all_known(all, file_count as int) && counts@ == counted(
                    all,
                    file_count as nat,
                ),
                None => !all_known(all, file_count as int),
            }
        }),
{
    let ghost blob = bytes@.subrange(start as int, start + blob_len);
    let mut counts: Vec<u32> = Vec::with_capacity(file_count);
    while counts.len() < file_count
        invariant
            counts@.len() <= file_count,
            forall|k: int| 0 <= k < counts@.len() ==> #[trigger] counts@[k] == 0,
        decreases file_count - counts@.len(),
    {
        counts.push(0);
    }
    assert(counts@ =~= counted(listed_postings(blob, lookup@, 0), file_count as nat));
    let mut i: usize = 0;
    while i < lookup.len()
        invariant
            bytes@.len() == bytes.len(),
            start + blob_len <= bytes@.len(),
            file_count <= MAX_ENTRIES,
            blob == bytes@.subrange(start as int, start + blob_len),
            forall|k: int| 0 <= k < lookup@.len() ==> entry_ok(#[trigger] lookup@[k], blob_len),
            i <= lookup@.len(),
            all_known(listed_postings(blob, lookup@, i as int), file_count as int),
            counts@ == counted(listed_postings(blob, lookup@, i as int), file_count as nat),
        decreases lookup@.len() - i,
    {
        let entry: LookupEntry = lookup[i];
        assert(entry_ok(lookup@[i as int], blob_len));
        let from: usize = start + entry.offset as usize;
        let to: usize = from + entry.count as usize * 6;
        let list = copy_range(bytes, from, to);
        let postings = decode_postings(list.as_slice());
        let ghost before = listed_postings(blob, lookup@, i as int);
        proof {
            assert(list@ =~= blob.subrange(
                entry.offset as int,
                entry.offset + entry.count * 6,
            ));
            assert(before + postings@.take(0) =~= before);
        }
        let mut k: usize = 0;
        while k < postings.len()
            invariant
                k <= postings@.len(),
                file_count <= MAX_ENTRIES,
                i < lookup@.len(),
                blob == bytes@.subrange(start as int, start + blob_len),
                before == listed_postings(blob, lookup@, i as int),
                before + postings@ == listed_postings(blob, lookup@, i + 1),
                all_known(before + postings@.take(k as int), file_count as int),
                counts@ == counted(before + postings@.take(k as int), file_count as nat),
            decreases postings@.len() - k,
        {
            let id: u32 = postings[k].file_id;
            if id as u64 >= file_count as u64 {
                proof {
                    assert((before + postings@)[before.len() + k] == postings@[k as int]);
                    lemma_unknown_stays(
                        blob,
                        lookup@,
                        i + 1,
                        lookup@.len() as int,
                        file_count as int,
                    );
                }
                return None;
            }
            let slot: usize = id as usize;
            let count: u32 = counts[slot];
            counts.set(slot, count.saturating_add(1));
            proof {
                let next = before + postings@.take(k + 1);
                assert forall|f: int| 0 <= f < file_count implies counts@[f] == counted(
                    next,
                    file_count as nat,
                )[f] by {
                    lemma_occurrences_step(before, postings@, k as int, f as u32);
                    lemma_occurrences_bound(before + postings@.take(k as int), f as u32);
                }
                assert(counts@ =~= counted(next, file_count as nat));
                assert(next =~= (before + postings@.take(k as int)).push(postings@[k as int]));
            }
            k += 1;
        }
        assert(postings@.take(k as int) =~= postings@);
        i += 1;
    }
    Some(counts)
}

proof fn lemma_occurrences_bound(postings: Seq<Posting>, file_id: u32)
    ensures
        0 <= occurrences(postings, file_id),
    decreases postings.len(),
{
    if postings.len() > 0 {
        lemma_occurrences_bound(postings.drop_last(), file_id);
    }
}

proof fn lemma_unknown_stays(
    blob: Seq<u8>,
    lookup: Seq<LookupEntry>,
    few: int,
    many: int,
    file_count: int,
)
    requires
        0 <= few <= many,
        !all_known(listed_postings(blob, lookup, few), file_count),
    ensures
        !all_known(listed_postings(blob, lookup, many), file_count),
    decreases many,
{
    if few < many {
        lemma_unknown_stays(blob, lookup, few, many - 1, file_count);
        let earlier = listed_postings(blob, lookup, many - 1);
        let i = choose|i: int|
            0 <= i < earlier.len() && (#[trigger] earlier[i]).file_id >= file_count;
        assert(listed_postings(blob, lookup, many)[i] == earlier[i]);
    }
}

/// What a cache file says, where its bytes are those of one.
pub fn parse_cache(bytes: &[u8]) -> (parsed: Option<ParsedCache>)
    ensures
        match parsed {
            Some(parsed) => cache_ok(bytes@) && parsed.reads(bytes@)
                && parsed.base.well_formed(),
            None => !cache_ok(bytes@),
        },
{
    let front = match read_front(bytes) {
        Some(front) => front,
        None => {
            return None;
        },
    };
    let body_end: usize = front.section_end - 4;
    let (files, len_at) = match read_files(bytes, &front) {
        Some(found) => found,
        None => {
            return None;
        },
    };
    if body_end - len_at < 8 {
        return None;
    }
    let blob_len: u64 = read_u64(bytes, len_at);
    let start: usize = len_at + 8;
    if blob_len > (body_end - start) as u64 || blob_len % 6 != 0 {
        return None;
    }
    let section = copy_range(bytes, front.section_end, bytes.len());
    assert(section@ =~= lookup_part(bytes@));
    let lookup = match read_lookup(section.as_slice(), blob_len) {
        Some(lookup) => lookup,
        None => {
            return None;
        },
    };
    let extension: usize = start + blob_len as usize;
    let (file_trigram_count, migrated_counts) = match read_file_trigram_count_extension(
        bytes,
        extension,
        body_end,
        front.file_count,
    ) {
        FoundCounts::Counts(counts) => (counts, false),
        FoundCounts::Broken => {
            return None;
        },
        FoundCounts::Absent => match compute_file_trigram_counts_from_base(
            bytes,
            start,
            &lookup,
            blob_len,
            front.file_count,
        ) {
            Some(counts) => (counts, true),
            None => {
                return None;
            },
        },
    };
    Some(
        ParsedCache {
            git_head: front.git_head,
            ignore_fingerprint: front.ignore_fingerprint,
            max_file_size: front.max_file_size,
            files,
            base: BasePostings {
                postings_blob_start: start as u64,
                postings_blob_len: blob_len,
                lookup,
            },
            file_trigram_count,
            migrated_counts,
        },
    )
}

} // verus!
