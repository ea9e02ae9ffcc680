//! A cache file read back says what was written.

use crate::cache_read::blob_end;
use crate::cache_read::blob_len_at;
use crate::cache_read::blob_start;
use crate::cache_read::body_end;
use crate::cache_read::cache_ok;
use crate::cache_read::counts_in;
use crate::cache_read::entry_ok;
use crate::cache_read::file_at;
use crate::cache_read::file_ok;
use crate::cache_read::files_at;
use crate::cache_read::fingerprint_at;
use crate::cache_read::head_in;
use crate::cache_read::lookup_entry_at;
use crate::cache_read::lookup_ok;
use crate::cache_read::lookup_part;
use crate::cache_read::parsed_file_at;
use crate::cache_read::path_bytes_at;
use crate::cache_read::root_at;
use crate::cache_read::section_end;
use crate::cache_read::stored_blob_len;
use crate::cache_read::stored_counts;
use crate::cache_read::stored_file_count;
use crate::cache_read::stored_lookup;
use crate::cache_read::ParsedFileView;
use crate::cache_read::StoredCounts;
use crate::codec::lemma_u32_at;
use crate::codec::lemma_u32_round_trip;
use crate::codec::lemma_u64_at;
use crate::codec::lemma_u64_round_trip;
use crate::codec::u32_at;
use crate::codec::u32_bytes;
use crate::codec::u64_at;
use crate::codec::u64_bytes;
use crate::file_entry::Timestamp;
use crate::format::cache_file;
use crate::format::counts_bytes;
use crate::format::counts_extension;
use crate::format::counts_magic;
use crate::format::header_bytes;
use crate::format::index_magic;
use crate::format::lookup_body;
use crate::format::lookup_entries_bytes;
use crate::format::lookup_entry_bytes;
use crate::format::lookup_magic;
use crate::format::lookup_section;
use crate::format::name_below;
use crate::format::postings_body;
use crate::format::stored_file_bytes;
use crate::format::stored_files_bytes;
use crate::format::stored_text;
use crate::format::with_checksum;
use crate::format::CACHE_MAGIC;
use crate::format::Header;
use crate::format::MAX_ENTRIES;
use crate::format::StoredFile;
use crate::merge::lookup_fits;
use crate::merge::lookup_of;
use crate::merge_laws::lemma_blob_piece;
use crate::merge_laws::lemma_lookup_is_ascending;
use crate::merge_laws::lemma_spans_tile;
use crate::merge_laws::trigrams_sorted;
use crate::outside::crc32;
use crate::path::names_only;
use crate::path::normalized;
use crate::path::PathKey;
use crate::path_text::cached_full;
use crate::path_text::lemma_path_survives_text;
use crate::path_text::path_parts;
use crate::path_text::path_text;
use crate::path_text::textual;
use crate::postings::LookupEntry;
use crate::records::record_bytes;
use crate::records::INDEX_VERSION;
use crate::records::SpillRecord;
use vstd::prelude::*;
use vstd::utf8::decode_utf8;
use vstd::utf8::valid_utf8;

verus! {

// ---------------------------------------------------------------------------------------------
// Pieces
// ---------------------------------------------------------------------------------------------

/// A piece stands behind what comes before it.
proof fn lemma_piece(before: Seq<u8>, piece: Seq<u8>, after: Seq<u8>)
    ensures
        (before + piece + after).subrange(
            before.len() as int,
            (before.len() + piece.len()) as int,
        ) == piece,
{
    assert((before + piece + after).subrange(
        before.len() as int,
        (before.len() + piece.len()) as int,
    ) =~= piece);
}

/// A number between two pieces is read back from behind the first.
pub proof fn lemma_u32_piece(bytes: Seq<u8>, before: Seq<u8>, value: u32, after: Seq<u8>)
    requires
        bytes == before + u32_bytes(value) + after,
    ensures
        u32_at(bytes, before.len() as int) == value,
        bytes.len() == before.len() + 4 + after.len(),
{
    lemma_u32_round_trip(value);
    lemma_piece(before, u32_bytes(value), after);
    lemma_u32_at(bytes, before.len() as int, value);
}

/// A wide number between two pieces is read back from behind the first.
pub proof fn lemma_u64_piece(bytes: Seq<u8>, before: Seq<u8>, value: u64, after: Seq<u8>)
    requires
        bytes == before + u64_bytes(value) + after,
    ensures
        u64_at(bytes, before.len() as int) == value,
        bytes.len() == before.len() + 8 + after.len(),
{
    lemma_u64_round_trip(value);
    lemma_piece(before, u64_bytes(value), after);
    lemma_u64_at(bytes, before.len() as int, value);
}

proof fn lemma_regroup(before: Seq<u8>, a: Seq<u8>, b: Seq<u8>, c: Seq<u8>, after: Seq<u8>)
    ensures
        before + (a + (b + c)) + after == (before + a) + b + (c + after),
{
    assert(before + (a + (b + c)) + after =~= (before + a) + b + (c + after));
}

// ---------------------------------------------------------------------------------------------
// Files
// ---------------------------------------------------------------------------------------------

/// A file that a reader takes.
pub open spec fn storable(file: StoredFile) -> bool {
    &&& file.path.len() <= u32::MAX
    &&& valid_utf8(file.path)
    &&& file.secs <= i64::MAX
    &&& file.nanos < 1_000_000_000
    &&& file.content_hash.len() == 32
}

pub open spec fn read_back(file: StoredFile) -> ParsedFileView {
    ParsedFileView {
        unindexed: file.unindexed,
        path: path_parts(file.path),
        size: file.size,
        modified: Timestamp { secs: file.secs as i64, nanos: file.nanos },
        content_hash: file.content_hash,
    }
}

proof fn lemma_stored_file_survives(bytes: Seq<u8>, before: Seq<u8>, file: StoredFile, after: Seq<u8>)
    requires
        storable(file),
        bytes == before + stored_file_bytes(file) + after,
    ensures
        ({
            let at = before.len() as int;
            &&& stored_file_bytes(file).len() == 57 + file.path.len()
            &&& u32_at(bytes, at + 1) == file.path.len()
            &&& u64_at(bytes, at + 13) == file.secs
            &&& u32_at(bytes, at + 21) == file.nanos
            &&& path_bytes_at(bytes, at) == file.path
            &&& parsed_file_at(bytes, at) == read_back(file)
        }),
{
    let at = before.len() as int;
    let flag = seq![if file.unindexed { 1u8 } else { 0u8 }];
    let len = u32_bytes(file.path.len() as u32);
    let size = u64_bytes(file.size);
    let secs = u64_bytes(file.secs);
    let nanos = u32_bytes(file.nanos);
    lemma_u32_round_trip(file.path.len() as u32);
    lemma_u64_round_trip(file.size);
    lemma_u64_round_trip(file.secs);
    lemma_u32_round_trip(file.nanos);
    let tail_nanos = file.content_hash + file.path + after;
    let tail_secs = nanos + tail_nanos;
    let tail_size = secs + tail_secs;
    let tail_len = size + tail_size;
    assert(bytes =~= (before + flag) + len + tail_len);
    lemma_u32_piece(bytes, before + flag, file.path.len() as u32, tail_len);
    assert(bytes =~= (before + flag + len) + size + tail_size);
    lemma_u64_piece(bytes, before + flag + len, file.size, tail_size);
    assert(bytes =~= (before + flag + len + size) + secs + tail_secs);
    lemma_u64_piece(bytes, before + flag + len + size, file.secs, tail_secs);
    assert(bytes =~= (before + flag + len + size + secs) + nanos + tail_nanos);
    lemma_u32_piece(bytes, before + flag + len + size + secs, file.nanos, tail_nanos);
    let front = before + flag + len + size + secs + nanos;
    assert(front.len() == at + 25);
    assert(bytes =~= front + file.content_hash + (file.path + after));
    lemma_piece(front, file.content_hash, file.path + after);
    assert(bytes =~= (front + file.content_hash) + file.path + after);
    lemma_piece(front + file.content_hash, file.path, after);
    assert(bytes[at] == flag[0]);
}

/// The files from `i` on.
spec fn later_files_bytes(files: Seq<StoredFile>, i: int) -> Seq<u8>
    decreases files.len() - i,
{
    if i < 0 || i >= files.len() {
        Seq::empty()
    } else {
        stored_file_bytes(files[i]) + later_files_bytes(files, i + 1)
    }
}

proof fn lemma_files_split(files: Seq<StoredFile>, i: int)
    requires
        0 <= i <= files.len(),
    ensures
        stored_files_bytes(files) == stored_files_bytes(files.take(i)) + later_files_bytes(
            files,
            i,
        ),
    decreases files.len() - i,
{
    if i == files.len() {
        assert(files.take(i) =~= files);
        assert(stored_files_bytes(files) =~= stored_files_bytes(files.take(i)) + later_files_bytes(
            files,
            i,
        ));
    } else {
        lemma_files_split(files, i + 1);
        assert(files.take(i + 1).drop_last() =~= files.take(i));
        assert(files.take(i + 1).last() == files[i]);
        assert(stored_files_bytes(files) =~= stored_files_bytes(files.take(i)) + later_files_bytes(
            files,
            i,
        ));
    }
}

proof fn lemma_files_survive(
    bytes: Seq<u8>,
    before: Seq<u8>,
    files: Seq<StoredFile>,
    after: Seq<u8>,
    i: int,
)
    requires
        bytes == before + stored_files_bytes(files) + after,
        files_at(bytes) == before.len(),
        forall|k: int| 0 <= k < files.len() ==> storable(#[trigger] files[k]),
        0 <= i <= files.len(),
    ensures
        file_at(bytes, i) == before.len() + stored_files_bytes(files.take(i)).len(),
        forall|k: int|
            0 <= k < i ==> parsed_file_at(bytes, #[trigger] file_at(bytes, k)) == read_back(
                files[k],
            ),
        forall|k: int|
            0 <= k < i ==> file_ok(
                bytes,
                #[trigger] file_at(bytes, k),
                (before.len() + stored_files_bytes(files).len()) as int,
            ),
    decreases i,
{
    if i == 0 {
        assert(files.take(0) =~= Seq::<StoredFile>::empty());
    } else {
        lemma_files_survive(bytes, before, files, after, i - 1);
        let k = i - 1;
        lemma_file_in_place(bytes, before, files, after, k);
        assert(files.take(i).drop_last() =~= files.take(k));
        assert(files.take(i).last() == files[k]);
        assert(stored_files_bytes(files.take(i)).len() == stored_files_bytes(files.take(k)).len()
            + stored_file_bytes(files[k]).len());
    }
}

proof fn lemma_file_in_place(
    bytes: Seq<u8>,
    before: Seq<u8>,
    files: Seq<StoredFile>,
    after: Seq<u8>,
    k: int,
)
    requires
        bytes == before + stored_files_bytes(files) + after,
        0 <= k < files.len(),
        storable(files[k]),
    ensures
        ({
            let at = (before.len() + stored_files_bytes(files.take(k)).len()) as int;
            &&& stored_file_bytes(files[k]).len() == 57 + files[k].path.len()
            &&& u32_at(bytes, at + 1) == files[k].path.len()
            &&& parsed_file_at(bytes, at) == read_back(files[k])
            &&& file_ok(bytes, at, (before.len() + stored_files_bytes(files).len()) as int)
        }),
{
    lemma_files_split(files, k);
    let head = stored_files_bytes(files.take(k));
    let file = stored_file_bytes(files[k]);
    let tail = later_files_bytes(files, k + 1);
    lemma_regroup(before, head, file, tail, after);
    assert(bytes == (before + head) + file + (tail + after));
    lemma_stored_file_survives(bytes, before + head, files[k], tail + after);
    assert(stored_files_bytes(files).len() == head.len() + file.len() + tail.len());
}

// ---------------------------------------------------------------------------------------------
// Lookup table and counts
// ---------------------------------------------------------------------------------------------

/// A lookup entry takes sixteen bytes.
pub proof fn lemma_entries_len(entries: Seq<LookupEntry>)
    ensures
        lookup_entries_bytes(entries).len() == 16 * entries.len(),
    decreases entries.len(),
{
    if entries.len() > 0 {
        let last = entries.last();
        lemma_entries_len(entries.drop_last());
        lemma_u32_round_trip(last.trigram);
        lemma_u64_round_trip(last.offset);
        lemma_u32_round_trip(last.count);
    }
}

/// Lookup entries are read back as they were written.
pub proof fn lemma_entries_survive(
    bytes: Seq<u8>,
    before: Seq<u8>,
    entries: Seq<LookupEntry>,
    after: Seq<u8>,
)
    requires
        before.len() == 16,
        bytes == before + lookup_entries_bytes(entries) + after,
    ensures
        forall|i: int|
            0 <= i < entries.len() ==> #[trigger] lookup_entry_at(bytes, i) == entries[i],
    decreases entries.len(),
{
    if entries.len() > 0 {
        let prev = entries.drop_last();
        let last = entries.last();
        let n = entries.len() - 1;
        lemma_entries_len(prev);
        lemma_entries_len(entries);
        let body = lookup_entries_bytes(prev);
        assert(bytes =~= before + body + (lookup_entry_bytes(last) + after));
        lemma_entries_survive(bytes, before, prev, lookup_entry_bytes(last) + after);
        lemma_u32_round_trip(last.trigram);
        lemma_u64_round_trip(last.offset);
        let (t, o, c) = (u32_bytes(last.trigram), u64_bytes(last.offset), u32_bytes(last.count));
        assert(bytes =~= (before + body) + t + (o + c + after));
        lemma_u32_piece(bytes, before + body, last.trigram, o + c + after);
        assert(bytes =~= (before + body + t) + o + (c + after));
        lemma_u64_piece(bytes, before + body + t, last.offset, c + after);
        assert(bytes =~= (before + body + t + o) + c + after);
        lemma_u32_piece(bytes, before + body + t + o, last.count, after);
        assert(lookup_entry_at(bytes, n) == last);
        assert forall|i: int| 0 <= i < entries.len() implies #[trigger] lookup_entry_at(bytes, i)
            == entries[i] by {
            if i < n {
                assert(prev[i] == entries[i]);
            }
        }
    }
}

/// A lookup table read back holds the entries that were written.
pub proof fn lemma_lookup_survives(entries: Seq<LookupEntry>, blob_len: u64)
    requires
        entries.len() <= MAX_ENTRIES,
        crate::postings::ascending_lookup(entries),
        forall|i: int| 0 <= i < entries.len() ==> entry_ok(#[trigger] entries[i], blob_len),
    ensures
        lookup_ok(lookup_section(entries), blob_len),
        stored_lookup(lookup_section(entries)) == entries,
{
    let section = lookup_section(entries);
    let body = lookup_body(entries);
    let sum = crc32(body);
    let count = entries.len() as u32;
    let all = lookup_entries_bytes(entries);
    let (version, number, tail) = (u32_bytes(INDEX_VERSION), u32_bytes(count), u32_bytes(sum));
    lemma_u32_round_trip(INDEX_VERSION);
    lemma_u32_round_trip(count);
    lemma_u32_round_trip(sum);
    lemma_entries_len(entries);
    assert(section =~= body + tail + Seq::<u8>::empty());
    lemma_u32_piece(section, body, sum, Seq::empty());
    assert(section.take(section.len() - 4) =~= body);
    assert(section =~= lookup_magic() + version + (number + all + tail));
    lemma_u32_piece(section, lookup_magic(), INDEX_VERSION, number + all + tail);
    assert(section =~= (lookup_magic() + version) + number + (all + tail));
    lemma_u32_piece(section, lookup_magic() + version, count, all + tail);
    assert(section.subrange(0, 8) =~= lookup_magic());
    assert(section =~= (lookup_magic() + version + number) + all + tail);
    lemma_entries_survive(section, lookup_magic() + version + number, entries, tail);
    assert(stored_lookup(section) =~= entries);
}

/// A count takes four bytes.
pub proof fn lemma_counts_len(counts: Seq<u32>)
    ensures
        counts_bytes(counts).len() == 4 * counts.len(),
    decreases counts.len(),
{
    if counts.len() > 0 {
        lemma_counts_len(counts.drop_last());
        lemma_u32_round_trip(counts.last());
    }
}

/// Counts are read back as they were written.
pub proof fn lemma_counts_survive(bytes: Seq<u8>, before: Seq<u8>, counts: Seq<u32>, after: Seq<u8>)
    requires
        bytes == before + counts_bytes(counts) + after,
    ensures
        forall|i: int|
            0 <= i < counts.len() ==> u32_at(bytes, before.len() + 4 * i) == #[trigger] counts[i],
    decreases counts.len(),
{
    if counts.len() > 0 {
        let prev = counts.drop_last();
        let last = counts.last();
        lemma_counts_len(prev);
        assert(bytes =~= before + counts_bytes(prev) + (u32_bytes(last) + after));
        lemma_counts_survive(bytes, before, prev, u32_bytes(last) + after);
        assert(bytes =~= (before + counts_bytes(prev)) + u32_bytes(last) + after);
        lemma_u32_piece(bytes, before + counts_bytes(prev), last, after);
        assert forall|i: int| 0 <= i < counts.len() implies u32_at(bytes, before.len() + 4 * i)
            == #[trigger] counts[i] by {
            if i < prev.len() {
                assert(prev[i] == counts[i]);
            }
        }
    }
}

/// The table of trigram counts read back holds the counts that were written.
pub proof fn lemma_extension_survives(before: Seq<u8>, counts: Seq<u32>, after: Seq<u8>)
    requires
        counts.len() <= u32::MAX,
    ensures
        stored_counts(
            before + counts_extension(counts) + after,
            before.len() as int,
            (before.len() + counts_extension(counts).len()) as int,
            counts.len() as int,
        ) == StoredCounts::Counts(counts),
{
    let bytes = before + counts_extension(counts) + after;
    let n = counts.len() as u32;
    let (version, number, all) = (u32_bytes(INDEX_VERSION), u32_bytes(n), counts_bytes(counts));
    lemma_u32_round_trip(INDEX_VERSION);
    lemma_u32_round_trip(n);
    lemma_counts_len(counts);
    let front = before + counts_magic();
    assert(bytes =~= before + counts_magic() + (version + number + all + after));
    lemma_piece(before, counts_magic(), version + number + all + after);
    assert(bytes =~= front + version + (number + all + after));
    lemma_u32_piece(bytes, front, INDEX_VERSION, number + all + after);
    assert(bytes =~= (front + version) + number + (all + after));
    lemma_u32_piece(bytes, front + version, n, all + after);
    assert(bytes =~= (front + version + number) + all + after);
    lemma_counts_survive(bytes, front + version + number, counts, after);
    let start = before.len() as int;
    let read = Seq::new(counts.len(), |i: int| u32_at(bytes, start + 16 + 4 * i));
    assert(read =~= counts) by {
        assert forall|i: int| 0 <= i < counts.len() implies read[i] == counts[i] by {
            assert(u32_at(bytes, (front + version + number).len() + 4 * i) == counts[i]);
        }
    }
}

// ---------------------------------------------------------------------------------------------
// The whole file
// ---------------------------------------------------------------------------------------------

/// A header that a reader takes.
pub open spec fn header_storable(header: Header) -> bool {
    &&& header.head.len() <= u32::MAX
    &&& header.root.len() <= u32::MAX
    &&& header.fingerprint.len() <= u32::MAX
    &&& header.files.len() <= MAX_ENTRIES
    &&& valid_utf8(header.root)
    &&& valid_utf8(header.fingerprint)
    &&& forall|i: int| 0 <= i < header.files.len() ==> storable(#[trigger] header.files[i])
}

/// Posting lists that a reader takes: grouped by trigram, and none of them too long.
pub open spec fn records_storable(records: Seq<SpillRecord>) -> bool {
    &&& trigrams_sorted(records)
    &&& lookup_fits(records)
    &&& lookup_of(records).len() <= MAX_ENTRIES
    &&& forall|i: int|
        0 <= i < lookup_of(records).len() ==> (#[trigger] lookup_of(records)[i]).count
            <= MAX_ENTRIES
}

/// The head in front of the files.
spec fn header_front(header: Header) -> Seq<u8> {
    index_magic() + u32_bytes(INDEX_VERSION) + u32_bytes(header.head.len() as u32) + u32_bytes(
        header.root.len() as u32,
    ) + u32_bytes(header.fingerprint.len() as u32) + u64_bytes(header.max_file_size) + u32_bytes(
        header.files.len() as u32,
    ) + header.head + header.root + header.fingerprint
}

/// `bytes` begin with `outer`, which is sixteen bytes long, and the header's front.
#[verifier::spinoff_prover]
#[verifier::rlimit(40)]
proof fn lemma_header_front_survives(
    bytes: Seq<u8>,
    outer: Seq<u8>,
    header: Header,
    after: Seq<u8>,
)
    requires
        header_storable(header),
        outer.len() == 16,
        bytes == outer + header_front(header) + after,
    ensures
        bytes.len() >= 52,
        bytes.subrange(16, 24) == index_magic(),
        u32_at(bytes, 24) == INDEX_VERSION,
        u32_at(bytes, 28) == header.head.len(),
        u32_at(bytes, 32) == header.root.len(),
        u32_at(bytes, 36) == header.fingerprint.len(),
        u64_at(bytes, 40) == header.max_file_size,
        u32_at(bytes, 48) == header.files.len(),
        files_at(bytes) == 16 + header_front(header).len(),
        bytes.subrange(52, root_at(bytes)) == header.head,
        bytes.subrange(root_at(bytes), fingerprint_at(bytes)) == header.root,
        bytes.subrange(fingerprint_at(bytes), files_at(bytes)) == header.fingerprint,
{
    let v = u32_bytes(INDEX_VERSION);
    let h = u32_bytes(header.head.len() as u32);
    let r = u32_bytes(header.root.len() as u32);
    let f = u32_bytes(header.fingerprint.len() as u32);
    let m = u64_bytes(header.max_file_size);
    let n = u32_bytes(header.files.len() as u32);
    lemma_u32_round_trip(INDEX_VERSION);
    lemma_u32_round_trip(header.head.len() as u32);
    lemma_u32_round_trip(header.root.len() as u32);
    lemma_u32_round_trip(header.fingerprint.len() as u32);
    lemma_u64_round_trip(header.max_file_size);
    lemma_u32_round_trip(header.files.len() as u32);
    let t9 = header.fingerprint + after;
    let t8 = header.root + t9;
    let t7 = header.head + t8;
    let t6 = n + t7;
    let t5 = m + t6;
    let t4 = f + t5;
    let t3 = r + t4;
    let t2 = h + t3;
    let t1 = v + t2;
    let p1 = outer + index_magic();
    let p2 = p1 + v;
    let p3 = p2 + h;
    let p4 = p3 + r;
    let p5 = p4 + f;
    let p6 = p5 + m;
    let p7 = p6 + n;
    let p8 = p7 + header.head;
    let p9 = p8 + header.root;
    assert(bytes =~= outer + index_magic() + t1);
    lemma_piece(outer, index_magic(), t1);
    assert(bytes =~= p1 + v + t2);
    lemma_u32_piece(bytes, p1, INDEX_VERSION, t2);
    assert(bytes =~= p2 + h + t3);
    lemma_u32_piece(bytes, p2, header.head.len() as u32, t3);
    assert(bytes =~= p3 + r + t4);
    lemma_u32_piece(bytes, p3, header.root.len() as u32, t4);
    assert(bytes =~= p4 + f + t5);
    lemma_u32_piece(bytes, p4, header.fingerprint.len() as u32, t5);
    assert(bytes =~= p5 + m + t6);
    lemma_u64_piece(bytes, p5, header.max_file_size, t6);
    assert(bytes =~= p6 + n + t7);
    lemma_u32_piece(bytes, p6, header.files.len() as u32, t7);
    assert(bytes =~= p7 + header.head + t8);
    lemma_piece(p7, header.head, t8);
    assert(bytes =~= p8 + header.root + t9);
    lemma_piece(p8, header.root, t9);
    assert(bytes =~= p9 + header.fingerprint + after);
    lemma_piece(p9, header.fingerprint, after);
}

/// The parts of a cache file, in their order.
struct FileParts {
    outer: Seq<u8>,
    front: Seq<u8>,
    files: Seq<u8>,
    len: Seq<u8>,
    blob: Seq<u8>,
    extension: Seq<u8>,
    sum: Seq<u8>,
    lookup: Seq<u8>,
}

impl FileParts {
    spec fn whole(self) -> Seq<u8> {
        self.outer + self.front + self.files + self.len + self.blob + self.extension + self.sum
            + self.lookup
    }

    proof fn lemma_groupings(self)
        ensures
            self.whole() == self.outer + self.front + (self.files + self.len + self.blob
                + self.extension + self.sum + self.lookup),
            self.whole() == (self.outer + self.front) + self.files + (self.len + self.blob
                + self.extension + self.sum + self.lookup),
            self.whole() == (self.outer + self.front + self.files) + self.len + (self.blob
                + self.extension + self.sum + self.lookup),
            self.whole() == (self.outer + self.front + self.files + self.len) + self.blob + (
            self.extension + self.sum + self.lookup),
            self.whole() == (self.outer + self.front + self.files + self.len + self.blob)
                + self.extension + (self.sum + self.lookup),
            self.whole() == self.outer + (self.front + self.files + self.len + self.blob
                + self.extension + self.sum) + self.lookup,
    {
        assert(self.whole() =~= self.outer + self.front + (self.files + self.len + self.blob
            + self.extension + self.sum + self.lookup));
        assert(self.whole() =~= (self.outer + self.front) + self.files + (self.len + self.blob
            + self.extension + self.sum + self.lookup));
        assert(self.whole() =~= (self.outer + self.front + self.files) + self.len + (self.blob
            + self.extension + self.sum + self.lookup));
        assert(self.whole() =~= (self.outer + self.front + self.files + self.len) + self.blob + (
        self.extension + self.sum + self.lookup));
        assert(self.whole() =~= (self.outer + self.front + self.files + self.len + self.blob)
            + self.extension + (self.sum + self.lookup));
        assert(self.whole() =~= self.outer + (self.front + self.files + self.len + self.blob
            + self.extension + self.sum) + self.lookup);
    }
}

/// The section length as the outer numbers give it.
spec fn outer_bytes(section_len: u64) -> Seq<u8> {
    u32_bytes(CACHE_MAGIC) + u32_bytes(INDEX_VERSION) + u64_bytes(section_len)
}

spec fn file_parts(header: Header, records: Seq<SpillRecord>, counts: Seq<u32>) -> FileParts {
    let body = postings_body(header, records, counts);
    FileParts {
        outer: outer_bytes(with_checksum(body).len() as u64),
        front: header_front(header),
        files: stored_files_bytes(header.files),
        len: u64_bytes((6 * records.len()) as u64),
        blob: record_bytes(records),
        extension: counts_extension(counts),
        sum: u32_bytes(crc32(body)),
        lookup: lookup_section(lookup_of(records)),
    }
}

proof fn lemma_cache_file_parts(header: Header, records: Seq<SpillRecord>, counts: Seq<u32>)
    ensures
        cache_file(header, records, counts) == file_parts(header, records, counts).whole(),
        with_checksum(postings_body(header, records, counts)) == ({
            let p = file_parts(header, records, counts);
            p.front + p.files + p.len + p.blob + p.extension + p.sum
        }),
        header_bytes(header) == header_front(header) + stored_files_bytes(header.files),
{
    let p = file_parts(header, records, counts);
    assert(header_bytes(header) =~= p.front + p.files);
    let section = with_checksum(postings_body(header, records, counts));
    assert(section =~= p.front + p.files + p.len + p.blob + p.extension + p.sum);
    p.lemma_groupings();
}

proof fn lemma_outer_survives(bytes: Seq<u8>, section_len: u64, after: Seq<u8>)
    requires
        bytes == outer_bytes(section_len) + after,
    ensures
        outer_bytes(section_len).len() == 16,
        u32_at(bytes, 0) == CACHE_MAGIC,
        u32_at(bytes, 4) == INDEX_VERSION,
        u64_at(bytes, 8) == section_len,
{
    let (magic, version, total) = (
        u32_bytes(CACHE_MAGIC),
        u32_bytes(INDEX_VERSION),
        u64_bytes(section_len),
    );
    lemma_u32_round_trip(CACHE_MAGIC);
    lemma_u32_round_trip(INDEX_VERSION);
    lemma_u64_round_trip(section_len);
    assert(bytes =~= Seq::<u8>::empty() + magic + (version + total + after));
    lemma_u32_piece(bytes, Seq::empty(), CACHE_MAGIC, version + total + after);
    assert(bytes =~= magic + version + (total + after));
    lemma_u32_piece(bytes, magic, INDEX_VERSION, total + after);
    assert(bytes =~= (magic + version) + total + after);
    lemma_u64_piece(bytes, magic + version, section_len, after);
}

/// The lookup table of posting lists survives.
proof fn lemma_list_lookup_survives(records: Seq<SpillRecord>)
    requires
        records_storable(records),
    ensures
        lookup_ok(lookup_section(lookup_of(records)), (6 * records.len()) as u64),
        stored_lookup(lookup_section(lookup_of(records))) == lookup_of(records),
{
    let blob_len = (6 * records.len()) as u64;
    lemma_lookup_is_ascending(records);
    lemma_spans_tile(records);
    assert forall|i: int| 0 <= i < lookup_of(records).len() implies entry_ok(
        #[trigger] lookup_of(records)[i],
        blob_len,
    ) by {
        let span = crate::merge::spans_of(records)[i];
        assert(lookup_of(records)[i] == crate::merge::span_entry(span));
    }
    lemma_lookup_survives(lookup_of(records), blob_len);
}

/// The texts and files of `header` stand where a reader looks for them.
#[verifier::opaque]
spec fn header_read(bytes: Seq<u8>, header: Header) -> bool {
    &&& bytes.len() >= 52
    &&& bytes.subrange(16, 24) == index_magic()
    &&& u32_at(bytes, 24) == INDEX_VERSION
    &&& stored_file_count(bytes) == header.files.len()
    &&& u64_at(bytes, 40) == header.max_file_size
    &&& bytes.subrange(52, root_at(bytes)) == header.head
    &&& bytes.subrange(root_at(bytes), fingerprint_at(bytes)) == header.root
    &&& bytes.subrange(fingerprint_at(bytes), files_at(bytes)) == header.fingerprint
    &&& files_at(bytes) == 16 + header_front(header).len()
    &&& blob_len_at(bytes) == 16 + header_front(header).len() + stored_files_bytes(
        header.files,
    ).len()
    &&& forall|i: int|
        0 <= i < header.files.len() ==> parsed_file_at(bytes, #[trigger] file_at(bytes, i))
            == read_back(header.files[i])
    &&& forall|i: int|
        0 <= i < header.files.len() ==> file_ok(
            bytes,
            #[trigger] file_at(bytes, i),
            blob_len_at(bytes),
        )
}

/// The texts and files of a header survive.
proof fn lemma_header_survives(bytes: Seq<u8>, outer: Seq<u8>, header: Header, after: Seq<u8>)
    requires
        header_storable(header),
        outer.len() == 16,
        bytes == (outer + header_front(header)) + stored_files_bytes(header.files) + after,
    ensures
        header_read(bytes, header),
{
    let front = header_front(header);
    let files = stored_files_bytes(header.files);
    let n = header.files.len() as int;
    assert((outer + front) + files + after =~= outer + front + (files + after));
    lemma_header_front_survives(bytes, outer, header, files + after);
    lemma_files_survive(bytes, outer + front, header.files, after, n);
    assert(header.files.take(n) =~= header.files);
    reveal(header_read);
}

/// Posting lists and counts stand where a reader looks for them.
#[verifier::opaque]
spec fn lists_read(
    bytes: Seq<u8>,
    records: Seq<SpillRecord>,
    counts: Seq<u32>,
    lookup: Seq<u8>,
) -> bool {
    &&& stored_blob_len(bytes) == 6 * records.len()
    &&& blob_end(bytes) <= body_end(bytes)
    &&& bytes.subrange(blob_start(bytes), blob_end(bytes)) == record_bytes(records)
    &&& counts_in(bytes) == StoredCounts::Counts(counts)
    &&& lookup_part(bytes) == lookup
}

/// The posting lists and counts of a cache file survive.
proof fn lemma_lists_survive(bytes: Seq<u8>, p: FileParts, records: Seq<SpillRecord>, counts: Seq<u32>)
    requires
        bytes == p.whole(),
        p.outer.len() == 16,
        6 * records.len() <= u64::MAX,
        p.len == u64_bytes((6 * records.len()) as u64),
        p.blob == record_bytes(records),
        p.extension == counts_extension(counts),
        p.sum.len() == 4,
        counts.len() <= u32::MAX,
        stored_file_count(bytes) == counts.len(),
        blob_len_at(bytes) == (p.outer + p.front + p.files).len(),
        section_end(bytes) == bytes.len() - p.lookup.len(),
    ensures
        lists_read(bytes, records, counts, p.lookup),
{
    let blob_len = (6 * records.len()) as u64;
    p.lemma_groupings();
    lemma_blob_piece(records, 0, 0);
    lemma_u64_round_trip(blob_len);
    let before_blob = p.outer + p.front + p.files + p.len;
    lemma_u64_piece(
        bytes,
        p.outer + p.front + p.files,
        blob_len,
        p.blob + p.extension + p.sum + p.lookup,
    );
    lemma_piece(before_blob, p.blob, p.extension + p.sum + p.lookup);
    lemma_extension_survives(before_blob + p.blob, counts, p.sum + p.lookup);
    assert(body_end(bytes) == (before_blob + p.blob + p.extension).len());
    assert(lookup_part(bytes) =~= p.lookup);
    reveal(lists_read);
}

/// `bytes` say what header, posting lists and counts hold.
pub open spec fn says(
    bytes: Seq<u8>,
    header: Header,
    records: Seq<SpillRecord>,
    counts: Seq<u32>,
) -> bool {
    &&& head_in(bytes) == (if valid_utf8(header.head) && decode_utf8(header.head).len() > 0 {
        Some(decode_utf8(header.head))
    } else {
        None
    })
    &&& bytes.subrange(fingerprint_at(bytes), files_at(bytes)) == header.fingerprint
    &&& u64_at(bytes, 40) == header.max_file_size
    &&& stored_file_count(bytes) == header.files.len()
    &&& forall|i: int|
        0 <= i < header.files.len() ==> parsed_file_at(bytes, #[trigger] file_at(bytes, i))
            == read_back(header.files[i])
    &&& blob_start(bytes) == 16 + header_bytes(header).len() + 8
    &&& stored_blob_len(bytes) == 6 * records.len()
    &&& bytes.subrange(blob_start(bytes), blob_end(bytes)) == record_bytes(records)
    &&& stored_lookup(lookup_part(bytes)) == lookup_of(records)
    &&& counts_in(bytes) == StoredCounts::Counts(counts)
}

proof fn lemma_read_parts_are_said(
    bytes: Seq<u8>,
    header: Header,
    records: Seq<SpillRecord>,
    counts: Seq<u32>,
)
    requires
        header_storable(header),
        records_storable(records),
        header_bytes(header).len() == header_front(header).len() + stored_files_bytes(
            header.files,
        ).len(),
        u32_at(bytes, 0) == CACHE_MAGIC,
        u32_at(bytes, 4) == INDEX_VERSION,
        section_end(bytes) <= bytes.len(),
        header_read(bytes, header),
        lists_read(bytes, records, counts, lookup_section(lookup_of(records))),
    ensures
        cache_ok(bytes),
        says(bytes, header, records, counts),
{
    reveal(header_read);
    reveal(lists_read);
    lemma_list_lookup_survives(records);
    assert(blob_len_at(bytes) <= body_end(bytes));
    assert(crate::cache_read::files_ok(bytes)) by {
        assert forall|i: int| 0 <= i < stored_file_count(bytes) implies file_ok(
            bytes,
            #[trigger] file_at(bytes, i),
            body_end(bytes),
        ) by {
            assert(file_ok(bytes, file_at(bytes, i), blob_len_at(bytes)));
        }
    }
    assert(crate::cache_read::front_ok(bytes));
    assert((6 * records.len()) % 6 == 0);
}

proof fn lemma_parts_survive(
    bytes: Seq<u8>,
    p: FileParts,
    section_len: u64,
    header: Header,
    records: Seq<SpillRecord>,
    counts: Seq<u32>,
)
    requires
        bytes == p.whole(),
        header_storable(header),
        6 * records.len() <= u64::MAX,
        counts.len() == header.files.len(),
        section_len == (p.front + p.files + p.len + p.blob + p.extension + p.sum).len(),
        p.outer == outer_bytes(section_len),
        p.front == header_front(header),
        p.files == stored_files_bytes(header.files),
        p.len == u64_bytes((6 * records.len()) as u64),
        p.blob == record_bytes(records),
        p.extension == counts_extension(counts),
        p.sum.len() == 4,
    ensures
        u32_at(bytes, 0) == CACHE_MAGIC,
        u32_at(bytes, 4) == INDEX_VERSION,
        section_end(bytes) == bytes.len() - p.lookup.len(),
        header_read(bytes, header),
        lists_read(bytes, records, counts, p.lookup),
{
    let section = p.front + p.files + p.len + p.blob + p.extension + p.sum;
    let after_files = p.len + p.blob + p.extension + p.sum + p.lookup;
    assert(bytes == p.outer + (section + p.lookup)) by {
        p.lemma_groupings();
        assert(p.outer + section + p.lookup =~= p.outer + (section + p.lookup));
    }
    assert(bytes == (p.outer + header_front(header)) + stored_files_bytes(header.files)
        + after_files) by {
        p.lemma_groupings();
    }
    lemma_outer_survives(bytes, section_len, section + p.lookup);
    assert(bytes.len() == 16 + section_len + p.lookup.len());
    lemma_header_survives(bytes, p.outer, header, after_files);
    assert(stored_file_count(bytes) == counts.len() && blob_len_at(bytes) == (p.outer + p.front
        + p.files).len()) by {
        reveal(header_read);
    }
    lemma_lists_survive(bytes, p, records, counts);
}

/// A cache file read back says what was written: texts, files, posting lists and counts.
pub proof fn lemma_cache_file_survives(
    header: Header,
    records: Seq<SpillRecord>,
    counts: Seq<u32>,
)
    requires
        header_storable(header),
        records_storable(records),
        counts.len() == header.files.len(),
        with_checksum(postings_body(header, records, counts)).len() <= u64::MAX,
    ensures
        cache_ok(cache_file(header, records, counts)),
        says(cache_file(header, records, counts), header, records, counts),
{
    let p = file_parts(header, records, counts);
    let section_len = with_checksum(postings_body(header, records, counts)).len() as u64;
    lemma_cache_file_parts(header, records, counts);
    lemma_u32_round_trip(crc32(postings_body(header, records, counts)));
    let bytes = cache_file(header, records, counts);
    lemma_parts_survive(bytes, p, section_len, header, records, counts);
    lemma_read_parts_are_said(bytes, header, records, counts);
}

// ---------------------------------------------------------------------------------------------
// Paths
// ---------------------------------------------------------------------------------------------

/// The name of a path below the root leads back to the path.
pub proof fn lemma_cache_name_leads_back(root: PathKey, path: PathKey)
    requires
        name_below(root, path) is Some,
    ensures
        cached_full(root, name_below(root, path)->0) == Some(normalized(path)),
{
    let base = normalized(root);
    let full = normalized(path);
    let rest = full.skip(base.len() as int);
    let names = names_only(rest);
    crate::path_text::lemma_normalize_is_idempotent(path);
    crate::path_text::lemma_normalized_rest_is_names(path, rest, base.len() as int);
    assert(names == rest);
    crate::path_text::lemma_names_only_are_names(rest);
    crate::path_text::lemma_names_only_of_names(names);
    assert(crate::path::confined(names)) by {
        assert forall|i: int| 0 <= i < names.len() implies #[trigger] names[i] is Normal
            || names[i] is CurDir by {}
    }
    crate::path_text::lemma_cached_path_stays_under_root(root, names);
    assert(base + names =~= full);
}

/// The name of a path that text can carry in UTF-8 survives being stored.
pub proof fn lemma_stored_name_survives(name: PathKey)
    requires
        textual(name),
        valid_utf8(path_text(name)),
    ensures
        stored_text(name) == path_text(name),
        path_parts(stored_text(name)) == name,
{
    broadcast use vstd::utf8::decode_utf8_encode_utf8;

    lemma_path_survives_text(name);
}

} // verus!
