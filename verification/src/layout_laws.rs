//! Laws of what stands where in the files on disk: numbers, file entries, the header, the lookup
//! table, the trigram counts, the cache file, and segments.

use crate::cache_laws::lemma_counts_len;
use crate::cache_laws::lemma_counts_survive;
use crate::cache_laws::lemma_entries_len;
use crate::cache_laws::lemma_entries_survive;
use crate::cache_laws::lemma_u32_piece;
use crate::cache_laws::lemma_u64_piece;
use crate::cache_read::cache_ok;
use crate::cache_read::counts_in;
use crate::cache_read::counts_of;
use crate::cache_read::entry_ok;
use crate::cache_read::file_at;
use crate::cache_read::head_in;
use crate::cache_read::listed_postings;
use crate::cache_read::lookup_entry_at;
use crate::cache_read::occurrences;
use crate::cache_read::parsed_file_at;
use crate::cache_read::stored_blob_len;
use crate::cache_read::stored_counts;
use crate::cache_read::stored_lookup;
use crate::cache_read::stored_postings;
use crate::cache_read::ParsedCache;
use crate::cache_read::StoredCounts;
use crate::codec::le_bytes;
use crate::codec::le_value;
use crate::codec::lemma_u32_round_trip;
use crate::codec::lemma_u64_round_trip;
use crate::codec::u32_at;
use crate::codec::u32_bytes;
use crate::codec::u64_at;
use crate::codec::u64_bytes;
use crate::file_entry::Timestamp;
use crate::format::cache_file;
use crate::format::cache_name;
use crate::format::counts_bytes;
use crate::format::counts_extension;
use crate::format::header_bytes;
use crate::format::lookup_body;
use crate::format::lookup_entries_bytes;
use crate::format::lookup_section;
use crate::format::name_below;
use crate::format::stored_file_bytes;
use crate::format::stored_files_bytes;
use crate::format::stored_time;
use crate::format::CacheWriteError;
use crate::format::CacheWritePlan;
use crate::format::Header;
use crate::format::StoredFile;
use crate::merge::lookup_of;
use crate::outside::crc32;
use crate::outside::lossy_chars;
use crate::path::cached_relative;
use crate::path::normalized;
use crate::path::starts_with_path;
use crate::path::PathKey;
use crate::path::SearchPath;
use crate::path_text::path_option;
use crate::path_text::path_parts;
use crate::path_text::path_text;
use crate::postings::posting_bytes;
use crate::postings::postings_of;
use crate::postings::LookupEntry;
use crate::postings::Posting;
use crate::records::group_end;
use crate::records::groups_bytes;
use crate::records::open_error;
use crate::records::record_bytes;
use crate::records::segment_bytes;
use crate::records::RecordError;
use crate::records::SpillRecord;
use vstd::prelude::*;
use vstd::utf8::decode_utf8;
use vstd::utf8::encode_utf8;
use vstd::utf8::valid_utf8;

verus! {

// ---------------------------------------------------------------------------------------------
// Numbers
// ---------------------------------------------------------------------------------------------

/// A number is stored with its lowest byte first, in four bytes.
pub proof fn lemma_u32_is_stored_low_byte_first(value: u32)
    ensures
        u32_bytes(value) == seq![
            (value as int % 256) as u8,
            (value as int / 256 % 256) as u8,
            (value as int / 65536 % 256) as u8,
            (value as int / 16777216) as u8,
        ],
{
    reveal_with_fuel(le_bytes, 5);
    let v = value as int;
    assert(v / 256 / 256 == v / 65536);
    assert(v / 65536 / 256 == v / 16777216);
    assert(u32_bytes(value) =~= seq![
        (v % 256) as u8,
        (v / 256 % 256) as u8,
        (v / 65536 % 256) as u8,
        (v / 16777216) as u8,
    ]);
}

/// A wide number takes eight bytes: the lower half stands before the higher one.
pub proof fn lemma_u64_is_stored_low_half_first(bytes: Seq<u8>, at: int)
    requires
        0 <= at,
        at + 8 <= bytes.len(),
    ensures
        u64_at(bytes, at) == u32_at(bytes, at) + 4294967296 * u32_at(bytes, at + 4),
{
    let eight = bytes.subrange(at, at + 8);
    let low = bytes.subrange(at, at + 4);
    let high = bytes.subrange(at + 4, at + 8);
    reveal_with_fuel(le_value, 9);
    assert(eight.skip(1).skip(1).skip(1).skip(1) =~= high);
    assert(low[0] == eight[0] && low[1] == eight[1] && low[2] == eight[2] && low[3] == eight[3]);
}

// ---------------------------------------------------------------------------------------------
// Parts of a cache file
// ---------------------------------------------------------------------------------------------

/// The entry of a file: a flag, the length of its path, its size, its time, its hash and its path.
pub proof fn lemma_file_entries_are_laid_out(file: StoredFile)
    requires
        file.path.len() <= u32::MAX,
        file.content_hash.len() == 32,
    ensures
        ({
            let bytes = stored_file_bytes(file);
            &&& bytes.len() == 57 + file.path.len()
            &&& bytes[0] == (if file.unindexed {
                1u8
            } else {
                0u8
            })
            &&& u32_at(bytes, 1) == file.path.len()
            &&& u64_at(bytes, 5) == file.size
            &&& u64_at(bytes, 13) == file.secs
            &&& u32_at(bytes, 21) == file.nanos
            &&& bytes.subrange(25, 57) == file.content_hash
            &&& bytes.skip(57) == file.path
        }),
{
    let bytes = stored_file_bytes(file);
    let flag = seq![
        if file.unindexed {
            1u8
        } else {
            0u8
        },
    ];
    let len = file.path.len() as u32;
    let (a, b, c, d) = (u32_bytes(len), u64_bytes(file.size), u64_bytes(file.secs), u32_bytes(
        file.nanos,
    ));
    let tail = file.content_hash + file.path;
    lemma_u32_round_trip(len);
    lemma_u64_round_trip(file.size);
    lemma_u64_round_trip(file.secs);
    lemma_u32_round_trip(file.nanos);
    assert(bytes =~= flag + a + (b + c + d + tail));
    lemma_u32_piece(bytes, flag, len, b + c + d + tail);
    assert(bytes =~= (flag + a) + b + (c + d + tail));
    lemma_u64_piece(bytes, flag + a, file.size, c + d + tail);
    assert(bytes =~= (flag + a + b) + c + (d + tail));
    lemma_u64_piece(bytes, flag + a + b, file.secs, d + tail);
    assert(bytes =~= (flag + a + b + c) + d + tail);
    lemma_u32_piece(bytes, flag + a + b + c, file.nanos, tail);
    assert(bytes.subrange(25, 57) =~= file.content_hash);
    assert(bytes.skip(57) =~= file.path);
}

/// The entries of files follow one another.
pub proof fn lemma_file_entries_follow_one_another(files: Seq<StoredFile>, file: StoredFile)
    ensures
        stored_files_bytes(Seq::empty()).len() == 0,
        stored_files_bytes(files.push(file)) == stored_files_bytes(files) + stored_file_bytes(file),
{
    assert(files.push(file).drop_last() =~= files);
}

/// The header: its magic bytes, the version, three lengths, the size limit, the number of files, the
/// three texts, and the files.
pub proof fn lemma_headers_are_laid_out(header: Header)
    requires
        header.head.len() <= u32::MAX,
        header.root.len() <= u32::MAX,
        header.fingerprint.len() <= u32::MAX,
        header.files.len() <= u32::MAX,
    ensures
        ({
            let bytes = header_bytes(header);
            let root_at = (36 + header.head.len()) as int;
            let fingerprint_at = (root_at + header.root.len()) as int;
            let files_at = (fingerprint_at + header.fingerprint.len()) as int;
            &&& bytes.subrange(0, 8) == seq![65u8, 70, 84, 73, 68, 88, 48, 49]
            &&& u32_at(bytes, 8) == 4
            &&& u32_at(bytes, 12) == header.head.len()
            &&& u32_at(bytes, 16) == header.root.len()
            &&& u32_at(bytes, 20) == header.fingerprint.len()
            &&& u64_at(bytes, 24) == header.max_file_size
            &&& u32_at(bytes, 32) == header.files.len()
            &&& bytes.subrange(36, root_at) == header.head
            &&& bytes.subrange(root_at, fingerprint_at) == header.root
            &&& bytes.subrange(fingerprint_at, files_at) == header.fingerprint
            &&& bytes.skip(files_at) == stored_files_bytes(header.files)
            &&& bytes.len() == files_at + stored_files_bytes(header.files).len()
        }),
{
    let bytes = header_bytes(header);
    let magic = seq![65u8, 70, 84, 73, 68, 88, 48, 49];
    let (h, r, f, n) = (
        header.head.len() as u32,
        header.root.len() as u32,
        header.fingerprint.len() as u32,
        header.files.len() as u32,
    );
    let (v, hb, rb, fb, mb, nb) = (
        u32_bytes(4),
        u32_bytes(h),
        u32_bytes(r),
        u32_bytes(f),
        u64_bytes(header.max_file_size),
        u32_bytes(n),
    );
    lemma_u32_round_trip(4);
    lemma_u32_round_trip(h);
    lemma_u32_round_trip(r);
    lemma_u32_round_trip(f);
    lemma_u32_round_trip(n);
    lemma_u64_round_trip(header.max_file_size);
    let texts = header.head + header.root + header.fingerprint + stored_files_bytes(header.files);
    assert(bytes =~= magic + v + (hb + rb + fb + mb + nb + texts));
    lemma_u32_piece(bytes, magic, 4, hb + rb + fb + mb + nb + texts);
    assert(bytes =~= (magic + v) + hb + (rb + fb + mb + nb + texts));
    lemma_u32_piece(bytes, magic + v, h, rb + fb + mb + nb + texts);
    assert(bytes =~= (magic + v + hb) + rb + (fb + mb + nb + texts));
    lemma_u32_piece(bytes, magic + v + hb, r, fb + mb + nb + texts);
    assert(bytes =~= (magic + v + hb + rb) + fb + (mb + nb + texts));
    lemma_u32_piece(bytes, magic + v + hb + rb, f, mb + nb + texts);
    assert(bytes =~= (magic + v + hb + rb + fb) + mb + (nb + texts));
    lemma_u64_piece(bytes, magic + v + hb + rb + fb, header.max_file_size, nb + texts);
    assert(bytes =~= (magic + v + hb + rb + fb + mb) + nb + texts);
    lemma_u32_piece(bytes, magic + v + hb + rb + fb + mb, n, texts);
    let root_at = (36 + header.head.len()) as int;
    let fingerprint_at = (root_at + header.root.len()) as int;
    let files_at = (fingerprint_at + header.fingerprint.len()) as int;
    assert(bytes.subrange(0, 8) =~= magic);
    assert(bytes.subrange(36, root_at) =~= header.head);
    assert(bytes.subrange(root_at, fingerprint_at) =~= header.root);
    assert(bytes.subrange(fingerprint_at, files_at) =~= header.fingerprint);
    assert(bytes.skip(files_at) =~= stored_files_bytes(header.files));
}

/// The lookup table: its magic bytes, the version, the number of entries, the entries with sixteen
/// bytes each, and a checksum of all that.
pub proof fn lemma_lookup_tables_are_laid_out(entries: Seq<LookupEntry>, i: int)
    requires
        entries.len() <= u32::MAX,
        0 <= i < entries.len(),
    ensures
        ({
            let bytes = lookup_section(entries);
            let end = (16 + 16 * entries.len()) as int;
            &&& bytes.len() == end + 4
            &&& bytes.subrange(0, 8) == seq![65u8, 70, 84, 76, 75, 80, 48, 49]
            &&& u32_at(bytes, 8) == 4
            &&& u32_at(bytes, 12) == entries.len()
            &&& u32_at(bytes, 16 + 16 * i) == entries[i].trigram
            &&& u64_at(bytes, 20 + 16 * i) == entries[i].offset
            &&& u32_at(bytes, 28 + 16 * i) == entries[i].count
            &&& u32_at(bytes, end) == crc32(bytes.take(end))
        }),
{
    let bytes = lookup_section(entries);
    let body = lookup_body(entries);
    let magic = seq![65u8, 70, 84, 76, 75, 80, 48, 49];
    let n = entries.len() as u32;
    let (v, nb, all, sum) = (
        u32_bytes(4),
        u32_bytes(n),
        lookup_entries_bytes(entries),
        u32_bytes(crc32(body)),
    );
    lemma_u32_round_trip(4);
    lemma_u32_round_trip(n);
    lemma_u32_round_trip(crc32(body));
    lemma_entries_len(entries);
    assert(bytes =~= magic + v + (nb + all + sum));
    lemma_u32_piece(bytes, magic, 4, nb + all + sum);
    assert(bytes =~= (magic + v) + nb + (all + sum));
    lemma_u32_piece(bytes, magic + v, n, all + sum);
    assert(bytes =~= (magic + v + nb) + all + sum);
    lemma_entries_survive(bytes, magic + v + nb, entries, sum);
    assert(lookup_entry_at(bytes, i) == entries[i]);
    assert(bytes =~= body + sum + Seq::<u8>::empty());
    lemma_u32_piece(bytes, body, crc32(body), Seq::empty());
    assert(bytes.take(body.len() as int) =~= body);
    assert(bytes.subrange(0, 8) =~= magic);
}

/// The trigram counts: their magic bytes, the version, their number, and four bytes for each.
pub proof fn lemma_counts_are_laid_out(counts: Seq<u32>, i: int)
    requires
        counts.len() <= u32::MAX,
        0 <= i < counts.len(),
    ensures
        ({
            let bytes = counts_extension(counts);
            &&& bytes.len() == 16 + 4 * counts.len()
            &&& bytes.subrange(0, 8) == seq![65u8, 70, 84, 70, 84, 67, 48, 49]
            &&& u32_at(bytes, 8) == 4
            &&& u32_at(bytes, 12) == counts.len()
            &&& u32_at(bytes, 16 + 4 * i) == counts[i]
        }),
{
    let bytes = counts_extension(counts);
    let magic = seq![65u8, 70, 84, 70, 84, 67, 48, 49];
    let n = counts.len() as u32;
    let (v, nb, all) = (u32_bytes(4), u32_bytes(n), counts_bytes(counts));
    lemma_u32_round_trip(4);
    lemma_u32_round_trip(n);
    lemma_counts_len(counts);
    assert(bytes =~= magic + v + (nb + all));
    lemma_u32_piece(bytes, magic, 4, nb + all);
    assert(bytes =~= (magic + v) + nb + all);
    lemma_u32_piece(bytes, magic + v, n, all);
    assert(bytes =~= (magic + v + nb) + all + Seq::<u8>::empty());
    lemma_counts_survive(bytes, magic + v + nb, counts, Seq::empty());
    assert(u32_at(bytes, (magic + v + nb).len() + 4 * i) == counts[i]);
    assert(bytes.subrange(0, 8) =~= magic);
}

/// A posting takes six bytes: the number of its file and its two masks.
pub proof fn lemma_postings_are_laid_out(posting: Posting)
    ensures
        posting_bytes(posting).len() == 6,
        u32_at(posting_bytes(posting), 0) == posting.file_id,
        posting_bytes(posting)[4] == posting.next_mask,
        posting_bytes(posting)[5] == posting.loc_mask,
{
    let bytes = posting_bytes(posting);
    let masks = seq![posting.next_mask, posting.loc_mask];
    lemma_u32_round_trip(posting.file_id);
    assert(bytes =~= Seq::<u8>::empty() + u32_bytes(posting.file_id) + masks);
    lemma_u32_piece(bytes, Seq::empty(), posting.file_id, masks);
}

/// Records stand one behind the other without their trigrams.
pub proof fn lemma_records_follow_one_another(record: SpillRecord, rest: Seq<SpillRecord>)
    ensures
        record_bytes(Seq::empty()).len() == 0,
        record_bytes(seq![record] + rest) == posting_bytes(
            Posting {
                file_id: record.file_id,
                next_mask: record.next_mask,
                loc_mask: record.loc_mask,
            },
        ) + record_bytes(rest),
{
    let all = seq![record] + rest;
    assert(all[0] == record);
    assert(all.skip(1) =~= rest);
}

/// The cache file: its magic bytes, the version, the length of the first section, that section with
/// its checksum at its end, and the lookup table. The section holds the header, the length of the
/// postings, the postings, and the trigram counts.
pub proof fn lemma_cache_files_are_laid_out(
    header: Header,
    records: Seq<SpillRecord>,
    counts: Seq<u32>,
)
    requires
        cache_file(header, records, counts).len() <= u64::MAX,
        6 * records.len() <= u64::MAX,
    ensures
        ({
            let bytes = cache_file(header, records, counts);
            let end = (16 + u64_at(bytes, 8)) as int;
            &&& bytes.take(4) == seq![0x58u8, 0x49, 0x44, 0x31]
            &&& u32_at(bytes, 4) == 4
            &&& 20 <= end <= bytes.len()
            &&& bytes.subrange(16, end - 4) == header_bytes(header) + u64_bytes(
                (6 * records.len()) as u64,
            ) + record_bytes(records) + counts_extension(counts)
            &&& u32_at(bytes, end - 4) == crc32(bytes.subrange(16, end - 4))
            &&& bytes.skip(end) == lookup_section(lookup_of(records))
        }),
{
    let bytes = cache_file(header, records, counts);
    let body = header_bytes(header) + u64_bytes((6 * records.len()) as u64) + record_bytes(records)
        + counts_extension(counts);
    let sum = u32_bytes(crc32(body));
    let section = body + sum;
    let lookup = lookup_section(lookup_of(records));
    let magic = u32_bytes(0x3144_4958);
    let (v, len) = (u32_bytes(4), section.len() as u64);
    lemma_u32_round_trip(0x3144_4958);
    lemma_u32_round_trip(4);
    lemma_u64_round_trip(len);
    lemma_u32_round_trip(crc32(body));
    lemma_u32_is_stored_low_byte_first(0x3144_4958);
    assert(bytes =~= magic + v + (u64_bytes(len) + section + lookup));
    assert(section.len() <= bytes.len());
    lemma_u32_piece(bytes, magic, 4, u64_bytes(len) + section + lookup);
    assert(bytes =~= (magic + v) + u64_bytes(len) + (section + lookup));
    lemma_u64_piece(bytes, magic + v, len, section + lookup);
    let end = (16 + len) as int;
    assert(bytes =~= (magic + v + u64_bytes(len) + body) + sum + lookup);
    lemma_u32_piece(bytes, magic + v + u64_bytes(len) + body, crc32(body), lookup);
    assert(bytes.subrange(16, end - 4) =~= body);
    assert(bytes.skip(end) =~= lookup);
    assert(bytes.take(4) =~= magic);
}

/// A segment of one trigram: its magic bytes, the version, the number of records, the trigram, their
/// number again, and the records.
pub proof fn lemma_segments_are_laid_out(records: Seq<SpillRecord>)
    requires
        records.len() <= u32::MAX,
        records.len() > 0,
        forall|i: int| 0 <= i < records.len() ==> (#[trigger] records[i]).trigram
            == records[0].trigram,
    ensures
        segment_bytes(records) == seq![65u8, 70, 84, 83, 80, 73, 48, 49] + u32_bytes(4) + u64_bytes(
            records.len() as u64,
        ) + u32_bytes(records[0].trigram) + u32_bytes(records.len() as u32) + record_bytes(records),
{
    lemma_one_trigram_is_one_group(records, 0);
    assert(records.subrange(0, records.len() as int) =~= records);
    let whole = seq![65u8, 70, 84, 83, 80, 73, 48, 49] + u32_bytes(4) + u64_bytes(
        records.len() as u64,
    ) + u32_bytes(records[0].trigram) + u32_bytes(records.len() as u32) + record_bytes(records);
    reveal_with_fuel(groups_bytes, 2);
    assert(segment_bytes(records) =~= whole);
}

proof fn lemma_one_trigram_is_one_group(records: Seq<SpillRecord>, at: int)
    requires
        0 <= at <= records.len(),
        forall|i: int| 0 <= i < records.len() ==> (#[trigger] records[i]).trigram
            == records[0].trigram,
    ensures
        group_end(records, 0, at) == records.len(),
    decreases records.len() - at,
{
    if at < records.len() {
        lemma_one_trigram_is_one_group(records, at + 1);
    }
}

proof fn lemma_group_ends_at_another_trigram(records: Seq<SpillRecord>, start: int, at: int)
    requires
        0 <= start <= at <= records.len(),
        start < records.len(),
    ensures
        ({
            let end = group_end(records, start, at);
            &&& at <= end <= records.len()
            &&& forall|i: int|
                at <= i < end ==> (#[trigger] records[i]).trigram == records[start].trigram
            &&& end < records.len() ==> records[end].trigram != records[start].trigram
        }),
    decreases records.len() - at,
{
    if at < records.len() && records[at].trigram == records[start].trigram {
        lemma_group_ends_at_another_trigram(records, start, at + 1);
    }
}

/// A group of records goes as far as their trigram stays the same; behind it comes the next group.
pub proof fn lemma_groups_follow_one_another(records: Seq<SpillRecord>, start: int) -> (end: int)
    requires
        0 <= start < records.len(),
    ensures
        start < end <= records.len(),
        forall|i: int|
            start <= i < end ==> (#[trigger] records[i]).trigram == records[start].trigram,
        end < records.len() ==> records[end].trigram != records[start].trigram,
        groups_bytes(records, start) == u32_bytes(records[start].trigram) + u32_bytes(
            (end - start) as u32,
        ) + record_bytes(records.subrange(start, end)) + groups_bytes(records, end),
{
    lemma_group_ends_at_another_trigram(records, start, start);
    let end = group_end(records, start, start);
    assert(records[start].trigram == records[start].trigram);
    lemma_group_ends_at_another_trigram(records, start, start + 1);
    end
}

// ---------------------------------------------------------------------------------------------
// Reading
// ---------------------------------------------------------------------------------------------

/// Which files are read as a cache: those that begin with the magic bytes and the version, with no
/// more than ten million files, times that are times, postings of six bytes each, and a lookup table
/// that its checksum fits.
pub proof fn lemma_which_caches_are_read(bytes: Seq<u8>, i: int)
    requires
        cache_ok(bytes),
    ensures
        ({
            let end = (16 + u64_at(bytes, 8)) as int;
            let at = file_at(bytes, i);
            let lookup = bytes.skip(end);
            &&& u32_at(bytes, 0) == 0x3144_4958
            &&& u32_at(bytes, 4) == 4
            &&& end <= bytes.len()
            &&& bytes.subrange(16, 24) == seq![65u8, 70, 84, 73, 68, 88, 48, 49]
            &&& u32_at(bytes, 24) == 4
            &&& u32_at(bytes, 48) <= 10_000_000
            &&& 0 <= i < u32_at(bytes, 48) ==> {
                &&& at + 57 + u32_at(bytes, at + 1) <= end - 4
                &&& u64_at(bytes, at + 13) <= 0x7fff_ffff_ffff_ffff
                &&& u32_at(bytes, at + 21) <= 999_999_999
            }
            &&& lookup.len() >= 20
            &&& u32_at(lookup, lookup.len() - 4) == crc32(lookup.take(lookup.len() - 4))
            &&& lookup.subrange(0, 8) == seq![65u8, 70, 84, 76, 75, 80, 48, 49]
            &&& u32_at(lookup, 8) == 4
            &&& u32_at(lookup, 12) <= 10_000_000
            &&& 0 <= i < u32_at(lookup, 12) ==> u32_at(lookup, 28 + 16 * i) <= 10_000_000
            &&& 0 < i < u32_at(lookup, 12) ==> u32_at(lookup, 16 * i) < u32_at(lookup, 16 + 16 * i)
        }),
{
    let lookup = bytes.skip((16 + u64_at(bytes, 8)) as int);
    let entries = stored_lookup(lookup);
    if 0 <= i < entries.len() {
        assert(entry_ok(entries[i], stored_blob_len(bytes)));
        if 0 < i {
            assert(entries[i - 1].trigram < entries[i].trigram);
            assert(16 + 16 * (i - 1) == 16 * i);
        }
    }
}

/// What a cache says: the size limit and the number of files stand at fixed places, the entries of
/// files follow one another behind the three texts, and the postings follow the last of them.
pub proof fn lemma_what_a_cache_says(parsed: ParsedCache, bytes: Seq<u8>, i: int)
    requires
        parsed.reads(bytes),
    ensures
        parsed.max_file_size == u64_at(bytes, 40),
        parsed.files@.len() == u32_at(bytes, 48),
        file_at(bytes, 0) == 52 + u32_at(bytes, 28) + u32_at(bytes, 32) + u32_at(bytes, 36),
        0 <= i < parsed.files@.len() ==> {
            let at = file_at(bytes, i);
            let file = parsed.files@[i]@;
            &&& file_at(bytes, i + 1) == at + 57 + u32_at(bytes, at + 1)
            &&& file.unindexed <==> bytes[at] == 1
            &&& file.size == u64_at(bytes, at + 5)
            &&& file.modified.secs == u64_at(bytes, at + 13) as i64
            &&& file.modified.nanos == u32_at(bytes, at + 21)
            &&& file.content_hash == bytes.subrange(at + 25, at + 57)
            &&& file.path == path_parts(
                bytes.subrange(at + 57, at + 57 + u32_at(bytes, at + 1)),
            )
        },
        ({
            let behind = file_at(bytes, parsed.files@.len() as int);
            let lookup = bytes.skip(16 + u64_at(bytes, 8));
            &&& parsed.base.postings_blob_len == u64_at(bytes, behind)
            &&& parsed.base.postings_blob_start == behind + 8
            &&& parsed.base.lookup@.len() == u32_at(lookup, 12)
            &&& 0 <= i < parsed.base.lookup@.len() ==> {
                &&& parsed.base.lookup@[i].trigram == u32_at(lookup, 16 + 16 * i)
                &&& parsed.base.lookup@[i].offset == u64_at(lookup, 20 + 16 * i)
                &&& parsed.base.lookup@[i].count == u32_at(lookup, 28 + 16 * i)
            }
        }),
{
    if 0 <= i < parsed.files@.len() {
        assert(parsed.files@[i]@ == parsed_file_at(bytes, file_at(bytes, i)));
    }
}

// ---------------------------------------------------------------------------------------------
// Names and times
// ---------------------------------------------------------------------------------------------

/// A time is stored as it is; one before 1970 is stored as the beginning of 1970.
pub proof fn lemma_how_times_are_stored(time: Timestamp)
    ensures
        time.secs >= 0 ==> stored_time(time).0 == time.secs && stored_time(time).1 == time.nanos,
        time.secs < 0 ==> stored_time(time).0 == 0 && stored_time(time).1 == 0,
{
}

/// A path is stored by its name below the root; where it has none, by that of the path that the
/// system resolved it to.
pub proof fn lemma_how_paths_are_stored(root: PathKey, path: PathKey, canonical: Option<PathKey>)
    ensures
        name_below(root, path) is Some ==> cache_name(root, path, canonical) == name_below(
            root,
            path,
        ),
        name_below(root, path) is None && canonical is Some ==> cache_name(root, path, canonical)
            == name_below(root, canonical->0),
        name_below(root, path) is None && canonical is None ==> cache_name(root, path, canonical)
            is None,
        name_below(root, path) matches Some(name) ==> starts_with_path(
            normalized(path),
            normalized(root),
        ) && cached_relative(normalized(path).skip(normalized(root).len() as int)) == Some(name),
        name_below(root, path) is None && starts_with_path(normalized(path), normalized(root))
            ==> cached_relative(normalized(path).skip(normalized(root).len() as int)) is None,
{
}

// ---------------------------------------------------------------------------------------------
// Counts, heads and errors
// ---------------------------------------------------------------------------------------------

proof fn lemma_occurrences_are_counted(postings: Seq<Posting>, file_id: u32)
    ensures
        occurrences(postings, file_id) == postings.filter(
            |posting: Posting| posting.file_id == file_id,
        ).len(),
    decreases postings.len(),
{
    reveal(Seq::filter);
    if postings.len() > 0 {
        lemma_occurrences_are_counted(postings.drop_last(), file_id);
    }
}

/// Where a cache has no table of counts, the count of a file is the number of its postings; where it
/// has one, the table is used as it is.
pub proof fn lemma_missing_counts_are_made_up_for(bytes: Seq<u8>, i: int)
    requires
        0 <= i < u32_at(bytes, 48),
        stored_postings(bytes).len() <= u32::MAX,
    ensures
        counts_of(bytes).len() > i || counts_in(bytes) is Counts,
        counts_in(bytes) is Absent ==> counts_of(bytes)[i] == stored_postings(bytes).filter(
            |posting: Posting| posting.file_id == i,
        ).len(),
        counts_in(bytes) matches StoredCounts::Counts(counts) ==> counts_of(bytes) == counts,
{
    let postings = stored_postings(bytes);
    let by_id = |posting: Posting| posting.file_id == i as u32;
    let by_number = |posting: Posting| posting.file_id == i;
    assert(by_id =~= by_number);
    lemma_occurrences_are_counted(postings, i as u32);
    postings.lemma_filter_len(by_id);
}

/// Behind the postings a table of counts begins with its magic bytes; without them there is none. A
/// table of another version, or with another number of counts than there are files, is broken.
pub proof fn lemma_when_counts_are_used(bytes: Seq<u8>, start: int, end: int, file_count: int, i: int)
    requires
        0 <= i < file_count,
        0 <= start,
    ensures
        ({
            let magic = seq![65u8, 70, 84, 70, 84, 67, 48, 49];
            let counts = stored_counts(bytes, start, end, file_count);
            &&& end - start < 16 ==> counts is Absent
            &&& end - start >= 16 && bytes.subrange(start, start + 8) != magic ==> counts is Absent
            &&& end - start >= 16 && bytes.subrange(start, start + 8) == magic ==> {
                &&& u32_at(bytes, start + 8) != 4 ==> counts is Broken
                &&& u32_at(bytes, start + 12) != file_count ==> counts is Broken
                &&& 16 + 4 * file_count > end - start ==> counts is Broken
                &&& u32_at(bytes, start + 8) == 4 && u32_at(bytes, start + 12) == file_count && 16
                    + 4 * file_count <= end - start ==> (counts matches StoredCounts::Counts(all)
                    && all.len() == file_count && all[i] == u32_at(bytes, start + 16 + 4 * i))
            }
        }),
{
}

/// The postings of a cache are those that its lookup table leads to, list after list.
pub proof fn lemma_lists_of_a_cache_follow_the_lookup(
    blob: Seq<u8>,
    lookup: Seq<LookupEntry>,
    count: int,
)
    requires
        0 <= count < lookup.len(),
    ensures
        listed_postings(blob, lookup, 0).len() == 0,
        listed_postings(blob, lookup, count + 1) == listed_postings(blob, lookup, count)
            + postings_of(
            blob.subrange(
                lookup[count].offset as int,
                lookup[count].offset + 6 * lookup[count].count,
            ),
        ),
{
    assert(lookup[count].count * 6 == 6 * lookup[count].count);
}

/// An empty head, or one that is no text, counts as none.
pub proof fn lemma_which_heads_are_read(bytes: Seq<u8>)
    ensures
        ({
            let head = bytes.subrange(52, 52 + u32_at(bytes, 28));
            &&& !valid_utf8(head) ==> head_in(bytes) is None
            &&& valid_utf8(head) && decode_utf8(head).len() > 0 ==> head_in(bytes) == Some(
                decode_utf8(head),
            )
            &&& valid_utf8(head) && decode_utf8(head).len() == 0 ==> head_in(bytes) is None
        }),
{
}

/// Which segments are refused: those that are too short, and those with other magic bytes or another
/// version.
pub proof fn lemma_which_segments_are_refused(bytes: Seq<u8>)
    ensures
        open_error(bytes) is None <==> bytes.len() >= 20 && bytes.take(8) == seq![
            65u8,
            70,
            84,
            83,
            80,
            73,
            48,
            49,
        ] && u32_at(bytes, 8) == 4,
        bytes.len() >= 20 && bytes.take(8) != seq![65u8, 70, 84, 83, 80, 73, 48, 49] ==> open_error(
            bytes,
        ) == Some(RecordError::InvalidSpillMagic),
        bytes.len() >= 20 && bytes.take(8) == seq![65u8, 70, 84, 83, 80, 73, 48, 49] && u32_at(
            bytes,
            8,
        ) != 4 ==> open_error(bytes) == Some(RecordError::InvalidSpillVersion),
        bytes.len() < 8 ==> open_error(bytes) == Some(RecordError::UnexpectedEnd),
{
    if bytes.len() >= 8 {
        assert(bytes.take(8) =~= bytes.subrange(0, 8));
    }
}

proof fn lemma_the_first_error_of_the_files(
    plan: CacheWritePlan,
    canonical_paths: Seq<Option<SearchPath>>,
    from: int,
)
    requires
        0 <= from <= plan.files@.len(),
    ensures
        ({
            let error = plan.file_error(canonical_paths, from);
            &&& error is None <==> forall|i: int|
                from <= i < plan.files@.len() ==> #[trigger] plan.can_store(canonical_paths, i)
            &&& error is Some ==> exists|i: int|
                from <= i < plan.files@.len() && !#[trigger] plan.can_store(canonical_paths, i) && (
                error == Some(CacheWriteError::PathOutsideRoot) <==> plan.name_of(
                    canonical_paths,
                    i,
                ) is None)
            &&& error is Some ==> error == Some(CacheWriteError::PathOutsideRoot) || error == Some(
                CacheWriteError::PathTooLarge,
            )
        }),
    decreases plan.files@.len() - from,
{
    if from < plan.files@.len() {
        lemma_the_first_error_of_the_files(plan, canonical_paths, from + 1);
        if !plan.can_store(canonical_paths, from) {
            assert(!plan.can_store(canonical_paths, from));
        } else {
            assert(plan.file_error(canonical_paths, from) == plan.file_error(
                canonical_paths,
                from + 1,
            ));
        }
    }
}

/// A header is refused for a text or a path that is too long, for too many files, and for a file that
/// has no name below the root; any other is written.
pub proof fn lemma_which_headers_are_refused(
    plan: CacheWritePlan,
    canonical_paths: Seq<Option<SearchPath>>,
)
    ensures
        ({
            let head_len = (match plan.git_head {
                Some(head) => encode_utf8(head@).len(),
                None => 0,
            });
            let root_len = encode_utf8(lossy_chars(path_text(plan.project_root@))).len();
            let rules_len = encode_utf8(plan.ignore_fingerprint@).len();
            let error = plan.header_error(canonical_paths);
            let limit = 0xffff_ffffint;
            &&& head_len > limit <==> error == Some(CacheWriteError::HeadTooLarge)
            &&& head_len <= limit && root_len > limit <==> error == Some(
                CacheWriteError::RootTooLarge,
            )
            &&& head_len <= limit && root_len <= limit && rules_len > limit <==> error == Some(
                CacheWriteError::FingerprintTooLarge,
            )
            &&& head_len <= limit && root_len <= limit && rules_len <= limit && plan.files@.len()
                > limit <==> error == Some(CacheWriteError::TooManyFiles)
            &&& error is None <==> head_len <= limit && root_len <= limit && rules_len <= limit
                && plan.files@.len() <= limit && forall|i: int|
                0 <= i < plan.files@.len() ==> #[trigger] plan.can_store(canonical_paths, i)
        }),
{
    lemma_the_first_error_of_the_files(plan, canonical_paths, 0);
}

/// What a header says of an index: the commit, the root, the ignore rules, the size limit, and of each
/// file its name, size, time, hash and whether it has no postings.
pub proof fn lemma_what_headers_say(
    plan: CacheWritePlan,
    canonical_paths: Seq<Option<SearchPath>>,
    i: int,
)
    requires
        0 <= i < plan.files@.len(),
        plan.can_store(canonical_paths, i),
    ensures
        ({
            let header = plan.header(canonical_paths);
            let file = plan.files@[i]@;
            &&& plan.git_head matches Some(head) ==> header.head == encode_utf8(head@)
            &&& plan.git_head is None ==> header.head.len() == 0
            &&& header.root == encode_utf8(lossy_chars(path_text(plan.project_root@)))
            &&& header.fingerprint == encode_utf8(plan.ignore_fingerprint@)
            &&& header.max_file_size == plan.max_file_size
            &&& header.files.len() == plan.files@.len()
            &&& header.files[i].size == file.size
            &&& header.files[i].content_hash == file.content_hash
            &&& file.modified.secs >= 0 ==> header.files[i].secs == file.modified.secs
                && header.files[i].nanos == file.modified.nanos
            &&& header.files[i].unindexed <==> plan.unindexed_files@.contains(i as u32)
            &&& cache_name(
                plan.project_root@,
                file.path,
                path_option(canonical_paths[i]),
            ) matches Some(name) && header.files[i].path == encode_utf8(
                lossy_chars(path_text(name)),
            )
        }),
{
}

} // verus!
