//! What a cache file gives back of the index that was written to it.

use crate::cache_laws::header_storable;
use crate::cache_laws::lemma_cache_file_survives;
use crate::cache_laws::lemma_cache_name_leads_back;
use crate::cache_laws::lemma_stored_name_survives;
use crate::cache_laws::read_back;
use crate::cache_laws::records_storable;
use crate::cache_laws::says;
use crate::cache_laws::storable;
use crate::cache_load::loadable;
use crate::cache_load::loaded_file;
use crate::cache_load::loaded_ids;
use crate::cache_load::loaded_path;
use crate::cache_load::loaded_paths;
use crate::cache_load::loaded_view;
use crate::cache_load::IgnoreRulesLoadPolicy;
use crate::cache_read::cache_ok;
use crate::cache_read::file_at;
use crate::cache_read::text_option;
use crate::cache_read::ParsedCache;
use crate::compact::kept_ids;
use crate::compact::lemma_kept_upto;
use crate::compact_laws::reads_blob;
use crate::file_entry::epoch;
use crate::file_entry::file_views;
use crate::file_entry::FileView;
use crate::format::is_cache_of;
use crate::format::name_below;
use crate::format::postings_body;
use crate::format::with_checksum;
use crate::format::CacheWritePlan;
use crate::format::EncodedCache;
use crate::format::MAX_ENTRIES;
use crate::index::SearchIndex;
use crate::merge::lookup_fits;
use crate::merge::lookup_of;
use crate::merge_laws::lemma_blob_piece;
use crate::merge_laws::lemma_lookup_is_ascending;
use crate::merge_laws::lemma_lookup_leads_to_lists;
use crate::merge_laws::trigrams_sorted;
use crate::path::normalized;
use crate::path::PathKey;
use crate::path::SearchPath;
use crate::path_text::accepted_path;
use crate::path_text::path_text;
use crate::path_text::textual;
use crate::path_text::PathProbe;
use crate::postings::entry_for;
use crate::postings::lookup_holds;
use crate::postings::readable;
use crate::postings::PostingReads;
use crate::records::record_bytes;
use crate::records::SpillRecord;
use crate::snapshot::SnapshotView;
use vstd::prelude::*;
use vstd::utf8::valid_utf8;

verus! {

/// The path of file `i` is normalized, stands below the root, and can be told in UTF-8.
pub open spec fn path_storable(plan: CacheWritePlan, i: int) -> bool {
    let path = plan.files@[i].path@;
    let name = name_below(plan.project_root@, path);
    &&& path == normalized(path)
    &&& name is Some
    &&& textual(name->0)
    &&& valid_utf8(path_text(name->0))
}

/// A file as it comes back from a cache file: a time before 1970 comes back as the start of 1970.
pub open spec fn come_back(file: FileView) -> FileView {
    FileView {
        modified: if file.modified.secs < 0 {
            epoch()
        } else {
            file.modified
        },
        ..file
    }
}

pub open spec fn files_come_back(files: Seq<FileView>) -> Seq<FileView> {
    files.map_values(|file: FileView| come_back(file))
}

/// Each path leads to the place of its file, and no other path to any.
pub open spec fn paths_numbered(plan: CacheWritePlan) -> bool {
    &&& forall|i: int|
        0 <= i < plan.files@.len() ==> plan.path_to_id@.contains_key(
            (#[trigger] plan.files@[i]).path@,
        ) && plan.path_to_id@[plan.files@[i].path@] == i
    &&& forall|p: PathKey| #[trigger]
        plan.path_to_id@.contains_key(p) ==> plan.path_to_id@[p] < plan.files@.len()
            && plan.files@[plan.path_to_id@[p] as int].path@ == p
}

/// A cache file can hold what the plan holds.
pub open spec fn plan_storable(
    plan: CacheWritePlan,
    canonical_paths: Seq<Option<SearchPath>>,
    records: Seq<SpillRecord>,
) -> bool {
    &&& plan.header_fits(canonical_paths)
    &&& plan.files@.len() <= MAX_ENTRIES
    &&& plan.file_trigram_count@.len() == plan.files@.len()
    &&& records_storable(records)
    &&& with_checksum(
        postings_body(plan.header(canonical_paths), records, plan.file_trigram_count@),
    ).len() <= u64::MAX
    &&& forall|i: int| 0 <= i < plan.files@.len() ==> #[trigger] path_storable(plan, i)
    &&& forall|i: int|
        0 <= i < plan.files@.len() ==> (#[trigger] plan.files@[i]).modified.is_valid()
}

proof fn lemma_header_storable(
    plan: CacheWritePlan,
    canonical_paths: Seq<Option<SearchPath>>,
    records: Seq<SpillRecord>,
)
    requires
        plan_storable(plan, canonical_paths, records),
    ensures
        header_storable(plan.header(canonical_paths)),
{
    broadcast use vstd::utf8::encode_utf8_valid_utf8;

    let header = plan.header(canonical_paths);
    assert forall|i: int| 0 <= i < header.files.len() implies storable(
        #[trigger] header.files[i],
    ) by {
        assert(plan.can_store(canonical_paths, i));
        assert(path_storable(plan, i) && plan.files@[i].modified.is_valid());
        assert(plan.files@[i].content_hash@.len() == 32);
        assert(valid_utf8(header.files[i].path));
    }
}

/// A cache file that was written is read, and says what was written.
pub proof fn lemma_written_cache_is_read(
    plan: CacheWritePlan,
    canonical_paths: Seq<Option<SearchPath>>,
    records: Seq<SpillRecord>,
    encoded: EncodedCache,
)
    requires
        plan_storable(plan, canonical_paths, records),
        is_cache_of(
            encoded,
            plan.header(canonical_paths),
            records,
            plan.file_trigram_count@,
        ),
    ensures
        cache_ok(encoded.bytes@),
        says(
            encoded.bytes@,
            plan.header(canonical_paths),
            records,
            plan.file_trigram_count@,
        ),
{
    lemma_header_storable(plan, canonical_paths, records);
    lemma_cache_file_survives(
        plan.header(canonical_paths),
        records,
        plan.file_trigram_count@,
    );
}

proof fn lemma_loaded_ids_lead_back(paths: Seq<PathKey>, ids: Map<PathKey, u32>, count: int)
    requires
        0 <= count <= paths.len(),
        count <= u32::MAX,
        forall|i: int|
            0 <= i < paths.len() ==> ids.contains_key(#[trigger] paths[i]) && ids[paths[i]] == i,
    ensures
        forall|p: PathKey| #[trigger]
            loaded_ids(paths, count).contains_key(p) <==> ids.contains_key(p) && ids[p] < count
                && paths[ids[p] as int] == p,
        forall|p: PathKey| #[trigger]
            loaded_ids(paths, count).contains_key(p) ==> loaded_ids(paths, count)[p] == ids[p],
    decreases count,
{
    if count > 0 {
        let earlier = loaded_ids(paths, count - 1);
        let last = paths[count - 1];
        lemma_loaded_ids_lead_back(paths, ids, count - 1);
        assert(ids.contains_key(last) && ids[last] == count - 1);
        assert forall|p: PathKey| #[trigger]
            loaded_ids(paths, count).contains_key(p) <==> ids.contains_key(p) && ids[p] < count
            && paths[ids[p] as int] == p by {
            assert(earlier.contains_key(p) <==> ids.contains_key(p) && ids[p] < count - 1
                && paths[ids[p] as int] == p);
        }
        assert forall|p: PathKey| #[trigger]
            loaded_ids(paths, count).contains_key(p) implies loaded_ids(paths, count)[p]
            == ids[p] by {
            assert(p == last || earlier.contains_key(p));
        }
    }
}

/// The index that a writer holds once the cache file is written, before it is ready to be searched, with
/// times before 1970 as the start of 1970.
pub open spec fn written_view(plan: CacheWritePlan, encoded: EncodedCache) -> SnapshotView {
    SnapshotView {
        base: Some(encoded.base@),
        postings: Map::empty(),
        superseded: Set::empty(),
        files: files_come_back(file_views(plan.files@)),
        ids: plan.path_to_id@,
        ready: false,
        project_root: plan.project_root@,
        file_trigram_count: plan.file_trigram_count@,
        unindexed: Set::new(
            |id: u32| id < plan.files@.len() && plan.unindexed_files@.contains(id),
        ),
    }
}

/// Reading a cache file gives back the index that was written to it: its files, its paths and their
/// ids, its trigram counts, the files without postings, the posting lists, the commit, the ignore
/// rules and the size limit.
pub proof fn lemma_round_trip_keeps_the_index(
    plan: CacheWritePlan,
    canonical_paths: Seq<Option<SearchPath>>,
    records: Seq<SpillRecord>,
    encoded: EncodedCache,
    parsed: ParsedCache,
    probes: Seq<PathProbe>,
    policy: IgnoreRulesLoadPolicy,
)
    requires
        plan_storable(plan, canonical_paths, records),
        paths_numbered(plan),
        is_cache_of(
            encoded,
            plan.header(canonical_paths),
            records,
            plan.file_trigram_count@,
        ),
        parsed.reads(encoded.bytes@),
        probes.len() == plan.files@.len(),
        forall|i: int|
            0 <= i < probes.len() ==> (#[trigger] accepted_path(
                plan.project_root@,
                name_below(plan.project_root@, plan.files@[i].path@)->0,
                probes[i],
            )) is Some,
    ensures
        loadable(
            parsed,
            plan.project_root@,
            probes,
            plan.ignore_fingerprint@,
            policy,
        ),
        loaded_view(parsed, plan.project_root@, probes) == written_view(plan, encoded),
        text_option(parsed.git_head) == (match plan.git_head {
            Some(head) => if head@.len() > 0 {
                Some(head@)
            } else {
                None
            },
            None => None,
        }),
        parsed.ignore_fingerprint@ == plan.ignore_fingerprint@,
        parsed.max_file_size == plan.max_file_size,
        !parsed.migrated_counts,
{
    broadcast use vstd::utf8::encode_utf8_valid_utf8;
    broadcast use vstd::utf8::encode_utf8_decode_utf8;

    let header = plan.header(canonical_paths);
    let bytes = encoded.bytes@;
    let root = plan.project_root@;
    lemma_written_cache_is_read(plan, canonical_paths, records, encoded);
    let count = plan.files@.len() as int;
    assert(parsed.files@.len() == count);
    assert forall|i: int| 0 <= i < count implies (#[trigger] parsed.files@[i])@ == read_back(
        header.files[i],
    ) && loaded_path(root, parsed.files@, probes, i) == Some(plan.files@[i].path@) by {
        let path = plan.files@[i].path@;
        let name = name_below(root, path);
        assert(path_storable(plan, i) && plan.files@[i].modified.is_valid());
        assert(plan.name_of(canonical_paths, i) == name);
        lemma_stored_name_survives(name->0);
        lemma_cache_name_leads_back(root, path);
        let at = file_at(bytes, i);
        assert(parsed.files@[i]@ == read_back(header.files[i]));
        assert(parsed.files@[i]@.path == name->0);
        assert(accepted_path(root, name->0, probes[i]) is Some);
    }
    lemma_read_files_are_written(plan, canonical_paths, encoded, parsed, probes);
    assert(parsed.file_trigram_count@ == plan.file_trigram_count@);
    assert(parsed.base@ == encoded.base@);
}

/// Files that were read back at their own paths make up the index that was written.
proof fn lemma_read_files_are_written(
    plan: CacheWritePlan,
    canonical_paths: Seq<Option<SearchPath>>,
    encoded: EncodedCache,
    parsed: ParsedCache,
    probes: Seq<PathProbe>,
)
    requires
        paths_numbered(plan),
        plan.files@.len() <= MAX_ENTRIES,
        parsed.files@.len() == plan.files@.len(),
        forall|i: int|
            0 <= i < plan.files@.len() ==> (#[trigger] plan.files@[i]).modified.is_valid(),
        forall|i: int|
            0 <= i < plan.files@.len() ==> (#[trigger] parsed.files@[i])@ == read_back(
                plan.stored(canonical_paths, i),
            ),
        forall|i: int|
            0 <= i < plan.files@.len() ==> #[trigger] loaded_path(
                plan.project_root@,
                parsed.files@,
                probes,
                i,
            ) == Some(plan.files@[i].path@),
    ensures
        ({
            let view = loaded_view(parsed, plan.project_root@, probes);
            let written = written_view(plan, encoded);
            &&& view.files == written.files
            &&& view.ids == written.ids
            &&& view.unindexed == written.unindexed
        }),
{
    let root = plan.project_root@;
    let count = plan.files@.len() as int;
    let paths = loaded_paths(root, parsed.files@, probes);
    let view = loaded_view(parsed, root, probes);
    let written = written_view(plan, encoded);
    assert forall|i: int| 0 <= i < count implies #[trigger] paths[i] == plan.files@[i].path@ by {
        assert(loaded_path(root, parsed.files@, probes, i) == Some(plan.files@[i].path@));
    }
    assert(view.files =~= written.files) by {
        assert forall|i: int| 0 <= i < count implies view.files[i] == written.files[i] by {
            assert(plan.files@[i].modified.is_valid());
            assert(parsed.files@[i]@ == read_back(plan.stored(canonical_paths, i)));
            assert(paths[i] == plan.files@[i].path@);
            assert(view.files[i] == loaded_file(parsed.files@[i]@, paths[i]));
        }
    }
    assert forall|i: int| 0 <= i < paths.len() implies plan.path_to_id@.contains_key(
        #[trigger] paths[i],
    ) && plan.path_to_id@[paths[i]] == i by {
        assert(paths[i] == plan.files@[i].path@);
    }
    lemma_loaded_ids_lead_back(paths, plan.path_to_id@, count);
    assert(view.ids =~= written.ids) by {
        assert forall|p: PathKey| view.ids.contains_key(p) == written.ids.contains_key(p) by {
            if written.ids.contains_key(p) {
                assert(paths[plan.path_to_id@[p] as int] == p);
            }
        }
    }
    assert(view.unindexed =~= written.unindexed) by {
        assert forall|id: u32| view.unindexed.contains(id) == written.unindexed.contains(id) by {
            if id < count {
                assert(parsed.files@[id as int]@ == read_back(
                    plan.stored(canonical_paths, id as int),
                ));
            }
        }
    }
}

/// The lists that the lookup table asks for, read from the cache file, are the lists that were
/// written.
pub proof fn lemma_requested_lists_are_written(
    plan: CacheWritePlan,
    canonical_paths: Seq<Option<SearchPath>>,
    records: Seq<SpillRecord>,
    encoded: EncodedCache,
    reads: PostingReads,
)
    requires
        plan_storable(plan, canonical_paths, records),
        is_cache_of(
            encoded,
            plan.header(canonical_paths),
            records,
            plan.file_trigram_count@,
        ),
        forall|i: int|
            0 <= i < encoded.base.lookup@.len() ==> readable(
                encoded.base,
                #[trigger] encoded.base.lookup@[i],
            ) ==> reads.lists@.contains_key(encoded.base.lookup@[i].trigram)
                && reads.lists@[encoded.base.lookup@[i].trigram]@ == encoded.bytes@.subrange(
                encoded.base.postings_blob_start + encoded.base.lookup@[i].offset,
                encoded.base.postings_blob_start + encoded.base.lookup@[i].offset + 6
                    * encoded.base.lookup@[i].count,
            ),
    ensures
        reads_blob(reads, encoded.base.lookup@, record_bytes(records)),
{
    let bytes = encoded.bytes@;
    let lookup = encoded.base.lookup@;
    let start = encoded.base.postings_blob_start as int;
    let blob = record_bytes(records);
    lemma_written_cache_is_read(plan, canonical_paths, records, encoded);
    lemma_blob_piece(records, 0, 0);
    assert(encoded.bytes.len() == bytes.len());
    assert(blob == bytes.subrange(start, start + blob.len()));
    assert forall|i: int| 0 <= i < lookup.len() implies reads.lists@.contains_key(
        (#[trigger] lookup[i]).trigram,
    ) && reads.lists@[lookup[i].trigram]@ == blob.subrange(
        lookup[i].offset as int,
        lookup[i].offset + 6 * lookup[i].count,
    ) by {
        let entry = lookup[i];
        lemma_entry_in_blob(records, i);
        assert(readable(encoded.base, entry));
        assert(bytes.subrange(
            start + entry.offset,
            start + entry.offset + 6 * entry.count,
        ) =~= blob.subrange(entry.offset as int, entry.offset + 6 * entry.count));
    }
}

/// A lookup entry lies within the lists.
proof fn lemma_entry_in_blob(records: Seq<SpillRecord>, i: int)
    requires
        trigrams_sorted(records),
        lookup_fits(records),
        0 <= i < lookup_of(records).len(),
    ensures
        lookup_of(records)[i].offset + 6 * lookup_of(records)[i].count <= record_bytes(
            records,
        ).len(),
{
    let lookup = lookup_of(records);
    let trigram = lookup[i].trigram;
    lemma_lookup_is_ascending(records);
    lemma_lookup_leads_to_lists(records, trigram);
    assert(lookup_holds(lookup, trigram));
    let k = choose|k: int| 0 <= k < lookup.len() && (#[trigger] lookup[k]).trigram == trigram;
    if k < i {
        assert(lookup[k].trigram < lookup[i].trigram);
    }
    if i < k {
        assert(lookup[i].trigram < lookup[k].trigram);
    }
    assert(entry_for(lookup, trigram) == Some(lookup[i]));
}

/// The plan of an index numbers its paths.
pub proof fn lemma_plan_numbers_paths(index: SearchIndex, plan: CacheWritePlan)
    requires
        index.well_formed(),
        plan.keeps(index.current@, kept_ids(index.current@)),
    ensures
        paths_numbered(plan),
{
    let view = index.current@;
    let kept = kept_ids(view);
    lemma_kept_upto(view, view.files.len() as int);
    assert(view.files.len() == index.current.files@.len());
    assert(plan.files@.len() == kept.len()) by {
        assert(file_views(plan.files@).len() == plan.files@.len());
    }
    assert forall|i: int| 0 <= i < kept.len() implies (#[trigger] plan.files@[i]).path@
        == view.files[kept[i] as int].path by {
        assert(file_views(plan.files@)[i] == view.files[kept[i] as int]);
    }
    assert forall|i: int| 0 <= i < plan.files@.len() implies plan.path_to_id@.contains_key(
        (#[trigger] plan.files@[i]).path@,
    ) && plan.path_to_id@[plan.files@[i].path@] == i by {
        assert(kept.contains(kept[i]));
        let p = choose|p: PathKey| #[trigger] view.ids.contains_key(p) && view.ids[p] == kept[i];
        assert(index.current.path_to_id@.contains_key(p));
        assert(p == plan.files@[i].path@);
        assert(plan.path_to_id@.contains_key(p));
        let k = plan.path_to_id@[p] as int;
        assert(kept[k] == kept[i]);
        if k < i {
            assert(kept[k] < kept[i]);
        }
        if i < k {
            assert(kept[i] < kept[k]);
        }
    }
    assert forall|p: PathKey| #[trigger] plan.path_to_id@.contains_key(p) implies plan.path_to_id@[p]
        < plan.files@.len() && plan.files@[plan.path_to_id@[p] as int].path@ == p by {
        assert(index.current.path_to_id@.contains_key(p));
    }
}

} // verus!
