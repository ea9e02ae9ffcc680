//! What becomes of an index that is written to a cache file and read again.

use crate::cache_load::loadable;
use crate::cache_load::loaded_view;
use crate::cache_load::IgnoreRulesLoadPolicy;
use crate::cache_read::text_option;
use crate::cache_read::ParsedCache;
use crate::compact::are_delta_records;
use crate::compact::base_sound;
use crate::compact::base_stream;
use crate::compact::compacted_view;
use crate::compact::count_at;
use crate::compact::from_lists;
use crate::compact::is_pending;
use crate::compact::kept_ids;
use crate::compact::lemma_compacted_files_are_listed;
use crate::compact::lemma_kept_upto;
use crate::compact::renumbered;
use crate::compact_laws::lemma_compaction_keeps_candidates;
use crate::compact_laws::lemma_same_postings_same_candidates;
use crate::compact_laws::lemma_streams_members;
use crate::compact_laws::Compaction;
use crate::file_entry::file_views;
use crate::format::is_cache_of;
use crate::format::name_below;
use crate::format::CacheWritePlan;
use crate::format::EncodedCache;
use crate::index::lemma_same_files_stay_listed;
use crate::index::SearchIndex;
use crate::merge_laws::lemma_lookup_counts_trigrams;
use crate::path::PathKey;
use crate::path::SearchPath;
use crate::path_text::accepted_path;
use crate::path_text::PathProbe;
use crate::postings::readable;
use crate::postings::PostingReads;
use crate::query::RegexQuery;
use crate::records::SpillRecord;
use crate::round_trip::come_back;
use crate::round_trip::files_come_back;
use crate::round_trip::lemma_plan_numbers_paths;
use crate::round_trip::lemma_requested_lists_are_written;
use crate::round_trip::lemma_round_trip_keeps_the_index;
use crate::round_trip::paths_numbered;
use crate::round_trip::plan_storable;
use crate::snapshot::filter_for;
use crate::snapshot::SnapshotView;
use crate::trigram::PostingFilter;
use vstd::prelude::*;

verus! {

/// An index, the cache file that was written of it, and what was read of that file.
pub struct Storage {
    pub index: SearchIndex,
    pub plan: CacheWritePlan,
    pub canonical_paths: Seq<Option<SearchPath>>,
    /// The postings since the old cache file was written.
    pub delta: Seq<SpillRecord>,
    /// The lists of the old cache file.
    pub reads: PostingReads,
    pub encoded: EncodedCache,
    pub parsed: ParsedCache,
    pub probes: Seq<PathProbe>,
    /// The lists of the new cache file.
    pub new_reads: PostingReads,
}

impl Storage {
    pub open spec fn run(self) -> Compaction {
        Compaction {
            view: self.index.current@,
            plan: self.plan,
            delta: self.delta,
            base: self.encoded.base@,
            reads: self.reads,
            new_reads: self.new_reads,
        }
    }

    /// The plan is one of the index, the file holds what the plan holds, the paths of the files lead
    /// to no place outside the root, and the lists are those that stand in the file.
    pub open spec fn went_through(self) -> bool {
        let view = self.index.current@;
        let records = self.run().records();
        let base = self.encoded.base;
        &&& self.index.well_formed()
        &&& self.plan.keeps(view, kept_ids(view))
        &&& base_sound(view, self.reads, self.plan.id_map@)
        &&& are_delta_records(view.postings, self.plan.id_map@, self.delta)
        &&& plan_storable(self.plan, self.canonical_paths, records)
        &&& is_cache_of(
            self.encoded,
            self.plan.header(self.canonical_paths),
            records,
            self.plan.file_trigram_count@,
        )
        &&& self.parsed.reads(self.encoded.bytes@)
        &&& self.probes.len() == self.plan.files@.len()
        &&& forall|i: int|
            0 <= i < self.probes.len() ==> (#[trigger] accepted_path(
                self.plan.project_root@,
                name_below(self.plan.project_root@, self.plan.files@[i].path@)->0,
                self.probes[i],
            )) is Some
        &&& forall|i: int|
            0 <= i < base.lookup@.len() ==> readable(base, #[trigger] base.lookup@[i])
                ==> self.new_reads.lists@.contains_key(base.lookup@[i].trigram)
                && self.new_reads.lists@[base.lookup@[i].trigram]@ == self.encoded.bytes@.subrange(
                base.postings_blob_start + base.lookup@[i].offset,
                base.postings_blob_start + base.lookup@[i].offset + 6 * base.lookup@[i].count,
            )
    }

    /// The index as it stands once it has taken the cache file into use.
    pub open spec fn written(self) -> SnapshotView {
        compacted_view(self.index.current@, self.plan, self.encoded.base@)
    }

    /// The index as it is read.
    pub open spec fn read(self) -> SnapshotView {
        loaded_view(self.parsed, self.plan.project_root@, self.probes)
    }
}

/// A path leads to a file that may hold a match of the query.
pub open spec fn candidate_at(
    view: SnapshotView,
    reads: PostingReads,
    query: RegexQuery,
    path: PathKey,
) -> bool {
    view.ids.contains_key(path) && view.is_candidate(reads, query, view.ids[path])
}

/// Each path has a place of its own, so there are as many paths as files.
proof fn lemma_numbered_paths_are_counted(plan: CacheWritePlan)
    requires
        paths_numbered(plan),
    ensures
        plan.path_to_id@.len() == plan.files@.len(),
{
    let paths = Seq::new(plan.files@.len(), |i: int| plan.files@[i].path@);
    assert(paths.no_duplicates()) by {
        assert forall|i: int, j: int| 0 <= i < j < paths.len() implies paths[i] != paths[j] by {
            assert(plan.path_to_id@[plan.files@[i].path@] == i);
            assert(plan.path_to_id@[plan.files@[j].path@] == j);
        }
    }
    paths.unique_seq_to_set();
    assert(paths.to_set() =~= plan.path_to_id@.dom()) by {
        assert forall|p: PathKey| paths.to_set().contains(p) == plan.path_to_id@.dom().contains(
            p,
        ) by {
            if paths.contains(p) {
                let i = paths.index_of(p);
                assert(plan.path_to_id@.contains_key(plan.files@[i].path@));
            }
            if plan.path_to_id@.contains_key(p) {
                let i = plan.path_to_id@[p] as int;
                assert(paths[i] == p);
            }
        }
    }
}

proof fn lemma_storage_is_sound(storage: Storage)
    requires
        storage.went_through(),
    ensures
        storage.run().sound(),
{
    let records = storage.run().records();
    lemma_requested_lists_are_written(
        storage.plan,
        storage.canonical_paths,
        records,
        storage.encoded,
        storage.new_reads,
    );
    assert(storage.index.current@.files.len() == storage.index.current.files@.len());
}

/// What a file may hold does not depend on whether the index was written and read in between.
proof fn lemma_path_candidates_survive(storage: Storage, query: RegexQuery, path: PathKey)
    requires
        storage.went_through(),
    ensures
        candidate_at(storage.index.current@, storage.reads, query, path) == candidate_at(
            storage.written(),
            storage.new_reads,
            query,
            path,
        ),
{
    let view = storage.index.current@;
    let kept = kept_ids(view);
    let plan = storage.plan;
    lemma_storage_is_sound(storage);
    assert(view.files.len() == storage.index.current.files@.len());
    lemma_kept_upto(view, view.files.len() as int);
    if view.ids.contains_key(path) {
        let id = view.ids[path];
        assert(storage.index.current.path_to_id@.contains_key(path));
        assert(view.listed(id));
        if kept.contains(id) {
            lemma_compaction_keeps_candidates(storage.run(), query, id);
            assert(plan.path_to_id@.contains_key(path));
            let (a, b) = (plan.path_to_id@[path], plan.id_map@[id]);
            assert(plan.id_map@.contains_key(id));
            assert(kept[a as int] == id && kept[b as int] == id);
            if a < b {
                assert(kept[a as int] < kept[b as int]);
            }
            if b < a {
                assert(kept[b as int] < kept[a as int]);
            }
        } else {
            assert(!view.active(id));
            assert(!plan.path_to_id@.contains_key(path));
            if view.is_candidate(storage.reads, query, id) && query.and_trigrams@.len() > 0
                && view.has_all(storage.reads, query, id) {
                assert(view.has_posting(
                    storage.reads,
                    query.and_trigrams@[0],
                    filter_for(query.and_filters@, query.and_trigrams@[0]),
                    id,
                ));
            }
        }
    }
}

/// Where all postings are of files that are kept and no cache file was there before, the new one has
/// the trigrams that the index had.
proof fn lemma_trigrams_are_counted_alike(storage: Storage)
    requires
        storage.went_through(),
        storage.index.current@.base is None,
        forall|t: u32, k: int|
            #![trigger storage.index.current@.postings[t][k]]
            storage.index.current@.postings.contains_key(t) && 0 <= k
                < storage.index.current@.postings[t].len() ==> kept_ids(
                storage.index.current@,
            ).contains(storage.index.current@.postings[t][k].file_id),
    ensures
        storage.written().trigram_total() == storage.index.current@.trigram_total(),
{
    let view = storage.index.current@;
    let records = storage.run().records();
    let ids = storage.plan.id_map@;
    let base = base_stream(view, storage.reads, ids);
    lemma_storage_is_sound(storage);
    assert forall|k: int| 0 <= k < records.len() implies view.new_trigrams().contains(
        (#[trigger] records[k]).trigram,
    ) by {
        assert(records.contains(records[k]));
        lemma_streams_members(base, storage.delta, records[k]);
        assert(storage.delta.contains(records[k]));
        assert(from_lists(view.postings, ids, records[k]));
    }
    assert forall|t: u32| #[trigger] view.new_trigrams().contains(t) implies exists|k: int|
        0 <= k < records.len() && (#[trigger] records[k]).trigram == t by {
        assert(storage.index.current.delta.postings@.contains_key(t));
        assert(view.postings[t] == storage.index.current.delta.postings@[t]@);
        let posting = view.postings[t][0];
        assert(kept_ids(view).contains(posting.file_id));
        assert(ids.contains_key(posting.file_id));
        let record = renumbered(t, posting, ids);
        assert(from_lists(view.postings, ids, record)) by {
            assert(ids.contains_key(view.postings[record.trigram][0].file_id));
        }
        assert(storage.delta.contains(record));
        lemma_streams_members(base, storage.delta, record);
        let k = records.index_of(record);
        assert(records[k].trigram == t);
    }
    lemma_lookup_counts_trigrams(records, view.new_trigrams());
    assert(storage.written().new_trigrams() =~= Set::<u32>::empty());
}

/// An index as it comes back from its cache file: not ready, with times before 1970 as the start of
/// 1970.
pub open spec fn comes_back(view: SnapshotView) -> SnapshotView {
    SnapshotView { ready: false, files: files_come_back(view.files), ..view }
}

/// Neither whether an index is ready nor the times of its files change the candidates.
proof fn lemma_readiness_does_not_matter(
    view: SnapshotView,
    reads: PostingReads,
    query: RegexQuery,
    id: u32,
)
    ensures
        comes_back(view).is_candidate(reads, query, id) == view.is_candidate(reads, query, id),
{
    let other = comes_back(view);
    assert(other.active(id) == view.active(id));
    assert forall|t: u32, f: Option<PostingFilter>| #[trigger]
        other.has_posting(reads, t, f, id) == view.has_posting(reads, t, f, id) by {}
    assert(other.listed(id) == view.listed(id)) by {
        assert(other.ids == view.ids);
        if view.listed(id) {
            let p = choose|p: PathKey| #[trigger] view.ids.contains_key(p) && view.ids[p] == id;
            assert(other.ids.contains_key(p) && other.ids[p] == id);
        }
    }
    lemma_same_postings_same_candidates(other, reads, id, view, reads, id, query);
}

/// The index that is read is the writer's own, but for not being ready.
proof fn lemma_read_is_written(storage: Storage, policy: IgnoreRulesLoadPolicy)
    requires
        storage.went_through(),
    ensures
        loadable(
            storage.parsed,
            storage.plan.project_root@,
            storage.probes,
            storage.plan.ignore_fingerprint@,
            policy,
        ),
        storage.read() == comes_back(storage.written()),
        !is_pending(storage.read(), storage.parsed.files@.len() as u32),
        text_option(storage.parsed.git_head) == (match storage.plan.git_head {
            Some(head) => if head@.len() > 0 {
                Some(head@)
            } else {
                None
            },
            None => None,
        }),
        storage.parsed.ignore_fingerprint@ == storage.plan.ignore_fingerprint@,
        storage.parsed.max_file_size == storage.plan.max_file_size,
{
    let before = storage.index.current@;
    let plan = storage.plan;
    assert(before.files.len() == storage.index.current.files@.len());
    lemma_kept_upto(before, before.files.len() as int);
    lemma_plan_numbers_paths(storage.index, plan);
    lemma_round_trip_keeps_the_index(
        plan,
        storage.canonical_paths,
        storage.run().records(),
        storage.encoded,
        storage.parsed,
        storage.probes,
        policy,
    );
    assert(file_views(plan.files@).len() == plan.files@.len());
    assert(storage.read().files.len() == storage.parsed.files@.len());
    assert(storage.read().unindexed =~= storage.written().unindexed);
    lemma_numbered_paths_are_counted(plan);
}

/// The paths lead to the files to which they led.
proof fn lemma_paths_survive(storage: Storage, path: PathKey)
    requires
        storage.went_through(),
    ensures
        ({
            let before = storage.index.current@;
            let written = storage.written();
            &&& written.ids.contains_key(path) <==> before.ids.contains_key(path) && before.active(
                before.ids[path],
            )
            &&& written.ids.contains_key(path) ==> {
                &&& written.files[written.ids[path] as int] == before.files[before.ids[path] as int]
                &&& written.file_trigram_count[written.ids[path] as int] == count_at(
                    before.file_trigram_count,
                    before.ids[path],
                )
            }
        }),
{
    let before = storage.index.current@;
    let plan = storage.plan;
    let kept = kept_ids(before);
    assert(before.files.len() == storage.index.current.files@.len());
    lemma_kept_upto(before, before.files.len() as int);
    if before.ids.contains_key(path) {
        assert(storage.index.current.path_to_id@.contains_key(path));
        assert(before.listed(before.ids[path]));
    }
    if plan.path_to_id@.contains_key(path) {
        let k = plan.path_to_id@[path] as int;
        assert(file_views(plan.files@)[k] == before.files[kept[k] as int]);
    }
}

/// Reading a cache file gives back the index that was written to it. The index that is read is the
/// writer's own as it stands once it has taken the file into use, but for not being ready, and for
/// times before 1970, which come back as the start of 1970: its paths, files, trigram counts, lists
/// and number of trigrams are the same, and so are the candidates of every query. Nothing is pending,
/// and every file that counts has a path that leads to it. And as for the index before it was
/// written: the same paths lead to files, but for the empty one; each file is as it was, with its
/// trigram count; a path leads to a candidate of a query if and only if it did; and where no cache
/// file was there before and no file was put aside, there are as many trigrams.
pub proof fn lemma_reading_gives_back_what_was_written(
    storage: Storage,
    policy: IgnoreRulesLoadPolicy,
)
    requires
        storage.went_through(),
    ensures
        ({
            let before = storage.index.current@;
            let written = storage.written();
            let read = storage.read();
            &&& loadable(
                storage.parsed,
                storage.plan.project_root@,
                storage.probes,
                storage.plan.ignore_fingerprint@,
                policy,
            )
            &&& read == comes_back(written)
            &&& read.trigram_total() == written.trigram_total()
            &&& forall|query: RegexQuery, id: u32| #[trigger]
                read.is_candidate(storage.new_reads, query, id) == written.is_candidate(
                    storage.new_reads,
                    query,
                    id,
                )
            &&& !is_pending(read, storage.parsed.files@.len() as u32)
            &&& text_option(storage.parsed.git_head) == (match storage.plan.git_head {
                Some(head) => if head@.len() > 0 {
                    Some(head@)
                } else {
                    None
                },
                None => None,
            })
            &&& storage.parsed.ignore_fingerprint@ == storage.plan.ignore_fingerprint@
            &&& storage.parsed.max_file_size == storage.plan.max_file_size
            &&& read.all_listed()
            &&& forall|p: PathKey| #[trigger]
                read.ids.contains_key(p) <==> before.ids.contains_key(p) && p.len() > 0
            &&& forall|p: PathKey| #[trigger]
                read.ids.contains_key(p) ==> {
                    &&& read.files[read.ids[p] as int] == come_back(
                        before.files[before.ids[p] as int],
                    )
                    &&& read.file_trigram_count[read.ids[p] as int] == count_at(
                        before.file_trigram_count,
                        before.ids[p],
                    )
                }
            &&& forall|query: RegexQuery, p: PathKey| #[trigger]
                candidate_at(read, storage.new_reads, query, p) == candidate_at(
                    before,
                    storage.reads,
                    query,
                    p,
                )
            &&& before.base is None && (forall|t: u32, k: int|
                #![trigger before.postings[t][k]]
                before.postings.contains_key(t) && 0 <= k < before.postings[t].len() ==> kept_ids(
                    before,
                ).contains(before.postings[t][k].file_id)) ==> read.trigram_total()
                == before.trigram_total()
        }),
{
    let before = storage.index.current@;
    let written = storage.written();
    let read = storage.read();
    lemma_read_is_written(storage, policy);
    assert(read.new_trigrams() =~= written.new_trigrams());
    assert forall|query: RegexQuery, id: u32| #[trigger]
        read.is_candidate(storage.new_reads, query, id) == written.is_candidate(
            storage.new_reads,
            query,
            id,
        ) by {
        lemma_readiness_does_not_matter(written, storage.new_reads, query, id);
    }
    assert forall|p: PathKey| #[trigger] read.ids.contains_key(p) <==> before.ids.contains_key(p)
        && p.len() > 0 by {
        lemma_paths_survive(storage, p);
        if before.ids.contains_key(p) {
            assert(storage.index.current.path_to_id@.contains_key(p));
        }
    }
    assert(before.files.len() == storage.index.current.files@.len());
    lemma_compacted_files_are_listed(before, storage.plan, storage.encoded.base@);
    lemma_same_files_stay_listed(written, read);
    assert forall|p: PathKey| #[trigger] read.ids.contains_key(p) implies {
        &&& read.files[read.ids[p] as int] == come_back(before.files[before.ids[p] as int])
        &&& read.file_trigram_count[read.ids[p] as int] == count_at(
            before.file_trigram_count,
            before.ids[p],
        )
    } by {
        lemma_paths_survive(storage, p);
    }
    assert forall|query: RegexQuery, p: PathKey| #[trigger]
        candidate_at(read, storage.new_reads, query, p) == candidate_at(
            before,
            storage.reads,
            query,
            p,
        ) by {
        lemma_path_candidates_survive(storage, query, p);
        lemma_readiness_does_not_matter(written, storage.new_reads, query, read.ids[p]);
    }
    if before.base is None && (forall|t: u32, k: int|
        #![trigger before.postings[t][k]]
        before.postings.contains_key(t) && 0 <= k < before.postings[t].len() ==> kept_ids(
            before,
        ).contains(before.postings[t][k].file_id)) {
        lemma_trigrams_are_counted_alike(storage);
    }
}

} // verus!
