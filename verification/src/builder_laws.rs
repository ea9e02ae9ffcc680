//! Laws of building: the index whose postings were spilled and merged answers every search as one
//! that was held in memory.

use crate::builder::build_streams;
use crate::builder::in_lists;
use crate::builder::in_segments;
use crate::builder::is_segment;
use crate::builder::is_sorted_block;
use crate::builder::opened;
use crate::builder::segments_sound;
use crate::builder::segments_written;
use crate::builder::StreamingBuilder;
use crate::compact_laws::lemma_list_matches;
use crate::compact_laws::lemma_new_list;
use crate::compact_laws::lemma_same_postings_same_candidates;
use crate::compact_laws::reads_blob;
use crate::index::files_in_use;
use crate::ingest::added_as;
use crate::ingest::ingested;
use crate::ingest::PreparedView;
use crate::merge::lookup_fits;
use crate::merge::lookup_of;
use crate::merge::merged;
use crate::merge_laws::all_records;
use crate::merge_laws::lemma_lookup_counts_trigrams;
use crate::merge_laws::lemma_lookup_is_ascending;
use crate::merge_laws::lemma_merge_groups_trigrams;
use crate::merge_laws::lemma_merge_keeps_records;
use crate::merge_laws::trigrams_sorted;
use crate::path::PathKey;
use crate::postings::ascending_lookup;
use crate::postings::passes_filter;
use crate::postings::LookupEntry;
use crate::postings::Posting;
use crate::postings::PostingReads;
use crate::query::RegexQuery;
use crate::records::lemma_segment_survives;
use crate::records::open_error;
use crate::records::record_at_most;
use crate::records::record_bytes;
use crate::records::record_posting;
use crate::records::records_sorted;
use crate::records::SpillRecord;
use crate::refresh::StepView;
use crate::refresh_laws::after_steps;
use crate::refresh_laws::StepInput;
use crate::segment_window::whole_segment;
use crate::snapshot::list_matches;
use crate::snapshot::SnapshotView;
use crate::stream_laws::lemma_sound_segments_are_written;
use crate::stream_laws::records_of;
use crate::stream_laws::StreamRun;
use crate::stream_merge::all_whole;
use crate::stream_merge::byte_views;
use crate::stream_merge::whole_streams;
use crate::trigram::PostingFilter;
use vstd::prelude::*;

verus! {

/// Segments that are read as they were written hold the records that were written.
pub proof fn lemma_segments_survive(segments: Seq<Vec<u8>>, spilled: Seq<Seq<SpillRecord>>)
    requires
        segments_written(segments, spilled),
        forall|i: int| 0 <= i < spilled.len() ==> is_segment(#[trigger] spilled[i]),
    ensures
        segments_sound(segments),
        forall|last: Seq<SpillRecord>| #[trigger]
            build_streams(segments, last) == (if last.len() > 0 {
                spilled.push(last)
            } else {
                spilled
            }),
{
    assert forall|i: int| 0 <= i < segments.len() implies opened((#[trigger] segments[i])@) == Some(
        (spilled[i], true),
    ) by {
        assert(is_segment(spilled[i]));
        lemma_segment_survives(spilled[i]);
    }
    assert forall|last: Seq<SpillRecord>| #[trigger] build_streams(segments, last) == (if last.len()
        > 0 {
        spilled.push(last)
    } else {
        spilled
    }) by {
        let read = Seq::new(segments.len(), |i: int| (opened(segments[i]@)->0).0);
        assert forall|i: int| 0 <= i < read.len() implies read[i] == spilled[i] by {
            assert(opened(segments[i]@) == Some((spilled[i], true)));
        }
        assert(read =~= spilled);
    }
}

proof fn lemma_all_records_members(
    streams: Seq<Seq<SpillRecord>>,
    count: nat,
    record: SpillRecord,
)
    requires
        count <= streams.len(),
    ensures
        all_records(streams, count).count(record) > 0 <==> exists|i: int|
            0 <= i < count && (#[trigger] streams[i]).contains(record),
    decreases count,
{
    if count > 0 {
        let last = streams[count - 1];
        lemma_all_records_members(streams, (count - 1) as nat, record);
        last.to_multiset_ensures();
        assert(last.contains(record) <==> last.to_multiset().count(record) > 0);
        if last.contains(record) {
            assert(streams[count - 1].contains(record));
        }
        if exists|i: int| 0 <= i < count && (#[trigger] streams[i]).contains(record) {
            let i = choose|i: int| 0 <= i < count && (#[trigger] streams[i]).contains(record);
            if i < count - 1 {
                assert(streams[i].contains(record));
            }
        }
    }
}

proof fn lemma_sorted_is_grouped(records: Seq<SpillRecord>)
    requires
        records_sorted(records),
    ensures
        trigrams_sorted(records),
{
    assert forall|i: int, j: int| 0 <= i < j < records.len() implies (
    #[trigger] records[i]).trigram <= (#[trigger] records[j]).trigram by {
        assert(record_at_most(records[i], records[j]));
    }
}

/// Segments that are read as they were written, and a block in order, merge into lists by trigram.
pub proof fn lemma_build_is_grouped(
    segments: Seq<Vec<u8>>,
    spilled: Seq<Seq<SpillRecord>>,
    last: Seq<SpillRecord>,
)
    requires
        segments_written(segments, spilled),
        forall|i: int| 0 <= i < spilled.len() ==> is_segment(#[trigger] spilled[i]),
        records_sorted(last),
    ensures
        trigrams_sorted(merged(build_streams(segments, last))),
        ascending_lookup(lookup_of(merged(build_streams(segments, last)))),
{
    let streams = build_streams(segments, last);
    lemma_segments_survive(segments, spilled);
    assert forall|i: int| 0 <= i < streams.len() implies trigrams_sorted(#[trigger] streams[i]) by {
        if i < spilled.len() {
            assert(is_segment(spilled[i]));
            lemma_sorted_is_grouped(spilled[i]);
        } else {
            lemma_sorted_is_grouped(last);
        }
    }
    lemma_merge_groups_trigrams(streams);
    lemma_lookup_is_ascending(merged(streams));
}

/// What a build is made of: the builder after the last path, its segments as they were read, its
/// last block in order, the lookup table of the new cache file, and the lists read from it.
pub struct Build {
    pub builder: StreamingBuilder,
    pub segments: Seq<Vec<u8>>,
    pub last: Seq<SpillRecord>,
    pub base: (u64, u64, Seq<LookupEntry>),
    pub reads: PostingReads,
}

impl Build {
    pub open spec fn records(self) -> Seq<SpillRecord> {
        merged(build_streams(self.segments, self.last))
    }

    /// The build went through, and the new lists were read.
    pub open spec fn sound(self) -> bool {
        &&& self.builder.well_formed()
        &&& segments_written(self.segments, self.builder.spilled@)
        &&& is_sorted_block(self.last, self.builder.block@)
        &&& lookup_fits(self.records())
        &&& self.base.2 == lookup_of(self.records())
        &&& reads_blob(self.reads, self.base.2, record_bytes(self.records()))
    }

    /// The index that was built.
    pub open spec fn after(self) -> SnapshotView {
        SnapshotView { base: Some(self.base), postings: Map::empty(), ..self.builder@ }
    }
}

/// The merged records are those of the posting lists of the files, grouped by trigram.
pub proof fn lemma_build_merges_all_records(run: Build)
    requires
        run.sound(),
    ensures
        trigrams_sorted(run.records()),
        ascending_lookup(run.base.2),
        forall|record: SpillRecord| #[trigger]
            run.records().contains(record) <==> in_lists(run.builder@.postings, record),
{
    let spilled = run.builder.spilled@;
    let block = run.builder.block@;
    let streams = build_streams(run.segments, run.last);
    let records = run.records();
    lemma_segments_survive(run.segments, spilled);
    lemma_merge_keeps_records(streams);
    records.to_multiset_ensures();
    run.last.to_multiset_ensures();
    block.to_multiset_ensures();
    lemma_build_is_grouped(run.segments, spilled, run.last);
    assert forall|record: SpillRecord| #[trigger] records.contains(record) <==> in_lists(
        run.builder@.postings,
        record,
    ) by {
        lemma_all_records_members(streams, streams.len(), record);
        assert(records.contains(record) <==> records.to_multiset().count(record) > 0);
        assert(run.last.contains(record) <==> run.last.to_multiset().count(record) > 0);
        assert(block.contains(record) <==> block.to_multiset().count(record) > 0);
        assert(in_lists(run.builder.lists@, record) <==> in_segments(spilled, record)
            || block.contains(record));
        if in_segments(spilled, record) {
            let i = choose|i: int| 0 <= i < spilled.len() && (#[trigger] spilled[i]).contains(
                record,
            );
            assert(streams[i].contains(record));
        }
        if run.last.contains(record) {
            assert(streams[spilled.len() as int].contains(record));
        }
        if exists|i: int| 0 <= i < streams.len() && (#[trigger] streams[i]).contains(record) {
            let i = choose|i: int| 0 <= i < streams.len() && (#[trigger] streams[i]).contains(
                record,
            );
            if i < spilled.len() {
                assert(spilled[i].contains(record));
            } else {
                assert(run.last.contains(record));
            }
        }
    }
}

/// The list of a trigram in the new cache file holds the postings that it would have had in memory.
pub proof fn lemma_build_lists_agree(run: Build, trigram: u32)
    requires
        run.sound(),
    ensures
        forall|posting: Posting|
            run.reads.base_list(run.after().base, trigram).contains(posting)
                <==> #[trigger] run.builder@.list(trigram).contains(posting),
{
    let view = run.builder@;
    let in_memory = view.list(trigram);
    let on_disk = run.reads.base_list(run.after().base, trigram);
    lemma_build_merges_all_records(run);
    assert forall|posting: Posting| on_disk.contains(posting) <==> #[trigger] in_memory.contains(
        posting,
    ) by {
        let record = SpillRecord {
            trigram,
            file_id: posting.file_id,
            next_mask: posting.next_mask,
            loc_mask: posting.loc_mask,
        };
        lemma_new_list(run.reads, run.base, run.records(), trigram, posting);
        assert(record_posting(record) == posting);
        assert(run.records().contains(record) <==> in_lists(view.postings, record));
    }
}

/// A file has the same postings in the index that was built as it would have had in memory.
pub proof fn lemma_build_keeps_postings(
    run: Build,
    reads: PostingReads,
    trigram: u32,
    filter: Option<PostingFilter>,
    file_id: u32,
)
    requires
        run.sound(),
    ensures
        run.builder@.has_posting(reads, trigram, filter, file_id) == run.after().has_posting(
            run.reads,
            trigram,
            filter,
            file_id,
        ),
{
    let view = run.builder@;
    let after = run.after();
    let in_memory = view.list(trigram);
    let on_disk = run.reads.base_list(after.base, trigram);
    lemma_build_lists_agree(run, trigram);
    lemma_list_matches(in_memory, filter, file_id);
    lemma_list_matches(on_disk, filter, file_id);
    assert(after.list(trigram) =~= Seq::<Posting>::empty());
    assert(reads.base_list(view.base, trigram) =~= Seq::<Posting>::empty());
    if list_matches(on_disk, filter, file_id) {
        let p = choose|p: Posting| #[trigger]
            on_disk.contains(p) && p.file_id == file_id && passes_filter(p, filter);
        assert(in_memory.contains(p));
    }
    if list_matches(in_memory, filter, file_id) {
        let p = choose|p: Posting| #[trigger]
            in_memory.contains(p) && p.file_id == file_id && passes_filter(p, filter);
        assert(on_disk.contains(p));
    }
}

/// Spilling changes no answer: a file is a candidate of a query in the index that was built if and
/// only if it is one in the index that the same paths make up in memory.
pub proof fn lemma_build_keeps_candidates(
    run: Build,
    reads: PostingReads,
    query: RegexQuery,
    file_id: u32,
)
    requires
        run.sound(),
    ensures
        run.builder@.is_candidate(reads, query, file_id) == run.after().is_candidate(
            run.reads,
            query,
            file_id,
        ),
{
    let view = run.builder@;
    let after = run.after();
    assert forall|t: u32, f: Option<PostingFilter>| #[trigger]
        view.has_posting(reads, t, f, file_id) == after.has_posting(run.reads, t, f, file_id) by {
        lemma_build_keeps_postings(run, reads, t, f, file_id);
    }
    assert(view.listed(file_id) == after.listed(file_id)) by {
        assert(view.ids == after.ids);
    }
    lemma_same_postings_same_candidates(
        view,
        reads,
        file_id,
        after,
        run.reads,
        file_id,
        query,
    );
}

// ---------------------------------------------------------------------------------------------
// Two ways to build
// ---------------------------------------------------------------------------------------------

/// The index of a root without files.
pub open spec fn fresh_view(project_root: PathKey) -> SnapshotView {
    SnapshotView {
        base: None,
        postings: Map::empty(),
        superseded: Set::empty(),
        files: Seq::empty(),
        ids: Map::empty(),
        ready: false,
        project_root,
        file_trigram_count: Seq::empty(),
        unindexed: Set::empty(),
    }
}

proof fn lemma_ingested_lists_are_not_empty(
    project_root: PathKey,
    paths: Seq<PathKey>,
    files: Seq<PreparedView>,
    count: int,
)
    ensures
        ({
            let view = ingested(fresh_view(project_root), paths, files, count);
            forall|t: u32| #[trigger] view.postings.contains_key(t) ==> view.postings[t].len() > 0
        }),
    decreases count,
{
    if count > 0 {
        lemma_ingested_lists_are_not_empty(project_root, paths, files, count - 1);
    }
}

/// A build that spills its postings and one that holds them in memory come to the same index, if the
/// same files are put into them in the same order: the same files under the same ids, the same paths,
/// trigram counts and files without postings, as many files and trigrams, and the same candidates of
/// every query.
pub proof fn lemma_both_builds_agree(
    run: Build,
    project_root: PathKey,
    paths: Seq<PathKey>,
    files: Seq<PreparedView>,
)
    requires
        run.sound(),
        paths.len() == files.len(),
        run.builder@ == ingested(fresh_view(project_root), paths, files, paths.len() as int),
    ensures
        ({
            let serial = ingested(fresh_view(project_root), paths, files, paths.len() as int);
            let streamed = run.after();
            &&& streamed.files == serial.files
            &&& files_in_use(streamed.files) == files_in_use(serial.files)
            &&& streamed.ids == serial.ids
            &&& streamed.file_trigram_count == serial.file_trigram_count
            &&& streamed.unindexed == serial.unindexed
            &&& streamed.superseded == serial.superseded
            &&& streamed.project_root == serial.project_root
            &&& streamed.ready == serial.ready
            &&& streamed.trigram_total() == serial.trigram_total()
            &&& forall|reads: PostingReads, query: RegexQuery, id: u32| #[trigger]
                serial.is_candidate(reads, query, id) == streamed.is_candidate(
                    run.reads,
                    query,
                    id,
                )
        }),
{
    let serial = ingested(fresh_view(project_root), paths, files, paths.len() as int);
    let streamed = run.after();
    let records = run.records();
    lemma_build_merges_all_records(run);
    lemma_ingested_lists_are_not_empty(project_root, paths, files, paths.len() as int);
    assert forall|k: int| 0 <= k < records.len() implies serial.new_trigrams().contains(
        (#[trigger] records[k]).trigram,
    ) by {
        assert(records.contains(records[k]));
        assert(in_lists(serial.postings, records[k]));
    }
    assert forall|t: u32| #[trigger] serial.new_trigrams().contains(t) implies exists|k: int|
        0 <= k < records.len() && (#[trigger] records[k]).trigram == t by {
        assert(serial.postings.contains_key(t));
        let posting = serial.postings[t][0];
        let record = SpillRecord {
            trigram: t,
            file_id: posting.file_id,
            next_mask: posting.next_mask,
            loc_mask: posting.loc_mask,
        };
        assert(record_posting(record) == posting);
        assert(in_lists(serial.postings, record));
        assert(records.contains(record));
        let k = records.index_of(record);
        assert(records[k].trigram == t);
    }
    lemma_lookup_counts_trigrams(records, serial.new_trigrams());
    assert(streamed.new_trigrams() =~= Set::<u32>::empty());
    assert forall|reads: PostingReads, query: RegexQuery, id: u32| #[trigger]
        serial.is_candidate(reads, query, id) == streamed.is_candidate(run.reads, query, id) by {
        lemma_build_keeps_candidates(run, reads, query, id);
    }
}

/// Putting files into an index one by one, each by an update of its path, comes to what taking them
/// in together comes to, if no path stands there before, none comes twice, and none is the canonical
/// form of another.
pub proof fn lemma_updates_come_to_ingestion(
    view: SnapshotView,
    base_file_count: u32,
    paths: Seq<PathKey>,
    inputs: Seq<StepInput>,
    count: int,
)
    requires
        paths.len() == inputs.len(),
        0 <= count <= paths.len(),
        forall|i: int|
            0 <= i < paths.len() ==> !view.ids.contains_key(#[trigger] paths[i])
                && !view.ids.contains_key(inputs[i].canonical),
        forall|i: int, j: int|
            0 <= i < j < paths.len() ==> #[trigger] paths[i] != #[trigger] paths[j],
        forall|i: int, j: int|
            0 <= i < paths.len() && 0 <= j < paths.len() && i != j ==> #[trigger] paths[i] != (
            #[trigger] inputs[j]).canonical,
    ensures
        ({
            let steps = Seq::new(paths.len(), |i: int| StepView::Update(paths[i]));
            let files = Seq::new(paths.len(), |i: int| inputs[i].file);
            let after = after_steps(view, base_file_count, steps, inputs, count);
            &&& after == ingested(view, paths, files, count)
            &&& forall|p: PathKey| #[trigger]
                after.ids.contains_key(p) ==> view.ids.contains_key(p) || exists|i: int|
                    0 <= i < count && #[trigger] paths[i] == p
        }),
    decreases count,
{
    if count > 0 {
        lemma_updates_come_to_ingestion(view, base_file_count, paths, inputs, count - 1);
        let steps = Seq::new(paths.len(), |i: int| StepView::Update(paths[i]));
        let before = after_steps(view, base_file_count, steps, inputs, count - 1);
        let after = after_steps(view, base_file_count, steps, inputs, count);
        let path = paths[count - 1];
        let canonical = inputs[count - 1].canonical;
        assert(!before.ids.contains_key(path)) by {
            if before.ids.contains_key(path) {
                let i = choose|i: int| 0 <= i < count - 1 && #[trigger] paths[i] == path;
                assert(paths[i] != paths[count - 1]);
            }
        }
        assert(!before.ids.contains_key(canonical)) by {
            if before.ids.contains_key(canonical) {
                let i = choose|i: int| 0 <= i < count - 1 && #[trigger] paths[i] == canonical;
                assert(paths[i] != inputs[count - 1].canonical);
            }
        }
        assert(after == added_as(before, path, inputs[count - 1].file));
        assert forall|p: PathKey| #[trigger] after.ids.contains_key(p) implies view.ids.contains_key(
            p,
        ) || exists|i: int| 0 <= i < count && #[trigger] paths[i] == p by {
            if p == path {
                assert(paths[count - 1] == p);
            } else {
                assert(before.ids.contains_key(p));
                if !view.ids.contains_key(p) {
                    let i = choose|i: int| 0 <= i < count - 1 && #[trigger] paths[i] == p;
                    assert(paths[i] == p);
                }
            }
        }
    }
}

/// Segments that are merged as they are read piece by piece give what they give when they are read as
/// a whole, if the last block was written to a segment too.
pub proof fn lemma_pieces_come_to_the_whole(segments: Seq<Vec<u8>>)
    requires
        forall|i: int| 0 <= i < segments.len() ==> open_error((#[trigger] segments[i])@) is None,
    ensures
        build_streams(segments, Seq::empty()) == whole_streams(byte_views(segments)),
        segments_sound(segments) <==> all_whole(byte_views(segments)),
{
    let views = byte_views(segments);
    assert forall|i: int| 0 <= i < segments.len() implies opened((#[trigger] segments[i])@) == Some(
        whole_segment(views[i]),
    ) by {
        assert(open_error(segments[i]@) is None);
    }
    assert(build_streams(segments, Seq::empty()) =~= whole_streams(views));
    if segments_sound(segments) {
        assert forall|i: int| 0 <= i < views.len() implies whole_segment(#[trigger] views[i]).1 by {
            assert(opened(segments[i]@) == Some(whole_segment(views[i])));
        }
    }
    if all_whole(views) {
        assert forall|i: int| 0 <= i < segments.len() implies (opened(
            (#[trigger] segments[i])@,
        ) matches Some(read) && read.1) by {
            assert(whole_segment(views[i]).1);
        }
    }
}

/// The segments of a build, read piece by piece as they were written, are never refused if their lists
/// fit, and come to a cache file of the records that were written.
pub proof fn lemma_builds_in_pieces_go_well(
    segments: Seq<Vec<u8>>,
    spilled: Seq<Seq<SpillRecord>>,
    run: StreamRun,
)
    requires
        segments_written(segments, spilled),
        forall|i: int| 0 <= i < spilled.len() ==> is_segment(#[trigger] spilled[i]),
        lookup_fits(merged(spilled)),
        run.is_of(byte_views(segments)),
    ensures
        records_of(byte_views(segments)) == merged(spilled),
        forall|k: int|
            0 <= k < run.events.len() ==> #[trigger] run.goes_well(k, byte_views(segments)),
{
    lemma_segments_survive(segments, spilled);
    assert forall|i: int| 0 <= i < segments.len() implies open_error(
        (#[trigger] segments[i])@,
    ) is None by {
        assert(opened(segments[i]@) is Some);
    }
    lemma_pieces_come_to_the_whole(segments);
    assert(build_streams(segments, Seq::empty()) == spilled);
    lemma_sound_segments_are_written(run, byte_views(segments), run.events.len() as int);
}

} // verus!
