//! Whole indexes, over projects that are held in memory.

use std::collections::BTreeMap;
use std::collections::HashMap;
use std::collections::HashSet;

use search_index::builder::StreamingBuilder;
use search_index::cache_load::load_index;
use search_index::cache_load::IgnoreRulesLoadPolicy;
use search_index::cache_read::parse_cache;
use search_index::cache_stream::CacheStep;
use search_index::cache_stream::CacheStream;
use search_index::file_entry::SearchFileMetadata;
use search_index::file_entry::Timestamp;
use search_index::filters::build_path_filters;
use search_index::filters::PathFilters;
use search_index::format::counts_magic_bytes;
use search_index::format::index_magic_bytes;
use search_index::format::lookup_magic_bytes;
use search_index::format::CacheWriteError;
use search_index::format::CacheWritePlan;
use search_index::format::CACHE_MAGIC;
use search_index::index::SearchIndex;
use search_index::index::DEFAULT_MAX_FILE_SIZE;
use search_index::ingest::prepare_search_path;
use search_index::ingest::FileProbe;
use search_index::ingest::PreparedSearchPath;
use search_index::lexical::query_trigrams_from_tokens;
use search_index::lexical::LexicalEntry;
use search_index::path::relative_to_root;
use search_index::path::SearchPath;
use search_index::path_text::parse_path;
use search_index::path_text::PathProbe;
use search_index::postings::posting_matches_filter;
use search_index::postings::BasePostings;
use search_index::postings::PostingReads;
use search_index::query::CompiledPattern;
use search_index::query::LiteralSearch;
use search_index::query::RegexQuery;
use search_index::records::RecordError;
use search_index::records::INDEX_VERSION;
use search_index::refresh::judge_file;
use search_index::refresh::parse_git_diff;
use search_index::refresh::path_set;
use search_index::refresh::stat_decides;
use search_index::refresh::steps_for_change;
use search_index::refresh::DiffChange;
use search_index::refresh::FreshnessVerdict;
use search_index::refresh::RefreshPlan;
use search_index::refresh::RefreshStep;
use search_index::refresh::VerifyStrategy;
use search_index::search::GrepResult;
use search_index::search::GrepScan;
use search_index::snapshot::SearchIndexSnapshot;
use search_index::trigram::mask_for_next_char;
use search_index::trigram::mask_for_position;
use search_index::trigram::pack_trigram;
use search_index::trigram::PostingFilter;

const ROOT: &str = "/work/project";

fn path(text: &str) -> SearchPath {
    parse_path(text.as_bytes())
}

fn text(path: &SearchPath) -> String {
    String::from_utf8(path.text()).unwrap()
}

fn texts(paths: &[SearchPath]) -> Vec<String> {
    paths.iter().map(text).collect()
}

fn below(name: &str) -> SearchPath {
    path(ROOT).join(&path(name))
}

/// The files of a project, by their names below the root.
struct Disk {
    files: BTreeMap<String, (Vec<u8>, i64)>,
}

impl Disk {
    fn new(files: &[(&str, &str)]) -> Disk {
        let mut disk = Disk { files: BTreeMap::new() };
        for (name, content) in files {
            disk.write(name, content.as_bytes(), 1_700_000_000);
        }
        disk
    }

    fn write(&mut self, name: &str, content: &[u8], secs: i64) {
        self.files.insert(name.to_string(), (content.to_vec(), secs));
    }

    fn remove(&mut self, name: &str) {
        self.files.remove(name);
    }

    fn probe(&self, path: &SearchPath) -> FileProbe {
        let name = text(&relative_to_root(&self::path(ROOT), path));
        match self.files.get(&name) {
            Some((content, secs)) => FileProbe {
                metadata: Some(SearchFileMetadata {
                    size: content.len() as u64,
                    modified: Timestamp { secs: *secs, nanos: 0 },
                }),
                preview: Some(content.iter().take(8192).copied().collect()),
                content: Some(content.clone()),
            },
            None => FileProbe { metadata: None, preview: None, content: None },
        }
    }

    /// What a walk finds.
    fn paths(&self) -> Vec<SearchPath> {
        self.files.keys().map(|name| below(name)).collect()
    }
}

/// An index with the cache file that its posting lists stand in.
struct Stored {
    index: SearchIndex,
    cache: Vec<u8>,
}

impl Stored {
    fn snapshot(&self) -> SearchIndexSnapshot {
        self.index.snapshot()
    }

    fn reads(&self) -> PostingReads {
        let mut reads = PostingReads::new();
        for request in self.index.current.all_read_requests() {
            let start = request.offset as usize;
            reads.add_list(request.trigram, self.cache[start..start + request.len].to_vec());
        }
        reads
    }

    fn postings(&self, trigram: u32) -> Vec<u32> {
        self.index.current.postings_for_trigram(&self.reads(), trigram, None)
    }

    fn id(&self, name: &str) -> Option<u32> {
        self.index.current.path_to_id.get(&below(name))
    }

    fn update(&mut self, disk: &Disk, name: &str) {
        let path = below(name);
        self.index.update_file(&path, &path, &disk.probe(&path));
    }

    fn write(&mut self, head: Option<&str>) {
        let plan = CacheWritePlan::from_index(
            &self.index,
            head.map(|head| head.to_string()),
            "rules".to_string(),
        );
        let canonical = vec![None; plan.files.len()];
        let encoded = self.index.encode_cache(&plan, &canonical, self.reads()).unwrap();
        self.cache = encoded.bytes;
        self.index.install_cache(plan, encoded.base);
    }

    fn grep(&self, disk: &Disk, pattern: &CompiledPattern, scope: &str, max: usize) -> GrepResult {
        let mut contents = HashMap::new();
        for (slot, file) in self.index.current.files.iter().enumerate() {
            if let Some(content) = disk.probe(&file.path).content {
                contents.insert(slot as u32, content);
            }
        }
        self.index.grep(
            Some(pattern),
            &self.reads(),
            &PathFilters::none(),
            &path(scope),
            max,
            &contents,
        )
    }
}

fn literal(needle: &str) -> CompiledPattern {
    CompiledPattern::Literal(LiteralSearch {
        needle: needle.as_bytes().to_vec(),
        case_insensitive_ascii: false,
    })
}

fn build_with_limit(disk: &Disk, max_file_size: u64) -> Stored {
    let mut builder = StreamingBuilder::new(path(ROOT), max_file_size, "rules".to_string());
    let mut segments = Vec::new();
    for (count, path) in disk.paths().iter().enumerate() {
        let prepared = prepare_search_path(&disk.probe(path), max_file_size);
        builder.add(path, &prepared).unwrap();
        if count % 3 == 2 && builder.block.len() > 0 {
            segments.push(builder.flush().unwrap());
        }
    }
    let plan = builder.plan(None);
    let canonical = vec![None; plan.files.len()];
    let encoded = builder.encode(&plan, &canonical, segments).unwrap();
    let mut index = builder.into_index(encoded.base, None).unwrap();
    index.set_ready(true);
    Stored { index, cache: encoded.bytes }
}

fn build(disk: &Disk) -> Stored {
    build_with_limit(disk, DEFAULT_MAX_FILE_SIZE)
}

fn load(cache: &[u8]) -> Option<Stored> {
    let parsed = parse_cache(cache)?;
    let probes: Vec<PathProbe> = parsed
        .files
        .iter()
        .map(|_| PathProbe { canonical_path: None, canonical_root: None })
        .collect();
    let (index, _) = load_index(
        parsed,
        &path(ROOT),
        &probes,
        "rules".to_string(),
        IgnoreRulesLoadPolicy::Strict,
    )?;
    Some(Stored { index, cache: cache.to_vec() })
}

/// Brings an index up to date with the disk.
fn verify(stored: &mut Stored, disk: &Disk) -> bool {
    let current = disk.paths();
    let found = path_set(&current);
    let mut verdicts = Vec::new();
    for slot in 0..stored.index.current.files.len() {
        if !stored.index.needs_check(slot, &found) {
            verdicts.push(FreshnessVerdict::HotFresh);
            continue;
        }
        let file = &stored.index.current.files[slot];
        let probe = disk.probe(&file.path);
        verdicts.push(judge_file(
            file,
            probe.metadata,
            VerifyStrategy::Strict,
            &probe.content,
        ));
    }
    let (steps, mut changed) = stored.index.check_files(&found, &verdicts);
    for step in &steps {
        run_step(stored, disk, step);
    }
    let mut from = 0;
    while let Some(at) = stored.index.next_missing(&current, from) {
        stored.index.update_file(&current[at], &current[at], &disk.probe(&current[at]));
        changed = true;
        from = at + 1;
    }
    changed
}

fn run_step(stored: &mut Stored, disk: &Disk, step: &RefreshStep) {
    match step {
        RefreshStep::Remove(path) => stored.index.remove_file(path, path),
        RefreshStep::Update(path) => stored.index.update_file(path, path, &disk.probe(path)),
    }
}

fn rebuild_or_refresh(
    disk: &Disk,
    max_file_size: u64,
    head: Option<&str>,
    mut baseline: Stored,
    diff: Option<&str>,
) -> Stored {
    let head = head.map(|head| head.to_string());
    match baseline.index.begin_refresh(path(ROOT), max_file_size, "rules", &head) {
        RefreshPlan::Build => build_with_limit(disk, max_file_size),
        RefreshPlan::Verify => {
            verify(&mut baseline, disk);
            baseline.index.finish_refresh(head);
            baseline
        }
        RefreshPlan::ApplyDiff { .. } => {
            let free = PathProbe { canonical_path: None, canonical_root: None };
            let changes = parse_git_diff(diff.unwrap().as_bytes().to_vec()).unwrap();
            for change in &changes {
                let exists = match change {
                    DiffChange::Single { path, .. } => {
                        disk.files.contains_key(&text(path))
                    }
                    DiffChange::Rename { .. } => true,
                };
                for step in steps_for_change(&path(ROOT), change, &free, &free, exists) {
                    run_step(&mut baseline, disk, &step);
                }
            }
            verify(&mut baseline, disk);
            baseline.index.finish_refresh(head);
            baseline
        }
    }
}

// -------------------------------------------------------------------------------------------
// Postings on disk and since
// -------------------------------------------------------------------------------------------

fn lexical_rank_mixed_storage_fixture() -> Stored {
    let mut disk = Disk::new(&[]);
    for index in 0..205 {
        disk.write(
            &format!("file_{index:03}.txt"),
            format!("abcdefghij sharedalpha marker_{index}").as_bytes(),
            1_700_000_000,
        );
    }
    let mut built = build(&disk);
    built.write(None);
    let mut stored = load(&built.cache).expect("load base index");

    let replaced = below("file_000.txt");
    stored.index.remove_file(&replaced, &replaced);
    stored.index.index_file(
        &replaced,
        &replaced,
        b"abcdefghij sharedalpha replacement_delta",
        None,
    );
    let removed = below("file_001.txt");
    stored.index.remove_file(&removed, &removed);
    let added = below("added_delta.txt");
    stored.index.index_file(&added, &added, b"abcdefghij sharedalpha added_delta", None);

    assert!(stored.index.current.base.is_some());
    assert!(!stored.index.current.delta.postings.is_empty());
    assert!(!stored.index.current.delta.superseded.is_empty());
    stored
}

fn postings_for_trigram_materialized_reference(
    stored: &Stored,
    trigram: u32,
    filter: Option<PostingFilter>,
) -> Vec<u32> {
    let snapshot = &stored.index.current;
    let mut matches = Vec::new();
    for posting in stored.reads().postings_on_disk(&snapshot.base, trigram) {
        if snapshot.delta.superseded.contains(&posting.file_id) {
            continue;
        }
        if !posting_matches_filter(&posting, filter) {
            continue;
        }
        if snapshot.is_active_file(posting.file_id) {
            matches.push(posting.file_id);
        }
    }
    if let Some(postings) = snapshot.delta.postings.get(&trigram) {
        for posting in postings {
            if !posting_matches_filter(posting, filter) {
                continue;
            }
            if snapshot.is_active_file(posting.file_id) {
                matches.push(posting.file_id);
            }
        }
    }
    matches.sort_unstable();
    matches.dedup();
    matches
}

#[test]
fn direct_base_decode_matches_materialized_reference_for_all_storage_and_filters() {
    let stored = lexical_rank_mixed_storage_fixture();
    let snapshot = stored.snapshot();
    let reads = stored.reads();
    let base_only = pack_trigram(b'm', b'a', b'r');
    let base_and_delta = pack_trigram(b'a', b'b', b'c');

    assert!(snapshot.delta.postings.get(&base_only).is_none());
    assert!(snapshot.delta.postings.contains_key(&base_and_delta));
    assert!(!snapshot.delta.superseded.is_empty());

    let filters = [
        None,
        Some(PostingFilter { next_mask: 0, loc_mask: 0 }),
        Some(PostingFilter { next_mask: mask_for_next_char(b'd'), loc_mask: 0 }),
        Some(PostingFilter { next_mask: mask_for_next_char(b'z'), loc_mask: 0 }),
        Some(PostingFilter { next_mask: 0, loc_mask: mask_for_position(0) }),
        Some(PostingFilter {
            next_mask: mask_for_next_char(b'd'),
            loc_mask: mask_for_position(17),
        }),
        Some(PostingFilter {
            next_mask: mask_for_next_char(b'z'),
            loc_mask: mask_for_position(17),
        }),
    ];
    for trigram in [base_only, base_and_delta] {
        for filter in filters {
            let expected = postings_for_trigram_materialized_reference(&stored, trigram, filter);
            let actual = snapshot.postings_for_trigram(&reads, trigram, filter);
            assert_eq!(actual, expected, "trigram={trigram:#08x}, filter={filter:?}");
            assert!(actual
                .iter()
                .all(|file_id| !snapshot.delta.superseded.contains(file_id)));
        }
    }

    let unfiltered = snapshot.postings_for_trigram(&reads, base_and_delta, None);
    assert_eq!(unfiltered.len(), 205);
    let loc_only = snapshot.postings_for_trigram(
        &reads,
        base_and_delta,
        Some(PostingFilter { next_mask: 0, loc_mask: mask_for_position(31) }),
    );
    assert_eq!(loc_only, unfiltered);
}

#[test]
fn base_delta_readd_masks_base_and_keeps_postings_sorted() {
    let disk = Disk::new(&[("a.txt", "abc old"), ("b.txt", "abc base")]);
    let mut built = build(&disk);
    built.write(None);
    let mut stored = load(&built.cache).expect("load base");
    assert_eq!(stored.index.base_file_count, 2);

    let old_a_id = stored.id("a.txt").expect("first a id");
    let b_id = stored.id("b.txt").expect("first b id");
    let a = below("a.txt");
    stored.index.remove_file(&a, &a);
    stored.index.index_file(&a, &a, b"abc new", None);
    let new_id = stored.id("a.txt").expect("re-added file id");
    assert!(new_id >= stored.index.base_file_count);
    let ids = stored.postings(pack_trigram(b'a', b'b', b'c'));
    assert_eq!(ids, {
        let mut expected = vec![b_id, new_id];
        expected.sort_unstable();
        expected
    });
    assert!(!ids.contains(&old_a_id));
}

#[test]
fn snapshot_started_before_edit_keeps_coherent_pre_edit_postings() {
    let mut disk = Disk::new(&[("source.txt", "old_generation marker")]);
    let mut built = build(&disk);
    built.write(None);
    let mut stored = load(&built.cache).expect("load base index");
    stored.index.set_ready(true);
    let old_file_id = stored.id("source.txt").expect("old file id");
    let before_reads = stored.reads();
    let before_edit = stored.snapshot();

    disk.write("source.txt", b"new_generation marker", 1_700_000_001);
    stored.update(&disk, "source.txt");
    let after_edit = stored.snapshot();
    let after_reads = stored.reads();
    let new_file_id = after_edit.path_to_id.get(&below("source.txt")).expect("new file id");
    assert!(!before_edit.delta.superseded.contains(&old_file_id));
    assert!(after_edit.delta.superseded.contains(&old_file_id));

    let old_trigram = pack_trigram(b'o', b'l', b'd');
    let new_trigram = pack_trigram(b'n', b'e', b'w');
    assert_eq!(
        before_edit.postings_for_trigram(&before_reads, old_trigram, None),
        vec![old_file_id]
    );
    assert!(before_edit.postings_for_trigram(&before_reads, new_trigram, None).is_empty());
    assert!(after_edit.postings_for_trigram(&after_reads, old_trigram, None).is_empty());
    assert_eq!(
        after_edit.postings_for_trigram(&after_reads, new_trigram, None),
        vec![new_file_id]
    );

    let dirty = stored.grep(&disk, &literal("new_generation"), ROOT, 100);
    let reference = build(&disk).grep(&disk, &literal("new_generation"), ROOT, 100);
    assert_eq!(format!("{:?}", dirty.matches), format!("{:?}", reference.matches));
    assert_eq!(dirty.total_matches, reference.total_matches);
    assert_eq!(dirty.total_matches, 1);
}

// -------------------------------------------------------------------------------------------
// Lexical ranking
// -------------------------------------------------------------------------------------------

fn score(hits: u32, trigram_count: u32) -> f32 {
    hits as f32 / (1.0 + (trigram_count as f32).ln())
}

fn rank_lines(mut entries: Vec<(String, u32, u32)>, max_files: usize) -> Vec<String> {
    entries.sort_by(|a, b| score(b.1, b.2).partial_cmp(&score(a.1, a.2)).unwrap());
    entries.truncate(max_files);
    entries.iter().map(|(path, hits, count)| format!("{path} {hits} {count}")).collect()
}

fn entry_lines(entries: &[LexicalEntry]) -> Vec<(String, u32, u32)> {
    entries
        .iter()
        .map(|entry| (text(&entry.path), entry.hits, entry.trigram_count))
        .collect()
}

/// Hits counted list by list, for every candidate by itself.
fn reference_entries(
    stored: &Stored,
    query: &[u32],
    candidates: &[u32],
    cap: usize,
    accepted: &dyn Fn(&SearchPath) -> bool,
) -> Vec<(String, u32, u32)> {
    let snapshot = &stored.index.current;
    let mut lines = Vec::new();
    let mut scored = 0;
    let lists: Vec<Vec<u32>> = query.iter().map(|trigram| stored.postings(*trigram)).collect();
    for id in candidates {
        let file = &snapshot.files[*id as usize];
        if !accepted(&file.path) {
            continue;
        }
        if scored == cap {
            break;
        }
        scored += 1;
        let mut hits = 0u32;
        for postings in &lists {
            if postings.contains(id) {
                hits += 1;
            }
        }
        if hits > 0 {
            let count = snapshot.file_trigram_count[*id as usize].max(1);
            lines.push((text(&file.path), hits, count));
        }
    }
    lines
}

fn assert_rank_matches_reference(
    stored: &Stored,
    query: &[u32],
    accepted: &dyn Fn(&SearchPath) -> bool,
    max_files: usize,
) -> bool {
    let snapshot = stored.snapshot();
    let reads = stored.reads();
    let plan = snapshot.lexical_candidates(&query.to_vec(), &reads).expect("a plan");
    let flags: Vec<bool> = plan
        .candidates
        .iter()
        .map(|id| accepted(&snapshot.files[*id as usize].path))
        .collect();
    let entries = snapshot.lexical_entries(&query.to_vec(), &plan, &flags);
    let actual = rank_lines(entry_lines(&entries), max_files);
    let expected = rank_lines(
        reference_entries(stored, query, &plan.candidates, plan.candidate_cap, accepted),
        max_files,
    );
    assert_eq!(actual, expected);
    assert!(!actual.is_empty());
    plan.engine_capped
}

#[test]
fn lexical_rank_cached_postings_match_reference_for_base_delta_and_superseded_files() {
    let stored = lexical_rank_mixed_storage_fixture();
    let all = |_: &SearchPath| true;
    let long_query = query_trigrams_from_tokens(&["abcdefghij"]);
    assert!(long_query.len() > 3);
    assert!(assert_rank_matches_reference(&stored, &long_query, &all, 1_000));

    let short_query = query_trigrams_from_tokens(&["abc"]);
    assert_eq!(short_query.len(), 1);
    assert_rank_matches_reference(&stored, &short_query, &all, 100);

    let mixed_query = query_trigrams_from_tokens(&["sharedalpha", "absentzzz"]);
    let production_only = |path: &SearchPath| !text(path).ends_with("file_002.txt");
    assert_rank_matches_reference(&stored, &mixed_query, &production_only, 25);

    let mut duplicate_query = query_trigrams_from_tokens(&["abcdefghij"]);
    duplicate_query.push(duplicate_query[0]);
    assert_rank_matches_reference(&stored, &duplicate_query, &all, 40);
}

#[test]
fn lexical_rank_reads_each_distinct_query_posting_list_once() {
    let stored = lexical_rank_mixed_storage_fixture();
    let mut query = query_trigrams_from_tokens(&["abcdefghij", "sharedalpha"]);
    query.push(query[0]);
    let distinct_trigrams = query.iter().copied().collect::<HashSet<_>>().len();

    let snapshot = stored.snapshot();
    let plan = snapshot.lexical_candidates(&query, &stored.reads()).expect("a plan");
    let flags = vec![true; plan.candidates.len()];
    assert!(snapshot.lexical_entries(&query, &plan, &flags).len() > 1);
    assert_eq!(
        plan.postings.len(),
        distinct_trigrams,
        "candidate discovery and scoring must share query-local posting lists"
    );
}

// -------------------------------------------------------------------------------------------
// Cache files
// -------------------------------------------------------------------------------------------

#[test]
fn write_to_disk_compacts_base_and_delta() {
    let mut disk = Disk::new(&[("src.txt", "abcdef")]);
    let mut stored = build(&disk);
    stored.write(None);
    disk.write("src.txt", b"abcxyz", 1_700_000_001);
    stored.update(&disk, "src.txt");
    assert!(!stored.index.current.delta.postings.is_empty());
    assert!(stored.index.has_pending_disk_changes());
    stored.write(None);
    assert!(stored.index.current.delta.postings.is_empty());
    assert!(stored.index.current.delta.superseded.is_empty());
    assert!(!stored.index.has_pending_disk_changes());
    assert_eq!(stored.postings(pack_trigram(b'a', b'b', b'c')), vec![0]);
    assert!(stored.postings(pack_trigram(b'd', b'e', b'f')).is_empty());
}

fn u32_in(bytes: &[u8], at: usize) -> u32 {
    u32::from_le_bytes([bytes[at], bytes[at + 1], bytes[at + 2], bytes[at + 3]])
}

fn u64_in(bytes: &[u8], at: usize) -> u64 {
    u64::from(u32_in(bytes, at)) | (u64::from(u32_in(bytes, at + 4)) << 32)
}

/// Where the trigram counts stand in a cache file.
fn file_trigram_count_extension_range(bytes: &[u8]) -> Option<(usize, usize)> {
    let body_end = 16 + u64_in(bytes, 8) as usize - 4;
    let mut at = 16;
    if bytes[at..at + 8] != index_magic_bytes()[..] {
        return None;
    }
    at += 12;
    let texts = u32_in(bytes, at) as usize + u32_in(bytes, at + 4) as usize
        + u32_in(bytes, at + 8) as usize;
    at += 12 + 8;
    let file_count = u32_in(bytes, at);
    at += 4 + texts;
    for _ in 0..file_count {
        let path_len = u32_in(bytes, at + 1) as usize;
        at += 1 + 4 + 8 + 8 + 4 + 32 + path_len;
    }
    let start = at + 8 + u64_in(bytes, at) as usize;
    if start + 16 > body_end || bytes[start..start + 8] != counts_magic_bytes()[..] {
        return None;
    }
    let end = start + 16 + 4 * u32_in(bytes, start + 12) as usize;
    if end <= body_end {
        Some((start, end))
    } else {
        None
    }
}

fn strip_file_trigram_count_extension(bytes: &mut Vec<u8>) {
    let (start, end) = file_trigram_count_extension_range(bytes).expect("file trigram counts");
    bytes.drain(start..end);
    let total = u64_in(bytes, 8) - (end - start) as u64;
    bytes[8..16].copy_from_slice(&total.to_le_bytes());
    let checksum_pos = 16 + total as usize - 4;
    let checksum = crc32fast::hash(&bytes[16..checksum_pos]);
    bytes[checksum_pos..checksum_pos + 4].copy_from_slice(&checksum.to_le_bytes());
}

#[test]
fn legacy_cache_without_file_trigram_count_migrates_streaming_counts() {
    let disk = Disk::new(&[("src.txt", "abcdef")]);
    let mut stored = build(&disk);
    stored.write(None);
    let mut bytes = stored.cache.clone();
    strip_file_trigram_count_extension(&mut bytes);
    assert!(file_trigram_count_extension_range(&bytes).is_none());

    let parsed = parse_cache(&bytes).expect("parse legacy cache");
    assert!(parsed.migrated_counts);
    let mut loaded = load(&bytes).expect("load legacy cache");
    assert_eq!(loaded.index.current.file_trigram_count, vec![4]);
    assert!(loaded.index.current.delta.postings.is_empty());
    loaded.write(None);
    assert!(file_trigram_count_extension_range(&loaded.cache).is_some());
}

#[test]
fn compaction_flags_buffer_paths_while_running() {
    let disk = Disk::new(&[("src.txt", "abcdef")]);
    let mut stored = Stored { index: SearchIndex::new(), cache: Vec::new() };
    stored.index.current.project_root = path(ROOT);
    stored.index.compaction.running = true;
    stored.update(&disk, "src.txt");
    let state = &stored.index.compaction;
    assert!(state.requested_again || !stored.index.current.delta.postings.is_empty());
    assert!(texts(&state.buffered_paths).contains(&text(&below("src.txt"))));
}

#[test]
fn disk_round_trip_preserves_postings_and_files() {
    let disk = Disk::new(&[("src.txt", "abcdef")]);
    let mut stored = build(&disk);
    stored.write(Some("deadbeef"));

    let loaded = load(&stored.cache).expect("load index from disk");
    assert_eq!(loaded.index.stored_git_head(), Some("deadbeef"));
    assert_eq!(loaded.index.current.files.len(), 1);
    assert_eq!(
        text(&relative_to_root(
            &loaded.index.current.project_root,
            &loaded.index.current.files[0].path
        )),
        "src.txt"
    );
    assert_eq!(loaded.index.trigram_count(), stored.index.trigram_count());
    assert_eq!(loaded.postings(pack_trigram(b'a', b'b', b'c')), vec![0]);
    assert_eq!(
        loaded.index.current.file_trigram_count,
        stored.index.current.file_trigram_count
    );
}

#[test]
fn read_from_disk_rejects_corrupt_lookup_checksum() {
    let disk = Disk::new(&[("src.txt", "abcdef")]);
    let mut stored = build(&disk);
    stored.write(None);
    let mut bytes = stored.cache.clone();
    assert!(load(&bytes).is_some());
    let last = bytes.len() - 1;
    bytes[last] ^= 0xff;
    assert!(load(&bytes).is_none());
}

#[test]
fn search_index_atomic_rename_survives_partial_write() {
    assert!(load(b"partial").is_none());
    let disk = Disk::new(&[("src.txt", "abcdef")]);
    let mut stored = build(&disk);
    stored.write(None);
    let half = stored.cache.len() / 2;
    assert!(load(&stored.cache[..half]).is_none());
}

#[test]
fn read_from_disk_rejects_invalid_nanos() {
    let mut postings = Vec::new();
    postings.extend_from_slice(&index_magic_bytes());
    postings.extend_from_slice(&INDEX_VERSION.to_le_bytes());
    postings.extend_from_slice(&0u32.to_le_bytes());
    postings.extend_from_slice(&1u32.to_le_bytes());
    postings.extend_from_slice(&DEFAULT_MAX_FILE_SIZE.to_le_bytes());
    postings.extend_from_slice(&1u32.to_le_bytes());
    postings.extend_from_slice(b"/");
    postings.push(0u8);
    postings.extend_from_slice(&1u32.to_le_bytes());
    postings.extend_from_slice(&0u64.to_le_bytes());
    postings.extend_from_slice(&0u64.to_le_bytes());
    postings.extend_from_slice(&1_000_000_000u32.to_le_bytes());
    postings.extend_from_slice(b"a");
    postings.extend_from_slice(&0u64.to_le_bytes());

    let mut lookup = Vec::new();
    lookup.extend_from_slice(&lookup_magic_bytes());
    lookup.extend_from_slice(&INDEX_VERSION.to_le_bytes());
    lookup.extend_from_slice(&0u32.to_le_bytes());

    let postings_checksum = crc32fast::hash(&postings);
    postings.extend_from_slice(&postings_checksum.to_le_bytes());
    let lookup_checksum = crc32fast::hash(&lookup);
    lookup.extend_from_slice(&lookup_checksum.to_le_bytes());
    let mut cache = Vec::new();
    cache.extend_from_slice(&CACHE_MAGIC.to_le_bytes());
    cache.extend_from_slice(&INDEX_VERSION.to_le_bytes());
    cache.extend_from_slice(&(postings.len() as u64).to_le_bytes());
    cache.extend_from_slice(&postings);
    cache.extend_from_slice(&lookup);

    assert!(load(&cache).is_none());
}

#[test]
fn stored_times_with_too_many_nanos_are_refused() {
    let disk = Disk::new(&[("a", "abcdef")]);
    let mut stored = build(&disk);
    stored.write(None);
    let mut bytes = stored.cache.clone();
    let texts = u32_in(&bytes, 28) as usize + u32_in(&bytes, 32) as usize
        + u32_in(&bytes, 36) as usize;
    let nanos_at = 16 + 12 + 12 + 8 + 4 + texts + 1 + 4 + 8 + 8;
    let checksum_pos = 16 + u64_in(&bytes, 8) as usize - 4;
    for (nanos, readable) in [(999_999_999u32, true), (1_000_000_000u32, false)] {
        bytes[nanos_at..nanos_at + 4].copy_from_slice(&nanos.to_le_bytes());
        let checksum = crc32fast::hash(&bytes[16..checksum_pos]);
        bytes[checksum_pos..checksum_pos + 4].copy_from_slice(&checksum.to_le_bytes());
        assert_eq!(load(&bytes).is_some(), readable);
    }
}

#[test]
fn a_cache_with_other_ignore_rules_is_only_borrowed() {
    let disk = Disk::new(&[("src.txt", "abcdef")]);
    let mut stored = build(&disk);
    stored.write(None);
    let probes = |count: usize| -> Vec<PathProbe> {
        (0..count).map(|_| PathProbe { canonical_path: None, canonical_root: None }).collect()
    };
    let strict = load_index(
        parse_cache(&stored.cache).unwrap(),
        &path(ROOT),
        &probes(1),
        "other".to_string(),
        IgnoreRulesLoadPolicy::Strict,
    );
    assert!(strict.is_none());
    let borrowed = load_index(
        parse_cache(&stored.cache).unwrap(),
        &path(ROOT),
        &probes(1),
        "other".to_string(),
        IgnoreRulesLoadPolicy::BorrowTolerant,
    );
    let (index, differs) = borrowed.unwrap();
    assert!(differs);
    assert_eq!(index.file_count(), 1);
}

#[test]
fn a_file_outside_the_root_cannot_be_stored() {
    let mut index = SearchIndex::new();
    index.current.project_root = path(ROOT);
    let outside = path("/elsewhere/x.txt");
    index.index_file(&outside, &outside, b"abcdef", None);
    let plan = CacheWritePlan::from_index(&index, None, "rules".to_string());
    let refused = index.encode_cache(&plan, &vec![None], PostingReads::new());
    assert_eq!(refused.err(), Some(CacheWriteError::PathOutsideRoot));
    let accepted = index.encode_cache(&plan, &vec![Some(below("x.txt"))], PostingReads::new());
    assert!(accepted.is_ok());
}

// -------------------------------------------------------------------------------------------
// Refreshing
// -------------------------------------------------------------------------------------------

#[test]
fn refresh_after_head_change_removes_renames_and_detects_local_files() {
    let mut disk = Disk::new(&[("old.txt", "old token\n"), ("unchanged.txt", "before\n")]);
    let mut baseline = build(&disk);
    baseline.index.git_head = Some("previous".to_string());

    disk.remove("old.txt");
    disk.write("new.txt", b"old token\n", 1_700_000_001);
    disk.write("unchanged.txt", b"after local edit\n", 1_700_000_002);
    disk.write("untracked.txt", b"untracked token\n", 1_700_000_003);

    let refreshed = rebuild_or_refresh(
        &disk,
        DEFAULT_MAX_FILE_SIZE,
        Some("current"),
        baseline,
        Some("R100\told.txt\tnew.txt\n"),
    );
    assert!(refreshed.id("old.txt").is_none());
    assert!(refreshed.id("new.txt").is_some());
    assert!(refreshed.id("untracked.txt").is_some());
    assert_eq!(refreshed.index.stored_git_head(), Some("current"));
    let result = refreshed.grep(&disk, &literal("after local edit"), ROOT, 10);
    assert_eq!(result.matches.len(), 1);
}

#[test]
fn git_head_unchanged_picks_up_local_edits() {
    let mut disk = Disk::new(&[("tracked.txt", "oldtoken\n")]);
    let mut baseline = build(&disk);
    baseline.index.git_head = Some("head".to_string());
    disk.write("tracked.txt", b"newtoken\n", 1_700_000_001);
    let refreshed =
        rebuild_or_refresh(&disk, DEFAULT_MAX_FILE_SIZE, Some("head"), baseline, None);
    assert_eq!(refreshed.grep(&disk, &literal("newtoken"), ROOT, 10).total_matches, 1);
}

#[test]
fn max_file_size_change_reclassifies_unchanged_files() {
    let disk = Disk::new(&[("file.txt", "unchanged-limit-token-with-enough-bytes\n")]);
    let pattern = literal("unchanged-limit-token");
    let indexed = build_with_limit(&disk, 128);
    assert_eq!(indexed.grep(&disk, &pattern, ROOT, 10).total_matches, 1);

    let lowered = rebuild_or_refresh(&disk, 8, None, indexed, None);
    let lowered_id = lowered.id("file.txt").expect("lowered file id");
    assert!(
        lowered.index.current.unindexed_files.contains(&lowered_id),
        "lowering the limit must classify an unchanged oversized file as unindexed"
    );

    let raised = rebuild_or_refresh(&disk, 128, None, lowered, None);
    let raised_id = raised.id("file.txt").expect("raised file id");
    assert!(
        !raised.index.current.unindexed_files.contains(&raised_id),
        "raising the limit must index a previously unindexed unchanged file"
    );
    assert_eq!(raised.grep(&disk, &pattern, ROOT, 10).total_matches, 1);
}

#[test]
fn non_git_project_reuses_cache_when_files_unchanged() {
    let disk = Disk::new(&[("file.txt", "unchangedtoken\n")]);
    let baseline = build(&disk);
    let baseline_file_count = baseline.index.file_count();
    let refreshed = rebuild_or_refresh(&disk, DEFAULT_MAX_FILE_SIZE, None, baseline, None);
    assert_eq!(refreshed.index.file_count(), baseline_file_count);
    assert_eq!(refreshed.grep(&disk, &literal("unchangedtoken"), ROOT, 10).total_matches, 1);
}

#[test]
fn refresh_reindexes_same_size_edit_with_preserved_mtime() {
    let mut disk = Disk::new(&[("tokens.txt", "alpha")]);
    let baseline = build(&disk);
    disk.write("tokens.txt", b"bravo", 1_700_000_000);
    let refreshed = rebuild_or_refresh(&disk, DEFAULT_MAX_FILE_SIZE, None, baseline, None);
    let refreshed_id = refreshed.id("tokens.txt").expect("file remains indexed");
    assert_eq!(refreshed.grep(&disk, &literal("bravo"), ROOT, 10).total_matches, 1);
    assert!(refreshed.postings(pack_trigram(b'b', b'r', b'a')).contains(&refreshed_id));
    assert!(!refreshed.postings(pack_trigram(b'a', b'l', b'p')).contains(&refreshed_id));
}

#[test]
fn warm_disk_verification_uses_stat_first_and_hashes_changed_stats() {
    let mut disk = Disk::new(&[("warm.rs", "fn warm_reload() {}\n")]);
    let stored = build(&disk);
    let file = &stored.index.current.files[0];
    let first = disk.probe(&file.path);
    assert!(stat_decides(file, first.metadata, VerifyStrategy::StatFirst));
    assert!(!stat_decides(file, first.metadata, VerifyStrategy::Strict));
    assert_eq!(
        judge_file(file, first.metadata, VerifyStrategy::StatFirst, &None),
        FreshnessVerdict::HotFresh
    );

    disk.write("warm.rs", b"fn warm_reload() {}\n", 1);
    let touched = disk.probe(&file.path);
    assert!(!stat_decides(file, touched.metadata, VerifyStrategy::StatFirst));
    assert_eq!(
        judge_file(file, touched.metadata, VerifyStrategy::StatFirst, &touched.content),
        FreshnessVerdict::ContentFresh {
            new_mtime: Timestamp { secs: 1, nanos: 0 },
            new_size: 20,
        }
    );

    disk.write("warm.rs", b"fn warm_reload() {}!", 1);
    let edited = disk.probe(&file.path);
    assert_eq!(
        judge_file(file, edited.metadata, VerifyStrategy::StatFirst, &edited.content),
        FreshnessVerdict::Stale
    );
    assert_eq!(
        judge_file(file, None, VerifyStrategy::StatFirst, &None),
        FreshnessVerdict::Deleted
    );
}

#[test]
fn a_check_takes_over_new_times_and_drops_lost_files() {
    let mut disk = Disk::new(&[("kept.txt", "abcdef"), ("lost.txt", "ghijkl")]);
    let mut stored = build(&disk);
    assert!(!verify(&mut stored, &disk));
    disk.write("kept.txt", b"abcdef", 1_800_000_000);
    disk.remove("lost.txt");
    assert!(verify(&mut stored, &disk));
    let kept = stored.id("kept.txt").unwrap() as usize;
    assert_eq!(stored.index.current.files[kept].modified.secs, 1_800_000_000);
    assert!(stored.id("lost.txt").is_none());
    assert_eq!(stored.index.current.path_to_id.len(), 1);
    assert_eq!(stored.index.file_count(), 1);
}

// -------------------------------------------------------------------------------------------
// Searching
// -------------------------------------------------------------------------------------------

#[test]
fn grep_filters_matches_to_search_root() {
    let disk = Disk::new(&[
        ("src/main.rs", "pub struct SearchIndex;\n"),
        ("docs/guide.md", "SearchIndex guide\n"),
    ]);
    let result = build(&disk).grep(&disk, &literal("SearchIndex"), "/work/project/src", 10);
    assert_eq!(result.files_searched, 1);
    assert_eq!(result.files_with_matches, 1);
    assert_eq!(result.matches.len(), 1);
    assert_eq!(text(&result.matches[0].file), "/work/project/src/main.rs");
    assert_eq!(result.matches[0].line, 1);
    assert_eq!(result.matches[0].column, 12);
    assert_eq!(result.matches[0].line_text, "pub struct SearchIndex;");
    assert_eq!(result.matches[0].match_text, "SearchIndex");
}

#[test]
fn grep_deduplicates_multiple_matches_on_same_line() {
    let disk = Disk::new(&[("src/main.rs", "SearchIndex SearchIndex\n")]);
    let result = build(&disk).grep(&disk, &literal("SearchIndex"), "/work/project/src", 10);
    assert_eq!(result.total_matches, 1);
    assert_eq!(result.matches.len(), 1);
}

#[test]
fn grep_case_insensitive_unicode_literal_matches_indexed_file() {
    let disk = Disk::new(&[("unicode.txt", "\u{e4}bc\n")]);
    let pattern = CompiledPattern::regex("\u{c4}bc", true).unwrap();
    let result = build(&disk).grep(&disk, &pattern, ROOT, 10);
    assert_eq!(result.total_matches, 1);
    assert_eq!(result.matches.len(), 1);
    assert_eq!(text(&result.matches[0].file), "/work/project/unicode.txt");
}

#[test]
fn grep_reports_total_matches_before_truncation() {
    let disk = Disk::new(&[("src/main.rs", "SearchIndex\nSearchIndex\n")]);
    let result = build(&disk).grep(&disk, &literal("SearchIndex"), "/work/project/src", 1);
    assert_eq!(result.total_matches, 2);
    assert_eq!(result.matches.len(), 1);
    assert!(result.truncated);
}

#[test]
fn glob_filters_results_to_search_root() {
    let disk = Disk::new(&[
        ("src/main.rs", "pub fn main() {}\n"),
        ("scripts/tool.rs", "pub fn tool() {}\n"),
    ]);
    let files = build(&disk).index.glob(&"**/*.rs".to_string(), &below("src"));
    assert_eq!(texts(&files), vec!["/work/project/src/main.rs"]);
}

#[test]
fn snapshot_reports_file_presence_without_a_filesystem_walk() {
    let disk = Disk::new(&[("src/main.rs", "pub fn main() {}\n")]);
    let snapshot = build(&disk).snapshot();
    assert!(snapshot.has_file_in_scope(&path(ROOT)));
    assert!(snapshot.has_file_in_scope(&below("src")));
    assert!(!snapshot.has_file_in_scope(&below("empty")));
}

#[test]
fn glob_includes_hidden_and_binary_files() {
    let mut disk = Disk::new(&[]);
    disk.write(".hidden/data.bin", &[0u8, 159, 146, 150], 1_700_000_000);
    let stored = build(&disk);
    assert_eq!(stored.index.current.unindexed_files.len(), 1);
    let files = stored.index.glob(&"**/*.bin".to_string(), &path(ROOT));
    assert_eq!(texts(&files), vec!["/work/project/.hidden/data.bin"]);
}

#[test]
fn a_pattern_that_is_no_glob_matches_nothing() {
    let disk = Disk::new(&[("src/main.rs", "pub fn main() {}\n")]);
    let stored = build(&disk);
    assert!(stored.index.glob(&"[".to_string(), &path(ROOT)).is_empty());
    assert!(build_path_filters(&vec!["[".to_string()], &Vec::new()).is_err());
}

#[test]
fn globs_let_some_files_in_and_keep_some_out() {
    let filters =
        build_path_filters(&vec!["**/*.rs".to_string()], &vec!["tests/**".to_string()]).unwrap();
    assert!(filters.matches(&path(ROOT), &below("src/lib.rs")));
    assert!(!filters.matches(&path(ROOT), &below("src/lib.md")));
    assert!(!filters.matches(&path(ROOT), &below("tests/lib.rs")));
    assert!(PathFilters::none().matches(&path(ROOT), &below("tests/lib.rs")));
}

#[test]
fn parallel_cold_build_matches_serial_index() {
    let mut disk = Disk::new(&[]);
    for index in 0..80 {
        disk.write(
            &format!("pkg_{index:03}/lib.rs"),
            format!("pub fn unique_marker_{index}() {{ println!(\"aft_perf_marker_{index}\"); }}\n")
                .as_bytes(),
            1_700_000_000,
        );
    }
    let mut serial = Stored { index: SearchIndex::new(), cache: Vec::new() };
    serial.index.current.project_root = path(ROOT);
    for path in disk.paths() {
        serial.index.update_file(&path, &path, &disk.probe(&path));
    }
    let parallel = build(&disk);

    assert_eq!(serial.index.file_count(), parallel.index.file_count());
    assert_eq!(serial.index.trigram_count(), parallel.index.trigram_count());
    assert_eq!(
        serial.index.current.path_to_id.len(),
        parallel.index.current.path_to_id.len()
    );
    assert_eq!(
        serial.index.current.file_trigram_count,
        parallel.index.current.file_trigram_count
    );
    for path in disk.paths() {
        assert_eq!(
            serial.index.current.path_to_id.get(&path),
            parallel.index.current.path_to_id.get(&path)
        );
    }
    for (left, right) in serial.index.current.files.iter().zip(&parallel.index.current.files) {
        assert!(left.path.same_as(&right.path));
        assert_eq!(left.size, right.size);
        assert_eq!(left.modified, right.modified);
        assert_eq!(left.content_hash.bytes, right.content_hash.bytes);
    }

    let pattern = literal("aft_perf_marker_17");
    let serial_grep = serial.grep(&disk, &pattern, ROOT, 10);
    let parallel_grep = parallel.grep(&disk, &pattern, ROOT, 10);
    assert_eq!(
        format!("{:?}", serial_grep.matches),
        format!("{:?}", parallel_grep.matches)
    );
    assert_eq!(serial_grep.total_matches, 1);
    assert_eq!(serial_grep.total_matches, parallel_grep.total_matches);
    assert_eq!(serial_grep.files_searched, parallel_grep.files_searched);
    assert_eq!(serial_grep.files_with_matches, parallel_grep.files_with_matches);
}

#[test]
fn uncapped_indexed_grep_over_many_files_is_not_engine_capped() {
    let mut disk = Disk::new(&[]);
    for i in 0..40 {
        disk.write(
            &format!("file-{i}.rs"),
            format!("fn unique_marker_{i}() {{ let _ = \"needle_token\"; }}\n").as_bytes(),
            1_700_000_000,
        );
    }
    let pattern = CompiledPattern::Literal(LiteralSearch {
        needle: b"needle_token".to_vec(),
        case_insensitive_ascii: true,
    });
    let result = build(&disk).grep(&disk, &pattern, ROOT, 1000);
    assert!(
        result.matches.len() >= 40,
        "expected a match per file, got {}",
        result.matches.len()
    );
    assert!(
        !result.engine_capped,
        "an uncapped grep over >10 files must not report engine_capped"
    );
    assert!(!result.truncated, "uncapped grep must not be truncated");
}

#[test]
fn write_denied_cold_build_flags_build_denied_instead_of_building() {
    let index = SearchIndex::denied(&path(ROOT), DEFAULT_MAX_FILE_SIZE);
    assert!(
        index.build_denied,
        "a write-denied cold build must flag build_denied so health can report a settled state"
    );
    assert!(
        !index.current.ready,
        "build_denied must keep ready=false so grep/glob keep using the bounded fallback walk"
    );
    assert!(
        index.current.files.is_empty(),
        "a write-denied build must not materialize an in-RAM index"
    );
}

#[test]
fn a_search_for_nothing_that_compiles_is_empty() {
    let disk = Disk::new(&[("src/main.rs", "pub fn main() {}\n")]);
    let stored = build(&disk);
    let result = stored.index.grep(
        None,
        &stored.reads(),
        &PathFilters::none(),
        &path(ROOT),
        10,
        &HashMap::new(),
    );
    assert_eq!(result.total_matches, 0);
    assert_eq!(result.files_searched, 0);
    assert_eq!(result.index_status.as_str(), "Ready");
}

#[test]
fn spilling_keeps_every_posting() {
    let disk = Disk::new(&[
        ("a.txt", "alpha beta"),
        ("b.txt", "beta gamma"),
        ("c.txt", "gamma alpha"),
        ("d.txt", "delta"),
        ("e.txt", "beta"),
    ]);
    let stored = build(&disk);
    assert_eq!(stored.postings(pack_trigram(b'b', b'e', b't')), vec![0, 1, 4]);
    assert_eq!(stored.postings(pack_trigram(b'a', b'l', b'p')), vec![0, 2]);
    assert_eq!(stored.postings(pack_trigram(b'l', b't', b'a')), vec![3]);
    assert!(stored.postings(pack_trigram(b'z', b'z', b'z')).is_empty());
}

#[test]
fn prepared_paths_are_taken_in_their_order() {
    let disk = Disk::new(&[("a.txt", "alpha beta"), ("b.bin", "bi\0nary")]);
    let mut paths = disk.paths();
    paths.push(below("gone.txt"));
    let prepared: Vec<PreparedSearchPath> =
        paths.iter().map(|path| prepare_search_path(&disk.probe(path), 100)).collect();
    let mut index = SearchIndex::new();
    assert_eq!(index.ingest_prepared(&paths, &prepared), 2);
    assert_eq!(index.current.path_to_id.get(&below("a.txt")), Some(0));
    assert_eq!(index.current.path_to_id.get(&below("b.bin")), Some(1));
    assert_eq!(index.current.path_to_id.get(&below("gone.txt")), None);
    assert!(index.current.unindexed_files.contains(&1));
    assert_eq!(index.current.file_trigram_count, vec![8, 0]);
}

#[test]
fn a_damaged_segment_stops_the_build() {
    let mut builder = StreamingBuilder::new(path(ROOT), 100, "rules".to_string());
    let disk = Disk::new(&[("a.txt", "alpha beta")]);
    let file = below("a.txt");
    let prepared = prepare_search_path(&disk.probe(&file), 100);
    assert!(matches!(prepared, PreparedSearchPath::Indexed(_)));
    builder.add(&file, &prepared).unwrap();
    let mut segment = builder.flush().unwrap();
    let plan = builder.plan(None);
    assert!(builder.encode(&plan, &vec![None], vec![segment.clone()]).is_ok());
    segment[0] ^= 1;
    assert!(builder.encode(&plan, &vec![None], vec![segment]).is_err());
    assert!(builder.flush().is_err());
}

#[test]
fn an_unrestricted_query_names_every_listed_file() {
    let disk = Disk::new(&[("a.txt", "alpha"), ("b.txt", "beta")]);
    let mut stored = build(&disk);
    let b = below("b.txt");
    stored.index.remove_file(&b, &b);
    let ids = stored.index.candidates(&RegexQuery::unrestricted(), &stored.reads());
    assert_eq!(ids, vec![0]);
}

#[test]
fn both_sections_end_in_their_checksums() {
    let disk = Disk::new(&[("src.txt", "abcdef")]);
    let stored = build(&disk);
    let bytes = &stored.cache;
    let section_end = 16 + u64_in(bytes, 8) as usize;
    assert_eq!(
        u32_in(bytes, section_end - 4),
        crc32fast::hash(&bytes[16..section_end - 4])
    );
    assert_eq!(
        u32_in(bytes, bytes.len() - 4),
        crc32fast::hash(&bytes[section_end..bytes.len() - 4])
    );
}

#[test]
fn files_are_known_by_the_hash_of_their_content() {
    let disk = Disk::new(&[("src.txt", "abcdef")]);
    let stored = build(&disk);
    assert_eq!(
        &stored.index.current.files[0].content_hash.bytes,
        blake3::hash(b"abcdef").as_bytes()
    );
}

#[test]
fn invalid_bytes_are_shown_as_replacement_characters() {
    let mut disk = Disk::new(&[]);
    disk.write("odd.txt", b"ab\xffneedle\xfe\n", 1_700_000_000);
    let result = build(&disk).grep(&disk, &literal("needle"), ROOT, 10);
    assert_eq!(result.matches.len(), 1);
    assert_eq!(result.matches[0].line_text, "ab\u{fffd}needle\u{fffd}");
    assert_eq!(result.matches[0].column, 4);
}

#[test]
fn regular_expressions_match_by_their_flags() {
    let disk = Disk::new(&[("a.txt", "Alpha1\nbeta22\nALPHA333\n")]);
    let stored = build(&disk);
    let pattern = |text: &str, case_insensitive: bool| {
        CompiledPattern::regex(text, case_insensitive).unwrap()
    };
    let result = stored.grep(&disk, &pattern("alpha[0-9]+", true), ROOT, 10);
    let found: Vec<&str> =
        result.matches.iter().map(|matched| matched.match_text.as_str()).collect();
    assert_eq!(found, vec!["Alpha1", "ALPHA333"]);
    let result = stored.grep(&disk, &pattern("alpha[0-9]+", false), ROOT, 10);
    assert_eq!(result.total_matches, 0);
}

#[test]
fn what_does_not_compile_is_no_pattern() {
    assert!(CompiledPattern::regex("alpha[0-9", false).is_none());
    assert!(CompiledPattern::regex("alpha[0-9]", false).is_some());
}

#[test]
fn matches_of_an_expression_come_from_left_to_right() {
    let disk = Disk::new(&[("a.txt", "ab12 cd34 ef56\nnone\ngh78\n")]);
    let pattern = CompiledPattern::regex("[a-z]+[0-9]+", false).unwrap();
    let result = build(&disk).grep(&disk, &pattern, ROOT, 10);
    let found: Vec<(u32, u32, &str)> = result
        .matches
        .iter()
        .map(|matched| (matched.line, matched.column, matched.match_text.as_str()))
        .collect();
    assert_eq!(found, vec![(1, 1, "ab12"), (3, 1, "gh78")]);
}

#[test]
fn excluded_files_are_not_searched() {
    let disk = Disk::new(&[("a.txt", "needle a\n"), ("b.txt", "needle b\n")]);
    let stored = build(&disk);
    let mut contents = HashMap::new();
    for (slot, file) in stored.index.current.files.iter().enumerate() {
        contents.insert(slot as u32, disk.probe(&file.path).content.unwrap());
    }
    let search = |excluded: &Vec<bool>| {
        stored.index.current.search_grep_excluding(
            &literal("needle"),
            &stored.reads(),
            &PathFilters::none(),
            &path(ROOT),
            excluded,
            10,
            &contents,
        )
    };
    assert_eq!(search(&vec![]).total_matches, 2);
    let result = search(&vec![true, false]);
    assert_eq!(result.total_matches, 1);
    assert_eq!(result.files_searched, 1);
    assert_eq!(result.matches[0].line_text, "needle b");
}

#[test]
fn a_capped_search_accounts_for_what_it_reports() {
    let mut disk = Disk::new(&[]);
    for i in 0..6 {
        disk.write(&format!("f{i}.txt"), b"needle\nneedle\nneedle\n", 1_700_000_000);
    }
    let stored = build(&disk);
    for max in [1usize, 2, 4, 7, 17, 18, 40] {
        let result = stored.grep(&disk, &literal("needle"), ROOT, max);
        assert_eq!(result.matches.len(), result.total_matches.min(max));
        assert!(!result.engine_capped || result.truncated);
        assert_eq!(result.truncated, max < 18);
    }
    let one = Disk::new(&[("a.txt", "needle 1\nneedle 2\nneedle 3\nneedle 4\n")]);
    let result = build(&one).grep(&one, &literal("needle"), ROOT, 2);
    let lines: Vec<u32> = result.matches.iter().map(|matched| matched.line).collect();
    assert_eq!(lines, vec![1, 2]);
    assert_eq!(result.total_matches, 3);
    assert_eq!((result.files_searched, result.files_with_matches), (1, 1));
    assert!(result.truncated);
}

#[test]
fn adding_then_removing_changes_no_answer() {
    let disk = Disk::new(&[("a.txt", "alpha beta")]);
    let mut stored = build(&disk);
    let extra = below("b.txt");
    let query = RegexQuery::unrestricted();
    let answers = |stored: &Stored| {
        (
            stored.index.file_count(),
            stored.index.trigram_count(),
            stored.index.has_pending_disk_changes(),
            stored.index.current.path_to_id.len(),
            stored.index.candidates(&query, &stored.reads()),
            stored.postings(pack_trigram(b'a', b'l', b'p')),
            stored.index.delta_packed_bytes,
        )
    };
    let before = answers(&stored);
    stored.index.index_file(&extra, &extra, b"alpha gamma", None);
    assert_eq!(stored.index.file_count(), 2);
    assert!(stored.index.has_pending_disk_changes());
    assert_eq!(stored.postings(pack_trigram(b'a', b'l', b'p')), vec![0, 1]);
    stored.index.remove_file(&extra, &extra);
    assert_eq!(answers(&stored), before);
    assert_eq!(stored.index.current.files.len(), 2);
    stored.index.remove_file(&extra, &extra);
    assert_eq!(answers(&stored), before);

    let mut index = SearchIndex::new();
    let only = path("a.txt");
    index.index_file(&only, &only, b"abcdef", None);
    assert_eq!(index.file_count(), 1);
    index.remove_file(&only, &only);
    assert_eq!(index.file_count(), 0);
}

#[test]
fn packed_bytes_count_the_postings() {
    let mut index = SearchIndex::new();
    let (a, b) = (path("a.txt"), path("b.txt"));
    let in_step = |index: &SearchIndex| {
        let estimate = index.estimated_memory();
        assert_eq!(estimate.delta_packed_bytes, 6 * estimate.delta_postings as u64);
        assert_eq!(estimate.files, index.current.files.len());
        assert_eq!(estimate.base_postings_resident_bytes, 0);
        assert!(estimate.delta_postings == 0 || estimate.estimated_bytes > 0);
        estimate.delta_postings
    };
    assert_eq!(in_step(&index), 0);
    index.index_file(&a, &a, b"abcdef", None);
    assert_eq!(in_step(&index), 4);
    index.index_file(&b, &b, b"abcd", None);
    assert_eq!(in_step(&index), 6);
    index.index_file(&a, &a, b"abcde", None);
    assert_eq!(in_step(&index), 5);
    index.remove_file(&b, &b);
    assert_eq!(in_step(&index), 3);
    assert_eq!((index.estimated_memory().files, index.file_count()), (3, 1));
    let mut trigrams: Vec<u32> = index.delta_file_trigrams.values().flatten().copied().collect();
    trigrams.sort_unstable();
    assert_eq!(
        trigrams,
        vec![
            pack_trigram(b'a', b'b', b'c'),
            pack_trigram(b'b', b'c', b'd'),
            pack_trigram(b'c', b'd', b'e'),
        ]
    );
}

#[test]
fn a_snapshot_answers_as_before_a_change() {
    let disk = Disk::new(&[("a.txt", "alpha beta"), ("b.txt", "alpha")]);
    let mut stored = build(&disk);
    let reads = stored.reads();
    let snapshot = stored.snapshot();
    let alp = pack_trigram(b'a', b'l', b'p');
    let query = RegexQuery::unrestricted();
    let answers = |snapshot: &SearchIndexSnapshot| {
        (
            snapshot.candidates(&query, &reads),
            snapshot.postings_for_trigram(&reads, alp, None),
            snapshot.trigram_count(),
            texts(&snapshot.glob(&"**/*.txt".to_string(), &path(ROOT))),
        )
    };
    let before = answers(&snapshot);
    stored.index.remove_file(&below("a.txt"), &below("a.txt"));
    stored.index.index_file(&below("c.txt"), &below("c.txt"), b"alpha", None);
    assert_eq!(answers(&snapshot), before);
    assert_eq!(stored.snapshot().postings_for_trigram(&reads, alp, None), vec![1, 2]);
}

#[test]
fn a_written_index_is_read_with_the_same_answers() {
    let disk = Disk::new(&[("a.txt", "alpha beta"), ("b.txt", "beta gamma"), ("c.txt", "gamma")]);
    let mut stored = build(&disk);
    stored.index.remove_file(&below("a.txt"), &below("a.txt"));
    stored.index.index_file(&below("d.txt"), &below("d.txt"), b"delta beta", None);
    stored.write(Some("abc"));
    assert_eq!(stored.index.delta_packed_bytes, 0);
    let loaded = load(&stored.cache).unwrap();
    assert_eq!(loaded.index.delta_packed_bytes, 0);
    assert_eq!(loaded.index.trigram_count(), stored.index.trigram_count());
    assert_eq!(
        loaded.index.current.file_trigram_count,
        stored.index.current.file_trigram_count
    );
    assert_eq!(loaded.index.stored_git_head(), Some("abc"));
    assert!(!loaded.index.current.ready);
    assert!(!loaded.index.has_pending_disk_changes());
    for name in ["a.txt", "b.txt", "c.txt", "d.txt"] {
        assert_eq!(loaded.id(name), stored.id(name));
    }
    for trigram in [pack_trigram(b'b', b'e', b't'), pack_trigram(b'g', b'a', b'm')] {
        assert_eq!(loaded.postings(trigram), stored.postings(trigram));
    }
    assert_eq!(stored.postings(pack_trigram(b'b', b'e', b't')).len(), 2);
}

#[test]
fn walked_paths_that_are_missing_are_told_one_after_the_other() {
    let disk = Disk::new(&[("b.txt", "beta")]);
    let stored = build(&disk);
    let walked = vec![below("a.txt"), below("b.txt"), below("c.txt")];
    assert_eq!(stored.index.next_missing(&walked, 0), Some(0));
    assert_eq!(stored.index.next_missing(&walked, 1), Some(2));
    assert_eq!(stored.index.next_missing(&walked, 3), None);
}

/// The cache file of segments that are read `piece` bytes at a time.
fn stream_cache(
    plan: &CacheWritePlan,
    segments: &[Vec<u8>],
    piece: usize,
) -> Result<(Vec<u8>, BasePostings), RecordError> {
    let canonical = vec![None; plan.files.len()];
    let mut at: Vec<usize> = segments.iter().map(|bytes| bytes.len().min(20)).collect();
    let fronts = segments.iter().zip(&at).map(|(bytes, end)| bytes[..*end].to_vec()).collect();
    let (mut stream, mut file) = match CacheStream::begin(plan, &canonical, fronts) {
        Ok(begun) => begun,
        Err(CacheWriteError::Records(error)) => return Err(error),
        Err(error) => panic!("{error:?}"),
    };
    loop {
        match stream.step() {
            CacheStep::Need(segment) => {
                let from = at[segment];
                let to = segments[segment].len().min(from + piece);
                if from == to {
                    stream.end(segment);
                } else {
                    stream.feed(segment, &segments[segment][from..to]);
                }
                at[segment] = to;
            }
            CacheStep::Write(bytes) => file.extend(bytes),
            CacheStep::Finish => break,
            CacheStep::Failed(error) => return Err(error),
        }
    }
    let (tail, base) = stream.finish().unwrap();
    file.extend(tail);
    Ok((file, base))
}

#[test]
fn segments_read_in_pieces_give_the_same_cache_file() {
    let disk = Disk::new(&[
        ("a.txt", "alpha beta"),
        ("b.txt", "beta gamma"),
        ("c.txt", "gamma alpha"),
        ("d.txt", "delta"),
        ("e.txt", "beta"),
    ]);
    let mut builder =
        StreamingBuilder::new(path(ROOT), DEFAULT_MAX_FILE_SIZE, "rules".to_string());
    let mut segments = Vec::new();
    for path in disk.paths() {
        builder.add(&path, &prepare_search_path(&disk.probe(&path), 1_000_000)).unwrap();
        if builder.block.len() > 10 {
            segments.push(builder.flush().unwrap());
        }
    }
    if !builder.block.is_empty() {
        segments.push(builder.flush().unwrap());
    }
    assert!(segments.len() > 1);
    let plan = builder.plan(Some("abc".to_string()));
    let canonical = vec![None; plan.files.len()];
    let encoded = builder.encode(&plan, &canonical, segments.clone()).unwrap();
    for piece in [1, 5, 14, 4096] {
        let (file, base) = stream_cache(&plan, &segments, piece).unwrap();
        assert_eq!(file, encoded.bytes);
        assert_eq!(base.lookup, encoded.base.lookup);
        assert_eq!(base.postings_blob_start, encoded.base.postings_blob_start);
        assert_eq!(base.postings_blob_len, encoded.base.postings_blob_len);
    }
    assert!(parse_cache(&stream_cache(&plan, &segments, 3).unwrap().0).is_some());
}

#[test]
fn broken_segments_are_told_while_they_are_read() {
    let disk = Disk::new(&[("a.txt", "alpha beta")]);
    let mut builder =
        StreamingBuilder::new(path(ROOT), DEFAULT_MAX_FILE_SIZE, "rules".to_string());
    for path in disk.paths() {
        builder.add(&path, &prepare_search_path(&disk.probe(&path), 1_000_000)).unwrap();
    }
    let segment = builder.flush().unwrap();
    let plan = builder.plan(None);
    let result = |bytes: Vec<u8>| stream_cache(&plan, &[bytes], 7).err();
    assert_eq!(result(segment.clone()), None);
    let mut short = segment.clone();
    short.pop();
    assert_eq!(result(short), Some(RecordError::UnexpectedEnd));
    let mut hollow = segment.clone();
    hollow[24..28].copy_from_slice(&[0, 0, 0, 0]);
    assert_eq!(result(hollow), Some(RecordError::EmptySpillGroup));
    let mut strange = segment.clone();
    strange[0] = b'?';
    assert_eq!(result(strange), Some(RecordError::InvalidSpillMagic));
    let mut boasting = segment;
    boasting[12..20].copy_from_slice(&u64::MAX.to_le_bytes());
    assert_eq!(result(boasting), Some(RecordError::PostingsBlobTooLarge));
}

#[test]
fn times_before_1970_are_stored_as_its_start() {
    let mut disk = Disk::new(&[("new.txt", "beta gamma")]);
    disk.write("old.txt", b"alpha beta", -86_400);
    let mut stored = build(&disk);
    stored.write(None);
    let loaded = load(&stored.cache).unwrap();
    for name in ["new.txt", "old.txt"] {
        assert_eq!(loaded.id(name), stored.id(name));
        let slot = stored.id(name).unwrap() as usize;
        let before = &stored.index.current.files[slot];
        let after = &loaded.index.current.files[slot];
        assert!(after.path.same_as(&before.path));
        assert_eq!(after.size, before.size);
        assert_eq!(after.content_hash.bytes, before.content_hash.bytes);
        let secs = if name == "old.txt" { 0 } else { 1_700_000_000 };
        assert_eq!((after.modified.secs, after.modified.nanos), (secs, 0));
    }
    let old = stored.id("old.txt").unwrap() as usize;
    assert_eq!(stored.index.current.files[old].modified.secs, -86_400);
}

#[test]
fn every_file_that_counts_has_a_path_that_leads_to_it() {
    let mut disk = Disk::new(&[("a.txt", "alpha"), ("b.txt", "beta"), ("c.txt", "gamma")]);
    let mut stored = build(&disk);
    let check = |stored: &Stored, count: usize| {
        let current = &stored.index.current;
        let active: Vec<u32> =
            (0..current.files.len() as u32).filter(|id| current.is_active_file(*id)).collect();
        assert_eq!(current.active_file_ids(), active);
        assert_eq!(current.candidates(&RegexQuery::unrestricted(), &stored.reads()), active);
        assert_eq!(active.len(), count);
        for id in active {
            assert_eq!(current.path_to_id.get(&current.files[id as usize].path), Some(id));
        }
    };
    check(&stored, 3);
    stored.index.remove_file(&below("b.txt"), &below("b.txt"));
    check(&stored, 2);
    disk.write("a.txt", b"delta", 1_700_000_001);
    stored.update(&disk, "a.txt");
    check(&stored, 2);
    disk.remove("c.txt");
    disk.write("d.txt", b"epsilon", 1_700_000_002);
    assert!(verify(&mut stored, &disk));
    check(&stored, 3);
    stored.write(None);
    check(&stored, 3);
    check(&load(&stored.cache).unwrap(), 3);
}

#[test]
fn a_glob_with_a_backslash_answers_alike_each_time() {
    let filters = build_path_filters(&vec!["src/a\\*.rs".to_string()], &Vec::new()).unwrap();
    let paths = vec![below("src/a*.rs"), below("src/ab.rs"), below("lib/a*.rs")];
    let first = filters.match_all(&path(ROOT), &paths);
    assert_eq!(filters.match_all(&path(ROOT), &paths), first);
    let single: Vec<bool> = paths.iter().map(|file| filters.matches(&path(ROOT), file)).collect();
    assert_eq!(single, first);
}

#[test]
fn of_two_cached_files_with_one_path_the_later_is_led_to() {
    let disk = Disk::new(&[("a.txt", "alpha beta"), ("b.txt", "gamma beta")]);
    let mut stored = build(&disk);
    stored.write(None);
    let mut parsed = parse_cache(&stored.cache).unwrap();
    parsed.files[0].path = parsed.files[1].path.duplicate();
    let probes: Vec<PathProbe> =
        (0..2).map(|_| PathProbe { canonical_path: None, canonical_root: None }).collect();
    let (index, _) = load_index(
        parsed,
        &path(ROOT),
        &probes,
        "rules".to_string(),
        IgnoreRulesLoadPolicy::Strict,
    )
    .unwrap();
    let loaded = Stored { index, cache: stored.cache };
    assert_eq!(loaded.id("b.txt"), Some(1));
    assert_eq!(loaded.id("a.txt"), None);
    assert!(loaded.index.current.is_active_file(0));
    assert_eq!(loaded.index.current.active_file_ids(), vec![1]);
    assert_eq!(loaded.postings(pack_trigram(b'b', b'e', b't')), vec![0, 1]);
}

#[test]
fn segments_that_were_given_whole_are_written_to_the_end() {
    let disk = Disk::new(&[("a.txt", "alpha beta"), ("b.txt", "beta gamma")]);
    let mut builder =
        StreamingBuilder::new(path(ROOT), DEFAULT_MAX_FILE_SIZE, "rules".to_string());
    let mut segments = Vec::new();
    for path in disk.paths() {
        builder.add(&path, &prepare_search_path(&disk.probe(&path), 1_000_000)).unwrap();
        segments.push(builder.flush().unwrap());
    }
    let plan = builder.plan(None);
    let canonical = vec![None; plan.files.len()];
    let fronts = segments.iter().map(|bytes| bytes[..20].to_vec()).collect();
    let (mut stream, _) = CacheStream::begin(&plan, &canonical, fronts).unwrap();
    assert!(matches!(stream.step(), CacheStep::Need(0)));
    for (i, bytes) in segments.iter().enumerate() {
        stream.feed(i, &bytes[20..]);
        stream.end(i);
    }
    let mut lists = 0;
    loop {
        match stream.step() {
            CacheStep::Write(bytes) => {
                assert!(!bytes.is_empty());
                lists += bytes.len();
            }
            CacheStep::Finish => break,
            CacheStep::Need(_) | CacheStep::Failed(_) => panic!("all bytes were given"),
        }
    }
    let (_, base) = stream.finish().unwrap();
    assert_eq!(lists as u64, base.postings_blob_len);
    assert_eq!(lists, 6 * 16);
}

#[test]
fn limited_searches_account_for_what_they_report() {
    let content = Some(b"needle\nneedle\n".to_vec());
    let file = below("a.txt");
    for (candidates, limit, time_up_at) in [(5, 3, 9), (5, 9, 2), (20, 3, 9), (20, 9, 2)] {
        let mut scan = GrepScan::new(100, candidates, Some(limit));
        for i in 0..candidates {
            if scan.wants_next(i >= time_up_at) {
                scan.feed(&file, &content, &literal("needle"));
            }
        }
        let opened = limit.min(time_up_at);
        assert_eq!(scan.counters.files_searched, opened);
        assert_eq!(scan.counters.total_matches, 2 * opened);
        assert_eq!(scan.matches.len(), 2 * opened);
        assert!(scan.counters.truncated && scan.counters.engine_capped);
    }
}

#[test]
fn a_search_counts_the_texts_that_it_read() {
    let mut disk = Disk::new(&[
        ("a.txt", "needle\nneedle\n"),
        ("b.txt", "needless"),
        ("c.txt", "nothing of it"),
        ("d.txt", "needl and eedle"),
    ]);
    disk.write("e.bin", b"needle\0\0needle", 1_700_000_000);
    let result = build(&disk).grep(&disk, &literal("needle"), ROOT, 100);
    assert_eq!(result.total_matches, 3);
    assert_eq!((result.files_searched, result.files_with_matches), (3, 2));
}

#[test]
fn calls_of_a_glob_agree() {
    let disk = Disk::new(&[("a.rs", "alpha"), ("src/b.rs", "beta"), ("c.md", "gamma")]);
    let snapshot = build(&disk).snapshot();
    let files = |glob: &str| {
        let result = snapshot.glob_profiled(&glob.to_string(), &path(ROOT), true);
        (texts(&result.paths), result.scope_has_files, result.entries_visited)
    };
    for glob in ["**/*.rs", "*", "src/[ab].rs", "{a,c}.*", "["] {
        assert_eq!(files(glob), files(glob));
    }
    assert_eq!(files("["), (Vec::new(), false, 0));
    assert_eq!(files("**/*.rs").2, 3);
}
