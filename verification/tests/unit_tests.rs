//! Single functions on values written down here.

use std::collections::BTreeMap;

use search_index::artifact::artifact_cache_key;
use search_index::artifact::artifact_cache_key_memo_root_key;
use search_index::artifact::artifact_cache_key_with_memo;
use search_index::artifact::artifact_hash16;
use search_index::artifact::artifact_key_from_git_identity;
use search_index::artifact::artifact_key_from_path_identity;
use search_index::artifact::artifact_key_looks_valid;
use search_index::artifact::canonicalize_root_commit_output;
use search_index::artifact::classify_failed_probe;
use search_index::artifact::memo_entry_usable;
use search_index::artifact::memo_needs_update;
use search_index::artifact::next_probe_step;
use search_index::artifact::resolve_cache_dir_with_key;
use search_index::artifact::root_git_marker_state;
use search_index::artifact::ArtifactCacheKeyMemoEntry;
use search_index::artifact::ArtifactCacheKeyProbeError;
use search_index::artifact::GitMarkerState;
use search_index::artifact::MarkerProbe;
use search_index::artifact::ProbeStep;
use search_index::artifact::RootCommitProbe;
use search_index::artifact::RootCommitResolution;
use search_index::builder::build_chunk_size;
use search_index::builder::search_index_build_pool_size;
use search_index::codec::read_u32;
use search_index::codec::read_u64;
use search_index::codec::write_u32;
use search_index::codec::write_u64;
use search_index::file_entry::zero_hash;
use search_index::file_entry::FileEntry;
use search_index::file_entry::Timestamp;
use search_index::filters::to_glob_path;
use search_index::filters::PathFilters;
use search_index::grep::GrepMatch;
use search_index::index::SearchIndex;
use search_index::ingest::is_binary_bytes;
use search_index::ingest::is_binary_path;
use search_index::ingest::preview_len;
use search_index::lines::line_details_bytes;
use search_index::lines::line_starts_bytes;
use search_index::merge::merge_sources;
use search_index::merge::RecordSource;
use search_index::merge::VecRecordSource;
use search_index::order::intersect_sorted_ids;
use search_index::order::sort_and_dedup;
use search_index::order::union_sorted_ids;
use search_index::path::cache_relative_path;
use search_index::path::is_within_search_root;
use search_index::path::normalize_path;
use search_index::path::PathPart;
use search_index::path::SearchPath;
use search_index::path_text::cached_path_under_root;
use search_index::path_text::canonicalize_existing_or_deleted_path;
use search_index::path_text::parse_path;
use search_index::path_text::resolve_match_path;
use search_index::path_text::resolve_search_scope;
use search_index::path_text::PathProbe;
use search_index::postings::decode_postings;
use search_index::postings::insert_delta_posting;
use search_index::postings::push_posting;
use search_index::postings::Posting;
use search_index::postings::PostingReads;
use search_index::query::decompose_grep_pattern;
use search_index::query::decompose_regex;
use search_index::query::CompiledPattern;
use search_index::query::LiteralSearch;
use search_index::query::RegexQuery;
use search_index::ranking::normalized_display_sort_key;
use search_index::ranking::sort_grep_matches_by_mtime_desc;
use search_index::ranking::sort_paths_by_mtime_desc;
use search_index::records::write_spill_segment;
use search_index::records::RecordError;
use search_index::records::SpillRecord;
use search_index::records::SpillSegmentSource;
use search_index::refresh::parse_git_diff;
use search_index::refresh::steps_for_change;
use search_index::refresh::DiffChange;
use search_index::refresh::RefreshPlan;
use search_index::refresh::RefreshStep;
use search_index::text::append_number;
use search_index::text::contains_text;
use search_index::text::read_filled_lines;
use search_index::text::replace_backslashes;
use search_index::text::trim_text;
use search_index::trigram::extract_trigrams;
use search_index::trigram::mask_for_next_char;
use search_index::trigram::mask_for_position;
use search_index::trigram::normalize_char;
use search_index::trigram::pack_trigram;
use search_index::trigram::PostingFilter;
use search_index::trigram::EOF_SENTINEL;
use search_index::waiting::next_lock_step;
use search_index::waiting::LockStep;
use search_index::walk::enters;
use search_index::walk::ignore_rules_fingerprint;
use search_index::walk::is_ignore_rule_file;
use search_index::walk::sort_rule_files;
use search_index::walk::IgnoreRuleFile;
use search_index::walk::WalkCollector;

fn path(text: &str) -> SearchPath {
    parse_path(text.as_bytes())
}

fn text(path: &SearchPath) -> String {
    String::from_utf8(path.text()).unwrap()
}

fn texts(paths: &[SearchPath]) -> Vec<String> {
    paths.iter().map(text).collect()
}

fn no_probe() -> PathProbe {
    PathProbe { canonical_path: None, canonical_root: None }
}

// -------------------------------------------------------------------------------------------
// Trigrams and postings
// -------------------------------------------------------------------------------------------

#[test]
fn trigram_memory_estimate_is_zero_when_empty_and_nonzero_when_populated() {
    let mut index = SearchIndex::new();
    assert_eq!(index.estimated_memory().estimated_bytes, 0);
    let file = path("memory-estimate.rs");
    index.index_file(&file, &file, b"fn memory_estimate() {}", None);
    let estimate = index.estimated_memory();
    assert!(estimate.estimated_bytes > 0);
    assert!(estimate.delta_postings > 0);
    assert_eq!(estimate.base_postings_resident_bytes, 0);
    assert_eq!(estimate.files, 1);
    assert_eq!(estimate.delta_postings, estimate.delta_trigrams);
}

#[test]
fn extract_trigrams_tracks_next_char_and_position() {
    let trigrams = extract_trigrams(b"Rust");
    assert_eq!(trigrams.len(), 2);
    assert_eq!(trigrams[0], (pack_trigram(b'r', b'u', b's'), b't', 0));
    assert_eq!(trigrams[1], (pack_trigram(b'u', b's', b't'), EOF_SENTINEL, 1));
}

#[test]
fn trigrams_are_packed_in_three_bytes() {
    assert_eq!(pack_trigram(b'a', b'b', b'c'), 0x616263);
    assert_eq!(normalize_char(b'Q'), b'q');
    assert_eq!(normalize_char(b'['), b'[');
    assert!(extract_trigrams(b"ab").is_empty());
}

#[test]
fn index_file_trigram_filters_match_legacy_extraction() {
    let file = path("/work/sample.txt");
    let content = b"Rust rust RUST\nxy";
    let mut expected: BTreeMap<u32, (u8, u8)> = BTreeMap::new();
    for (trigram, next_char, position) in extract_trigrams(content) {
        let entry = expected.entry(trigram).or_default();
        entry.0 |= mask_for_next_char(next_char);
        entry.1 |= mask_for_position(position);
    }

    let mut index = SearchIndex::new();
    index.current.project_root = path("/work");
    index.index_file(&file, &file, content, None);

    let file_id = index.current.path_to_id.get(&file).expect("file indexed");
    let file_trigrams = index.delta_file_trigrams.get(&file_id).expect("delta file trigrams");
    assert_eq!(file_trigrams, &expected.keys().copied().collect::<Vec<_>>());
    for (trigram, (next_mask, loc_mask)) in expected {
        let postings = index.current.delta.postings.get(&trigram).expect("delta posting list");
        assert_eq!(postings.len(), 1);
        assert_eq!(postings[0].file_id, file_id);
        assert_eq!(postings[0].next_mask, next_mask);
        assert_eq!(postings[0].loc_mask, loc_mask);
    }
}

#[test]
fn decompose_regex_extracts_literals_and_alternations() {
    let query = decompose_regex("abc(def|ghi)xyz");
    assert!(query.and_trigrams.contains(&pack_trigram(b'a', b'b', b'c')));
    assert!(query.and_trigrams.contains(&pack_trigram(b'x', b'y', b'z')));
    assert_eq!(query.or_groups.len(), 1);
    assert!(query.or_groups[0].contains(&pack_trigram(b'd', b'e', b'f')));
    assert!(query.or_groups[0].contains(&pack_trigram(b'g', b'h', b'i')));
}

#[test]
fn what_guarantees_no_text_restricts_nothing() {
    for pattern in ["", "a.", "(abc)?", "[a-z]+", "ab", "(abc|de)", "(", "^$"] {
        let query = decompose_regex(pattern);
        assert!(query.and_trigrams.is_empty(), "{pattern}");
        assert!(query.or_groups.is_empty(), "{pattern}");
    }
    let repeated = decompose_regex("(abc)+");
    assert_eq!(repeated.and_trigrams, vec![pack_trigram(b'a', b'b', b'c')]);
}

#[test]
fn patterns_are_asked_for_without_regard_to_case() {
    let query = decompose_grep_pattern(&CompiledPattern::Literal(LiteralSearch {
        needle: b"ABCd".to_vec(),
        case_insensitive_ascii: false,
    }));
    assert_eq!(
        query.and_trigrams,
        vec![pack_trigram(b'a', b'b', b'c'), pack_trigram(b'b', b'c', b'd')]
    );
    let short = decompose_grep_pattern(&CompiledPattern::Literal(LiteralSearch {
        needle: b"ab".to_vec(),
        case_insensitive_ascii: false,
    }));
    assert!(short.and_trigrams.is_empty());
}

#[test]
fn candidates_intersect_posting_lists() {
    let mut index = SearchIndex::new();
    let alpha = path("/work/alpha.txt");
    let beta = path("/work/beta.txt");
    index.current.project_root = path("/work");
    index.index_file(&alpha, &alpha, b"abcdef", None);
    index.index_file(&beta, &beta, b"abcxyz", None);
    let query = RegexQuery {
        and_trigrams: vec![pack_trigram(b'a', b'b', b'c'), pack_trigram(b'd', b'e', b'f')],
        ..RegexQuery::unrestricted()
    };
    let candidates = index.candidates(&query, &PostingReads::new());
    assert_eq!(candidates.len(), 1);
    assert_eq!(text(&index.current.files[candidates[0] as usize].path), "/work/alpha.txt");
}

#[test]
fn candidates_apply_bloom_filters() {
    let mut index = SearchIndex::new();
    let file = path("/work/sample.txt");
    index.current.project_root = path("/work");
    index.index_file(&file, &file, b"abcd efgh", None);

    let trigram = pack_trigram(b'a', b'b', b'c');
    let matching_filter = PostingFilter {
        next_mask: mask_for_next_char(b'd'),
        loc_mask: mask_for_position(0),
    };
    let non_matching_filter = PostingFilter {
        next_mask: mask_for_next_char(b'z'),
        loc_mask: mask_for_position(0),
    };
    let reads = PostingReads::new();
    assert_eq!(
        index.current.postings_for_trigram(&reads, trigram, Some(matching_filter)).len(),
        1
    );
    assert!(index
        .current
        .postings_for_trigram(&reads, trigram, Some(non_matching_filter))
        .is_empty());
}

#[test]
fn out_of_order_delta_refresh_matches_full_sort_reference() {
    let files: u32 = 1_024;
    let shared_trigram = pack_trigram(b's', b'h', b'r');
    let mut optimized = Vec::new();
    let mut reference: Vec<Posting> = Vec::new();
    for file_id in (0..files).rev() {
        let posting = Posting { file_id, next_mask: 0, loc_mask: 0 };
        insert_delta_posting(&mut optimized, posting);
        reference.push(posting);
        reference.sort_by_key(|posting| posting.file_id);
    }
    assert_eq!(optimized, reference, "delta postings must stay file-id sorted");

    let mut index = SearchIndex::new();
    for file_id in 0..files {
        index.current.files.push(FileEntry {
            path: path(&format!("/delta/file-{file_id:04}.rs")),
            size: 0,
            modified: Timestamp { secs: 0, nanos: 0 },
            content_hash: zero_hash(),
        });
    }
    index.current.delta.postings.insert(shared_trigram, optimized);
    let actual = index.candidates(
        &RegexQuery { and_trigrams: vec![shared_trigram], ..RegexQuery::unrestricted() },
        &PostingReads::new(),
    );
    let expected = reference.into_iter().map(|posting| posting.file_id).collect::<Vec<_>>();
    assert_eq!(
        serde_json::to_vec(&actual).expect("serialize candidates"),
        serde_json::to_vec(&expected).expect("serialize reference candidates"),
        "candidate IDs must match the full-sort reference byte-for-byte"
    );
}

#[test]
fn an_alternation_of_overlapping_runs_can_miss_a_file() {
    let mut index = SearchIndex::new();
    let file = path("/work/a.txt");
    index.index_file(&file, &file, b"abcq", None);
    let reads = PostingReads::new();
    assert!(index.candidates(&decompose_regex("abc|zabcd"), &reads).is_empty());
    assert_eq!(index.candidates(&decompose_regex("abc|zzabd"), &reads), vec![0]);
}

#[test]
fn postings_survive_their_bytes() {
    let postings = vec![
        Posting { file_id: 1, next_mask: 2, loc_mask: 3 },
        Posting { file_id: 0x01020304, next_mask: 255, loc_mask: 0 },
    ];
    let mut bytes = Vec::new();
    for posting in &postings {
        push_posting(&mut bytes, *posting);
    }
    assert_eq!(bytes.len(), 12);
    assert_eq!(bytes[6..12], [4, 3, 2, 1, 255, 0]);
    assert_eq!(decode_postings(&bytes), postings);
}

#[test]
fn sorted_lists_meet_and_join() {
    assert_eq!(sort_and_dedup(&vec![3, 1, 3, 2]), vec![1, 2, 3]);
    assert_eq!(intersect_sorted_ids(&[1, 3, 5], &[2, 3, 5, 7]), vec![3, 5]);
    assert_eq!(union_sorted_ids(&[1, 3], &[2, 3, 4]), vec![1, 2, 3, 4]);
}

#[test]
fn numbers_survive_their_bytes() {
    let mut bytes = Vec::new();
    write_u32(&mut bytes, 0x01020304);
    write_u64(&mut bytes, 0x0102030405060708);
    assert_eq!(bytes, vec![4, 3, 2, 1, 8, 7, 6, 5, 4, 3, 2, 1]);
    assert_eq!(read_u32(&bytes, 0), 0x01020304);
    assert_eq!(read_u64(&bytes, 4), 0x0102030405060708);
}

// -------------------------------------------------------------------------------------------
// Segments and merging
// -------------------------------------------------------------------------------------------

fn record(trigram: u32, file_id: u32) -> SpillRecord {
    SpillRecord { trigram, file_id, next_mask: 1, loc_mask: 2 }
}

#[test]
fn a_segment_gives_back_its_records_in_order() {
    let block = vec![record(9, 1), record(7, 3), record(9, 0), record(7, 2)];
    let bytes = write_spill_segment(&block).unwrap();
    let mut source = SpillSegmentSource::open(bytes).unwrap();
    let mut read = Vec::new();
    while let Some(record) = source.next_record().unwrap() {
        read.push((record.trigram, record.file_id));
    }
    assert_eq!(read, vec![(7, 2), (7, 3), (9, 0), (9, 1)]);
}

#[test]
fn segments_that_are_none_are_refused() {
    assert_eq!(write_spill_segment(&Vec::new()).err(), Some(RecordError::EmptySpill));
    let bytes = write_spill_segment(&vec![record(7, 3)]).unwrap();
    assert_eq!(
        SpillSegmentSource::open(bytes[..12].to_vec()).err(),
        Some(RecordError::UnexpectedEnd)
    );
    let mut other = bytes.clone();
    other[0] ^= 1;
    assert_eq!(SpillSegmentSource::open(other).err(), Some(RecordError::InvalidSpillMagic));
    let mut newer = bytes.clone();
    newer[8] ^= 1;
    assert_eq!(SpillSegmentSource::open(newer).err(), Some(RecordError::InvalidSpillVersion));
    let mut short = SpillSegmentSource::open(bytes[..bytes.len() - 1].to_vec()).unwrap();
    assert_eq!(short.next_record().err(), Some(RecordError::UnexpectedEnd));
}

#[test]
fn sources_are_merged_by_trigram_and_file() {
    let mut sources = vec![
        RecordSource::Records(VecRecordSource::new(vec![record(1, 5), record(3, 0)])),
        RecordSource::Records(VecRecordSource::new(vec![record(1, 2), record(2, 9)])),
    ];
    let merged = merge_sources(&mut sources).unwrap();
    let table: Vec<(u32, u64, u32)> = merged
        .lookup
        .iter()
        .map(|entry| (entry.trigram, entry.offset, entry.count))
        .collect();
    assert_eq!(table, vec![(1, 0, 2), (2, 12, 1), (3, 18, 1)]);
    let ids: Vec<u32> =
        decode_postings(&merged.blob).iter().map(|posting| posting.file_id).collect();
    assert_eq!(ids, vec![2, 5, 9, 0]);
}

// -------------------------------------------------------------------------------------------
// Paths
// -------------------------------------------------------------------------------------------

#[test]
fn cached_path_under_root_allows_missing_lexical_child() {
    let root = path("/work/project");
    let full = cached_path_under_root(&root, &path("future/file.rs"), &no_probe())
        .expect("missing child should fall back to lexical validation");
    assert_eq!(text(&full), "/work/project/future/file.rs");
}

#[test]
fn cached_path_under_root_rejects_symlink_escape() {
    let root = path("/work/project");
    let probe = PathProbe {
        canonical_path: Some(path("/work/outside/secret.txt")),
        canonical_root: Some(path("/work/project")),
    };
    assert!(cached_path_under_root(&root, &path("link/secret.txt"), &probe).is_none());
}

#[test]
fn cache_path_helpers_reject_absolute_and_parent_paths() {
    let root = path("/tmp/aft-project");
    assert_eq!(
        cache_relative_path(&root, &root.join(&path("src/lib.rs"))).map(|path| text(&path)),
        Some("src/lib.rs".to_string())
    );
    assert!(cache_relative_path(&root, &path("/tmp/outside.rs")).is_none());
    assert!(cached_path_under_root(&root, &path("../outside.rs"), &no_probe()).is_none());
    assert!(cached_path_under_root(&root, &path("/tmp/outside.rs"), &no_probe()).is_none());
    assert_eq!(
        cached_path_under_root(&root, &path("src/./lib.rs"), &no_probe())
            .map(|path| text(&path)),
        Some("/tmp/aft-project/src/lib.rs".to_string())
    );
}

#[test]
fn resolve_search_scope_disables_index_for_external_path() {
    let scope = resolve_search_scope(
        &path("/work/project"),
        Some(&path("/work/outside")),
        Some(path("/work/project")),
        Some(path("/work/outside")),
    );
    assert_eq!(text(&scope.root), "/work/outside");
    assert!(!scope.use_index);
}

#[test]
fn a_scope_below_the_project_uses_the_index() {
    let scope =
        resolve_search_scope(&path("/work/project"), Some(&path("src/../docs")), None, None);
    assert_eq!(text(&scope.root), "/work/project/docs");
    assert!(scope.use_index);
}

#[test]
fn paths_are_taken_apart_and_put_together() {
    assert_eq!(text(&path("/a//b/./c/")), "/a/b/c");
    assert_eq!(text(&normalize_path(&path("/a/b/../../c/./d"))), "/c/d");
    assert!(is_within_search_root(&path("/a/b"), &path("/a/b/c")));
    assert!(!is_within_search_root(&path("/a/b"), &path("/a/bc")));
    let gone = canonicalize_existing_or_deleted_path(
        &path("/link/gone.txt"),
        None,
        Some(path("/real")),
    );
    assert_eq!(text(&gone), "/real/gone.txt");
    assert_eq!(text(&resolve_match_path(&path("/work"), &path("a/b"))), "/work/a/b");
    assert_eq!(text(&resolve_match_path(&path("/work"), &path("/a/b"))), "/a/b");
}

#[test]
fn globs_see_forward_slashes() {
    assert_eq!(to_glob_path(&path("src\\main.rs")), "src/main.rs");
}

// -------------------------------------------------------------------------------------------
// Ranking
// -------------------------------------------------------------------------------------------

#[test]
fn sort_paths_by_mtime_desc_uses_root_relative_tiebreak() {
    let names = ["z-last.rs", "a-first.rs", "m-middle.rs"];
    let paths: Vec<SearchPath> =
        names.iter().map(|name| path(&format!("/work/{name}"))).collect();
    let comparison = paths.clone();
    let tied = vec![Some(Timestamp { secs: 1_700_000_000, nanos: 0 }); 3];
    let sorted = sort_paths_by_mtime_desc(&paths, &path("/work"), &comparison, &tied);
    assert_eq!(
        texts(&sorted),
        vec!["/work/a-first.rs", "/work/m-middle.rs", "/work/z-last.rs"]
    );
}

#[test]
fn sort_paths_by_mtime_desc_normalizes_comparison_paths_without_rewriting_results() {
    let canonical_first = path("/private/work/a-first.rs");
    let clean_last = path("/work/z-last.rs");
    let paths = vec![clean_last.clone(), canonical_first.clone()];
    let comparison = vec![path("/private/work/z-last.rs"), canonical_first];
    let tied = vec![Some(Timestamp { secs: 1_700_000_000, nanos: 0 }); 2];
    let sorted = sort_paths_by_mtime_desc(&paths, &path("/private/work"), &comparison, &tied);
    assert_eq!(texts(&sorted), vec!["/private/work/a-first.rs", "/work/z-last.rs"]);
}

#[test]
fn newer_files_come_first_and_missing_ones_last() {
    let paths = vec![path("/work/a"), path("/work/b"), path("/work/c")];
    let mtimes = vec![
        None,
        Some(Timestamp { secs: 5, nanos: 0 }),
        Some(Timestamp { secs: 5, nanos: 1 }),
    ];
    let sorted = sort_paths_by_mtime_desc(&paths, &path("/work"), &paths, &mtimes);
    assert_eq!(texts(&sorted), vec!["/work/c", "/work/b", "/work/a"]);
}

#[test]
fn sort_paths_by_mtime_desc_does_not_panic_on_missing_files() {
    let mut paths: Vec<SearchPath> = Vec::new();
    let mut mtimes = Vec::new();
    for i in 0..30 {
        if i % 2 == 0 {
            paths.push(path(&format!("/work/real-{i}.rs")));
            mtimes.push(Some(Timestamp { secs: i, nanos: 0 }));
        } else {
            paths.push(path(&format!("/work/missing-{i}.rs")));
            mtimes.push(None);
        }
    }
    for _ in 0..50 {
        let copy = sort_paths_by_mtime_desc(&paths, &path("/work"), &paths, &mtimes);
        assert_eq!(copy.len(), paths.len());
    }
}

#[test]
fn sort_grep_matches_by_mtime_desc_does_not_panic_on_missing_files() {
    let mut matches: Vec<GrepMatch> = Vec::new();
    let mut mtimes = Vec::new();
    for i in 0..30 {
        let file = if i % 2 == 0 {
            mtimes.push(Some(Timestamp { secs: i, nanos: 0 }));
            path(&format!("/work/real-{i}.rs"))
        } else {
            mtimes.push(None);
            path(&format!("/work/missing-{i}.rs"))
        };
        matches.push(GrepMatch {
            file,
            line: u32::try_from(i).unwrap_or(0),
            column: 0,
            line_text: format!("match {i}"),
            match_text: format!("match {i}"),
        });
    }
    for _ in 0..50 {
        let copy = sort_grep_matches_by_mtime_desc(&matches, &path("/work"), &mtimes);
        assert_eq!(copy.len(), matches.len());
        assert_eq!(copy[0].line, 28);
    }
}

#[test]
fn ties_are_broken_by_the_path_below_the_root() {
    assert_eq!(
        normalized_display_sort_key(&path("/work"), &path("/work/src/a.rs")),
        "src/a.rs"
    );
}

// -------------------------------------------------------------------------------------------
// Content
// -------------------------------------------------------------------------------------------

#[test]
fn lines_and_columns_are_counted_from_one() {
    let content = "one\r\nt\u{e4}o three\nfour".as_bytes();
    let starts = line_starts_bytes(content);
    assert_eq!(starts, vec![0, 5, 16]);
    let (line, column, text) = line_details_bytes(content, &starts, 5 + 5);
    assert_eq!((line, column, text.as_str()), (2, 5, "t\u{e4}o three"));
    let (line, column, text) = line_details_bytes(content, &starts, 1);
    assert_eq!((line, column, text.as_str()), (1, 2, "one"));
}

#[test]
fn binary_content_is_told_apart() {
    assert!(is_binary_bytes(&[b'a', 0, b'b']));
    assert!(!is_binary_bytes("plain t\u{e4}xt".as_bytes()));
    assert!(is_binary_bytes(b"%PDF-1.4"));
    assert!(!is_binary_bytes(&[0xEF, 0xBB, 0xBF, 0]));
    assert!(!is_binary_path(0, &None));
    assert!(is_binary_path(5, &None));
    assert_eq!(preview_len(10), 10);
    assert_eq!(preview_len(100_000), 8192);
}

#[test]
fn texts_are_trimmed_split_and_searched() {
    assert_eq!(trim_text(" \u{a0}a b\t\r\n"), "a b");
    assert_eq!(read_filled_lines("a\r\n\n  b \n \t\n"), vec!["a", "b"]);
    assert!(contains_text("fatal: not a git repository", "not a git"));
    assert!(!contains_text("not", "not a"));
    let mut number = String::new();
    append_number(&mut number, -128);
    append_number(&mut number, 0);
    assert_eq!(number, "-1280");
}

// -------------------------------------------------------------------------------------------
// Keys
// -------------------------------------------------------------------------------------------

fn grafted_history_test_roots() -> [&'static str; 3] {
    [
        "7e96b9e0000000000000000000000000000000",
        "1e394c20000000000000000000000000000000",
        "40587520000000000000000000000000000000",
    ]
}

fn artifact_key_from_root_commit_output(stdout: &[u8]) -> String {
    match canonicalize_root_commit_output(stdout) {
        RootCommitProbe::Commit(root_commit) => artifact_key_from_git_identity(&root_commit),
        other => panic!("root commit output gave {other:?}"),
    }
}

#[test]
fn artifact_cache_key_canonicalizes_all_root_permutations() {
    let roots = grafted_history_test_roots();
    let mut sorted_roots = roots;
    sorted_roots.sort_unstable();
    let expected_commit = sorted_roots.join("\n");
    let expected_key = artifact_key_from_git_identity(&expected_commit);
    let permutations = [
        [roots[0], roots[1], roots[2]],
        [roots[0], roots[2], roots[1]],
        [roots[1], roots[0], roots[2]],
        [roots[1], roots[2], roots[0]],
        [roots[2], roots[0], roots[1]],
        [roots[2], roots[1], roots[0]],
    ];
    for permutation in permutations {
        let output = format!("{}\n", permutation.join("\n"));
        let RootCommitProbe::Commit(canonical) =
            canonicalize_root_commit_output(output.as_bytes())
        else {
            panic!("root permutation did not produce a commit");
        };
        assert_eq!(canonical, expected_commit);
        assert_eq!(artifact_key_from_git_identity(&canonical), expected_key);
    }
}

#[test]
fn artifact_cache_key_deduplicates_repeated_roots() {
    let root = grafted_history_test_roots()[0];
    let one_root = format!("{root}\n");
    let duplicate_root = format!("{root}\n{root}\n");
    assert_eq!(
        artifact_key_from_root_commit_output(one_root.as_bytes()),
        artifact_key_from_root_commit_output(duplicate_root.as_bytes())
    );
}

#[test]
fn artifact_cache_key_ignores_blank_whitespace_and_crlf_lines() {
    let roots = grafted_history_test_roots();
    let clean = format!("{}\n{}\n", roots[0], roots[1]);
    let decorated = format!(" \r\n\t{}  \r\n{}\t\r\n\r\n", roots[1], roots[0]);
    assert_eq!(
        artifact_key_from_root_commit_output(clean.as_bytes()),
        artifact_key_from_root_commit_output(decorated.as_bytes())
    );
}

#[test]
fn artifact_cache_key_single_root_matches_the_old_trimmed_derivation() {
    let root = grafted_history_test_roots()[0];
    let output = format!("{root}\n");
    let old_trimmed = String::from_utf8_lossy(output.as_bytes()).trim().to_string();
    let old_key = artifact_hash16(old_trimmed.as_bytes());
    let RootCommitProbe::Commit(canonical) = canonicalize_root_commit_output(output.as_bytes())
    else {
        panic!("single root output did not produce a commit");
    };
    assert_eq!(canonical, root);
    assert_eq!(artifact_key_from_git_identity(&canonical), old_key);
}

#[test]
fn artifact_cache_key_empty_canonical_root_output_is_no_commit() {
    assert!(matches!(
        canonicalize_root_commit_output(b" \r\n\t\n\r\n"),
        RootCommitProbe::NoCommit
    ));
}

#[test]
fn a_key_is_the_front_of_a_digest() {
    let key = artifact_hash16(b"abc");
    assert_eq!(key, "ba7816bf8f01cfea");
    assert!(artifact_key_looks_valid(&key));
    assert!(artifact_key_looks_valid("BA7816BF8F01CFEA"));
    assert!(!artifact_key_looks_valid("ba7816bf8f01cfe"));
    assert!(!artifact_key_looks_valid("ba7816bf8f01cfeg"));
}

fn with_memo(
    root: &SearchPath,
    marker: &GitMarkerState,
    resolution: &RootCommitResolution,
    memo: Option<&str>,
) -> (Result<String, ArtifactCacheKeyProbeError>, bool) {
    let decision = artifact_cache_key_with_memo(
        root,
        None,
        root,
        marker,
        resolution,
        memo.map(|key| key.to_string()),
        b'/',
    );
    (decision.key, decision.remember)
}

fn git_like_root() -> SearchPath {
    path("/work/repo")
}

fn failure() -> RootCommitResolution {
    RootCommitResolution::Failed("spawn failed: Too many open files (os error 24)".to_string())
}

#[test]
fn artifact_cache_key_success_writes_memo() {
    let root = git_like_root();
    let commit = "aaaaaaaaaaaaaaaaaaaaaaaaaaaaaaaaaaaaaaaa".to_string();
    let (key, remember) = with_memo(
        &root,
        &GitMarkerState::Present,
        &RootCommitResolution::Commit(commit.clone()),
        None,
    );
    let key = key.expect("cache key from successful probe");
    assert_eq!(key, artifact_key_from_git_identity(&commit));
    assert!(remember);
    assert!(memo_needs_update(None, &key, &commit));
    let entry = ArtifactCacheKeyMemoEntry {
        key: key.clone(),
        git_root_commit: commit.clone(),
        recorded_at_ms: 1,
    };
    assert!(memo_entry_usable(&artifact_cache_key_memo_root_key(&root, b'/'), &entry));
    assert!(!memo_needs_update(Some(&entry), &key, &commit));
}

#[test]
fn artifact_cache_key_memo_round_trip_uses_canonical_root_set() {
    let roots = grafted_history_test_roots();
    let mut sorted_roots = roots;
    sorted_roots.sort_unstable();
    let canonical = sorted_roots.join("\n");
    let expected_key = artifact_key_from_git_identity(&canonical);
    let first_output = format!("{}\n{}\n{}\n", roots[2], roots[0], roots[1]);
    let second_output = format!("{}\n{}\n{}\n", roots[1], roots[2], roots[0]);
    let mut memo: Option<ArtifactCacheKeyMemoEntry> = None;
    for output in [first_output, second_output] {
        let RootCommitProbe::Commit(commit) = canonicalize_root_commit_output(output.as_bytes())
        else {
            panic!("no commit");
        };
        let (key, remember) = with_memo(
            &git_like_root(),
            &GitMarkerState::Present,
            &RootCommitResolution::Commit(commit.clone()),
            None,
        );
        let key = key.expect("canonical key");
        assert_eq!(key, expected_key);
        assert!(remember);
        let first = memo.is_none();
        assert_eq!(memo_needs_update(memo.as_ref(), &key, &commit), first);
        memo = Some(ArtifactCacheKeyMemoEntry {
            key,
            git_root_commit: commit,
            recorded_at_ms: 7,
        });
    }
    assert_eq!(memo.unwrap().git_root_commit, canonical);
}

#[test]
fn artifact_cache_key_replaces_old_unsorted_memo_entry() {
    let roots = grafted_history_test_roots();
    let unsorted = format!("{}\n{}", roots[2], roots[0]);
    let RootCommitProbe::Commit(canonical) =
        canonicalize_root_commit_output(unsorted.as_bytes())
    else {
        panic!("no commit");
    };
    let seeded = ArtifactCacheKeyMemoEntry {
        key: artifact_key_from_git_identity(&unsorted),
        git_root_commit: unsorted.clone(),
        recorded_at_ms: 1,
    };
    let key = artifact_key_from_git_identity(&canonical);
    assert_eq!(memo_needs_update(Some(&seeded), &key, &canonical), unsorted != canonical);
    let reversed = format!("{}\n{}", roots[0], roots[2]);
    assert!(memo_needs_update(Some(&seeded), &key, &reversed));
}

#[test]
fn artifact_cache_key_shared_across_clones_of_same_repo() {
    let resolution = RootCommitResolution::Commit("c0ffee".to_string());
    let source_key = artifact_cache_key(&path("/work/source"), None, &resolution, b'/');
    let clone_key = artifact_cache_key(&path("/work/clone"), None, &resolution, b'/');
    assert_eq!(source_key.len(), 16);
    assert_eq!(clone_key.len(), 16);
    assert_eq!(source_key, clone_key);
    let plain = RootCommitResolution::NotARepo;
    assert_ne!(
        artifact_cache_key(&path("/work/source"), None, &plain, b'/'),
        artifact_cache_key(&path("/work/clone"), None, &plain, b'/')
    );
}

#[test]
fn artifact_cache_key_probe_failure_uses_memoized_key() {
    let root = git_like_root();
    let commit = "bbbbbbbbbbbbbbbbbbbbbbbbbbbbbbbbbbbbbbbb".to_string();
    let expected_key = artifact_key_from_git_identity(&commit);
    let (rescued, remember) =
        with_memo(&root, &GitMarkerState::Present, &failure(), Some(&expected_key));
    let rescued = rescued.expect("memo should rescue transient probe failure");
    assert_eq!(rescued, expected_key);
    assert!(!remember);
    assert_ne!(rescued, artifact_key_from_path_identity(&root, None, b'/'));
}

#[test]
fn artifact_cache_key_probe_failure_without_memo_rejects_git_like_root() {
    let root = git_like_root();
    let (key, _) = with_memo(&root, &GitMarkerState::Present, &failure(), None);
    let error = key.expect_err("git-like root without memo must not use path identity");
    assert!(error.root().same_as(&root));
    assert!(error.detail().contains("Too many open files"));
    assert_eq!(
        error.message(b'/'),
        "artifact cache key probe failed for /work/repo: spawn failed: Too many open files (os error 24)"
    );
}

#[test]
fn artifact_cache_key_probe_failure_without_git_marker_uses_path_identity() {
    let root = path("/work/plain");
    let (key, _) = with_memo(&root, &GitMarkerState::Absent, &failure(), None);
    let key = key.expect("non-git root keeps legacy path identity fallback");
    assert_eq!(key, artifact_key_from_path_identity(&root, None, b'/'));
}

#[test]
fn artifact_cache_key_corrupt_memo_is_absent_not_a_path_identity_escape() {
    let corrupt = ArtifactCacheKeyMemoEntry {
        key: "not json".to_string(),
        git_root_commit: "abc".to_string(),
        recorded_at_ms: 1,
    };
    assert!(!memo_entry_usable("/work/repo", &corrupt));
    let (key, _) = with_memo(&git_like_root(), &GitMarkerState::Present, &failure(), None);
    assert!(key.expect_err("an error").detail().contains("Too many open files"));
}

#[test]
fn unknown_markers_and_cancelled_probes_are_told() {
    let marker = root_git_marker_state(
        &path("/work/repo/.git"),
        false,
        &MarkerProbe::Error("permission denied".to_string()),
        b'/',
    );
    let (key, _) = with_memo(&git_like_root(), &marker, &failure(), None);
    assert_eq!(
        key.expect_err("an error").detail(),
        "spawn failed: Too many open files (os error 24); failed to inspect git marker \
         /work/repo/.git: permission denied"
    );
    let (key, _) = with_memo(
        &git_like_root(),
        &GitMarkerState::Present,
        &RootCommitResolution::Cancelled,
        Some("0123456789abcdef"),
    );
    assert_eq!(key.expect_err("an error").detail(), "artifact cache key probe cancelled");
    assert!(matches!(
        root_git_marker_state(&path("/x/.git"), false, &MarkerProbe::NotFound, b'/'),
        GitMarkerState::Absent
    ));
    assert!(matches!(
        root_git_marker_state(&path("/x/.git"), true, &MarkerProbe::NotFound, b'/'),
        GitMarkerState::Present
    ));
}

#[test]
fn failed_probes_are_told_apart() {
    assert!(matches!(
        classify_failed_probe(Some(128), b"fatal: not a git repository (or any parent)"),
        RootCommitProbe::NotARepo
    ));
    assert!(matches!(
        classify_failed_probe(Some(128), b"fatal: bad revision 'HEAD'"),
        RootCommitProbe::NoCommit
    ));
    let RootCommitProbe::Transient(detail) = classify_failed_probe(Some(1), b"  odd failure\n")
    else {
        panic!("not transient");
    };
    assert_eq!(detail, "exit Some(1): odd failure");
    let RootCommitProbe::Transient(detail) = classify_failed_probe(None, b"killed") else {
        panic!("not transient");
    };
    assert_eq!(detail, "exit None: killed");
}

#[test]
fn probes_are_repeated_twice_at_most() {
    let transient = || RootCommitProbe::Transient("busy".to_string());
    assert!(matches!(next_probe_step(0, false, transient()), ProbeStep::Retry(50)));
    assert!(matches!(next_probe_step(1, false, transient()), ProbeStep::Retry(100)));
    assert!(matches!(
        next_probe_step(2, false, transient()),
        ProbeStep::Done(RootCommitResolution::Failed(detail)) if detail == "busy"
    ));
    assert!(matches!(
        next_probe_step(0, true, transient()),
        ProbeStep::Done(RootCommitResolution::Cancelled)
    ));
    assert!(matches!(
        next_probe_step(0, false, RootCommitProbe::NoCommit),
        ProbeStep::Done(RootCommitResolution::NotARepo)
    ));
}

#[test]
fn caches_are_kept_by_key() {
    let dir = resolve_cache_dir_with_key("0123456789abcdef", None, None, path("/home/x/.aft"));
    assert_eq!(text(&dir), "/home/x/.aft/index/0123456789abcdef");
    let dir = resolve_cache_dir_with_key(
        "k",
        Some(path("/override")),
        Some(path("/storage")),
        path("/home/x/.aft"),
    );
    assert_eq!(text(&dir), "/override/index/k");
}

// -------------------------------------------------------------------------------------------
// Walking and refreshing
// -------------------------------------------------------------------------------------------

#[test]
fn walks_leave_out_what_tools_put_there() {
    assert!(!enters(b"node_modules", true));
    assert!(!enters(b".git", true));
    assert!(enters(b"node_modules", false));
    assert!(enters(b"src", true));
    assert!(is_ignore_rule_file(b".gitignore"));
    assert!(is_ignore_rule_file(b".aftignore"));
    assert!(!is_ignore_rule_file(b"gitignore"));
}

#[test]
fn a_walk_ends_once_there_are_too_many_files() {
    let mut collector = WalkCollector::new(Some(1));
    let filters = PathFilters::none();
    let root = path("/work");
    assert_eq!(collector.offer(&filters, &root, path("/work/a"), true), Ok(()));
    assert_eq!(collector.offer(&filters, &root, path("/work/b"), false), Ok(()));
    assert_eq!(collector.offer(&filters, &root, path("/work/c"), true), Err(2));
    assert_eq!(texts(&collector.files), vec!["/work/a", "/work/c"]);
}

#[test]
fn the_fingerprint_follows_the_rules() {
    let found = vec![path("/work/b/.gitignore"), path("/work/.gitignore"), path("/work/.gitignore")];
    let sorted = sort_rule_files(&found);
    assert_eq!(texts(&sorted), vec!["/work/.gitignore", "/work/b/.gitignore"]);
    let files = |first: &[u8]| {
        vec![
            IgnoreRuleFile { path: path("/work/.gitignore"), content: Ok(first.to_vec()) },
            IgnoreRuleFile { path: path("/etc/ignore"), content: Err("gone".to_string()) },
        ]
    };
    let root = path("/work");
    let fingerprint = ignore_rules_fingerprint(&root, &files(b"*.o\n"), b'/');
    let bytes = b"aft-ignore-rules-v1\0.gitignore\0*.o\n\0/etc/ignore\0read-error:gone\0";
    let digest = <sha2::Sha256 as sha2::Digest>::digest(bytes);
    let expected: String = digest.iter().map(|byte| format!("{byte:02x}")).collect();
    assert_eq!(fingerprint, expected);
    assert_eq!(fingerprint.len(), 64);
    assert_ne!(fingerprint, ignore_rules_fingerprint(&root, &files(b"*.a\n"), b'/'));
}

#[test]
fn diffs_are_read_line_by_line() {
    let changes = parse_git_diff(
        b"M\tsrc/a.rs\nD\tsrc/b.rs\nR087\told.rs\tnew.rs\nR100\tlost.rs\nM\n\n".to_vec(),
    )
    .unwrap();
    assert_eq!(changes.len(), 3);
    let root = path("/work");
    let steps = |change: &DiffChange, exists: bool| -> Vec<String> {
        steps_for_change(&root, change, &no_probe(), &no_probe(), exists)
            .iter()
            .map(|step| match step {
                RefreshStep::Remove(path) => format!("remove {}", text(path)),
                RefreshStep::Update(path) => format!("update {}", text(path)),
            })
            .collect()
    };
    assert_eq!(steps(&changes[0], true), vec!["update /work/src/a.rs"]);
    assert_eq!(steps(&changes[0], false), vec!["remove /work/src/a.rs"]);
    assert_eq!(steps(&changes[1], true), vec!["remove /work/src/b.rs"]);
    assert_eq!(steps(&changes[2], true), vec!["remove /work/old.rs", "update /work/new.rs"]);
    let outside = parse_git_diff(b"M\t../x".to_vec()).unwrap();
    assert!(steps(&outside[0], true).is_empty());
    assert!(parse_git_diff(vec![0xff]).is_none());
}

#[test]
fn the_plan_follows_size_rules_and_head() {
    let plan = |size: u64, rules: &str, old: Option<&str>, new: Option<&str>| -> RefreshPlan {
        let mut index = SearchIndex::new();
        index.max_file_size = 10;
        index.ignore_rules_fingerprint = "rules".to_string();
        index.git_head = old.map(|head| head.to_string());
        index.begin_refresh(path("/work"), size, rules, &new.map(|head| head.to_string()))
    };
    assert!(matches!(plan(11, "rules", None, None), RefreshPlan::Build));
    assert!(matches!(plan(10, "other", None, None), RefreshPlan::Build));
    assert!(matches!(plan(10, "rules", Some("a"), None), RefreshPlan::Verify));
    assert!(matches!(plan(10, "rules", Some("a"), Some("a")), RefreshPlan::Verify));
    assert!(matches!(plan(10, "rules", None, Some("a")), RefreshPlan::Build));
    assert!(matches!(
        plan(10, "rules", Some("a"), Some("b")),
        RefreshPlan::ApplyDiff { from, to } if from == "a" && to == "b"
    ));
}

#[test]
fn builds_take_half_the_machine() {
    let sizes: Vec<usize> =
        [0, 1, 2, 3, 4, 15, 16, 64].iter().map(|n| search_index_build_pool_size(*n)).collect();
    assert_eq!(sizes, vec![1, 1, 1, 2, 2, 8, 8, 8]);
    assert_eq!(build_chunk_size(1), 4);
    assert_eq!(build_chunk_size(8), 32);
}

#[test]
fn paths_are_shown_as_the_platform_shows_them() {
    let windows = SearchPath {
        parts: vec![
            PathPart::Prefix(b"C:".to_vec()),
            PathPart::RootDir,
            PathPart::Normal(b"work".to_vec()),
            PathPart::Normal(b"repo".to_vec()),
        ],
    };
    assert_eq!(windows.shown(b'\\'), "C:\\work\\repo");
    assert_eq!(path("/work/repo").shown(b'/'), "/work/repo");
    assert_eq!(
        artifact_key_from_path_identity(&windows, None, b'\\'),
        artifact_hash16(b"C:\\work\\repo")
    );
    let scope = resolve_search_scope(&path("/work"), Some(&windows), None, None);
    assert!(scope.root.same_as(&windows));
    assert!(!scope.use_index);
}

#[test]
fn backslashes_are_shown_as_slashes() {
    assert_eq!(replace_backslashes("a\\b/c\\\\"), "a/b/c//");
    assert_eq!(replace_backslashes("plain"), "plain");
}

#[test]
fn a_lock_is_waited_for_in_short_steps() {
    assert_eq!(next_lock_step(false, 5), LockStep::Take);
    assert_eq!(next_lock_step(false, 0), LockStep::Take);
    assert_eq!(next_lock_step(true, 0), LockStep::GiveUp);
    assert_eq!(next_lock_step(true, 999_999), LockStep::Wait(999_999));
    assert_eq!(next_lock_step(true, 1_000_000), LockStep::Wait(1_000_000));
    assert_eq!(next_lock_step(true, u64::MAX), LockStep::Wait(1_000_000));
}

#[test]
fn contended_read_returns_within_interactive_budget() {
    let millis: u64 = 1_000_000;
    let budget = 20 * millis;
    let released = 75 * millis;
    let mut elapsed: u64 = 0;
    let acquired = loop {
        match next_lock_step(elapsed < released, budget.saturating_sub(elapsed)) {
            LockStep::Take => break true,
            LockStep::GiveUp => break false,
            LockStep::Wait(nanos) => elapsed += nanos,
        }
    };
    assert!(!acquired, "a live writer must force bounded degradation");
    assert!(elapsed < 60 * millis, "contended read exceeded its 20ms budget: {elapsed:?}");
    assert_eq!(elapsed, budget);
}
