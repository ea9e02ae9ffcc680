//! A trigram index over the files of a project, with the searches that run on it.

pub mod artifact;
pub mod builder;
pub mod builder_laws;
pub mod cache_laws;
pub mod cache_load;
pub mod cache_read;
pub mod cache_stream;
pub mod codec;
pub mod compact;
pub mod compact_laws;
pub mod completeness;
pub mod entry_laws;
pub mod file_entry;
pub mod filter_laws;
pub mod filters;
pub mod format;
pub mod freshness_laws;
pub mod grep;
pub mod grep_laws;
pub mod index;
pub mod index_laws;
pub mod index_search;
pub mod ingest;
pub mod ingest_laws;
pub mod kept_laws;
pub mod key_laws;
pub mod layout_laws;
pub mod ledger;
pub mod lexical;
pub mod lexical_laws;
pub mod line_laws;
pub mod lines;
pub mod load_laws;
pub mod match_laws;
pub mod memory;
pub mod merge;
pub mod merge_laws;
pub mod order;
pub mod outside;
pub mod path;
pub mod path_laws;
pub mod path_table;
pub mod path_text;
pub mod posting_laws;
pub mod postings;
pub mod query;
pub mod query_laws;
pub mod ranking;
pub mod ranking_laws;
pub mod records;
pub mod refresh;
pub mod refresh_laws;
pub mod round_trip;
pub mod scope_laws;
pub mod search;
pub mod search_laws;
pub mod segment_window;
pub mod snapshot;
pub mod snapshot_laws;
pub mod storage_laws;
pub mod stream_laws;
pub mod stream_merge;
pub mod tally;
pub mod text;
pub mod text_laws;
pub mod trigram;
pub mod trigram_laws;
pub mod upkeep;
pub mod waiting;
pub mod walk;
