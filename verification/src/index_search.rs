//! Searches over the current version of the index.

use crate::filters::PathFilters;
use crate::grep::searchable;
use crate::index::saturated;
use crate::index::SearchIndex;
use crate::lexical::token_trigrams;
use crate::lexical::token_views;
use crate::order::strictly_ascending;
use crate::path::SearchPath;
use crate::postings::PostingReads;
use crate::query::CompiledPattern;
use crate::query::RegexQuery;
use crate::search::globs;
use crate::search::grep_finds;
use crate::search::GlobResult;
use crate::search::GrepResult;
use std::collections::HashMap;
use vstd::prelude::*;

verus! {

impl SearchIndex {
    /// The files that may hold a match of the query, in ascending order.
    pub fn candidates(&self, query: &RegexQuery, reads: &PostingReads) -> (ids: Vec<u32>)
        requires
            self.current.well_formed(),
        ensures
            strictly_ascending(ids@),
            forall|id: u32| #[trigger]
                ids@.contains(id) <==> self.current@.is_candidate(*reads, *query, id),
    {
        self.current.candidates(query, reads)
    }

    /// Searches for what a pattern was compiled to; what is no pattern is found nowhere.
    pub fn grep(
        &self,
        compiled: Option<&CompiledPattern>,
        reads: &PostingReads,
        filters: &PathFilters,
        search_root: &SearchPath,
        max_results: usize,
        contents: &HashMap<u32, Vec<u8>>,
    ) -> (result: GrepResult)
        requires
            self.current.well_formed(),
            compiled matches Some(pattern) ==> searchable(*pattern),
        ensures
            compiled is None ==> result.is_blank(self.current.ready),
            compiled matches Some(pattern) ==> grep_finds(
                self.current@,
                *pattern,
                *reads,
                *filters,
                search_root@,
                Seq::empty(),
                max_results,
                contents@,
                result,
            ),
    {
        self.current.grep(compiled, reads, filters, search_root, max_results, contents)
    }

    /// Searches the files of the index for a pattern. `contents` holds what the files hold; a file
    /// without an entry cannot be read.
    pub fn search_grep(
        &self,
        pattern: &CompiledPattern,
        reads: &PostingReads,
        filters: &PathFilters,
        search_root: &SearchPath,
        max_results: usize,
        contents: &HashMap<u32, Vec<u8>>,
    ) -> (result: GrepResult)
        requires
            self.current.well_formed(),
            searchable(*pattern),
        ensures
            grep_finds(
                self.current@,
                *pattern,
                *reads,
                *filters,
                search_root@,
                Seq::empty(),
                max_results,
                contents@,
                result,
            ),
    {
        self.current.search_grep(pattern, reads, filters, search_root, max_results, contents)
    }

    /// The files in scope that a glob matches, newest first.
    pub fn glob(&self, pattern: &String, search_root: &SearchPath) -> (paths: Vec<SearchPath>)
        ensures
            exists|result: GlobResult| #[trigger]
                globs(self.current@, pattern@, search_root@, true, result) && result.paths == paths,
    {
        self.current.glob(pattern, search_root)
    }

    /// Number of distinct trigrams, on disk and since.
    pub fn trigram_count(&self) -> (count: usize)
        requires
            self.current.well_formed(),
        ensures
            count == saturated(self.current@.trigram_total()),
    {
        self.current.trigram_count()
    }

    /// The trigrams of the tokens of a query, each once, in the order of their first place.
    pub fn query_trigrams_from_tokens(tokens: &[&str]) -> (trigrams: Vec<u32>)
        ensures
            trigrams@ == token_trigrams(token_views(tokens@), tokens@.len() as int),
    {
        crate::lexical::query_trigrams_from_tokens(tokens)
    }
}

} // verus!
