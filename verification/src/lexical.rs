//! Ranking files by how many trigrams of a query they hold.

use crate::compact::list_keys;
use crate::index::saturated;
use crate::order::is_sorting_order;
use crate::order::sorting_order;
use crate::order::strictly_ascending;
use crate::order::union_sorted_ids;
use crate::path::SearchPath;
use crate::postings::entry_for;
use crate::postings::lookup_holds;
use crate::postings::readable;
use crate::postings::BasePostings;
use crate::postings::LookupEntry;
use crate::postings::PostingReads;
use crate::postings::ReadRequest;
use crate::query::append_new;
use crate::query::holds;
use crate::query::RegexQuery;
use crate::records::reordered;
use crate::snapshot::SearchIndexSnapshot;
use crate::snapshot::SnapshotView;
use crate::trigram::scan_trigram;
use crate::trigram::trigram_at;
use crate::trigram::trigram_positions;
use std::collections::HashMap;
use vstd::prelude::*;
use vstd::utf8::encode_utf8;

verus! {

// ---------------------------------------------------------------------------------------------
// Trigrams of a query
// ---------------------------------------------------------------------------------------------

/// The trigrams of a text, position by position.
pub open spec fn text_trigrams(text: Seq<u8>) -> Seq<u32> {
    Seq::new(trigram_positions(text) as nat, |i: int| trigram_at(text, i))
}

/// The distinct trigrams of the first `count` tokens, each where it first comes up.
pub open spec fn token_trigrams(tokens: Seq<Seq<char>>, count: int) -> Seq<u32>
    decreases count,
{
    if count <= 0 {
        Seq::empty()
    } else {
        append_new(
            token_trigrams(tokens, count - 1),
            text_trigrams(encode_utf8(tokens[count - 1])),
        )
    }
}

pub open spec fn token_views(tokens: Seq<&str>) -> Seq<Seq<char>> {
    tokens.map_values(|token: &str| token@)
}

/// Distinct trigrams of literal tokens.
pub fn query_trigrams_from_tokens(tokens: &[&str]) -> (trigrams: Vec<u32>)
    ensures
        trigrams@ == token_trigrams(token_views(tokens@), tokens@.len() as int),
{
    let ghost views = token_views(tokens@);
    let mut out: Vec<u32> = Vec::new();
    let mut k: usize = 0;
    while k < tokens.len()
        invariant
            views == token_views(tokens@),
            k <= tokens@.len(),
            out@ == token_trigrams(views, k as int),
        decreases tokens@.len() - k,
    {
        let text: &[u8] = tokens[k].as_bytes();
        let ghost all = text_trigrams(text@);
        let ghost before = out@;
        assert(views[k as int] == tokens@[k as int]@);
        if text.len() >= 3 {
            let end: usize = text.len() - 2;
            let mut start: usize = 0;
            assert(all.take(0) =~= Seq::<u32>::empty());
            while start < end
                invariant
                    end == text@.len() - 2,
                    all == text_trigrams(text@),
                    start <= end,
                    out@ == append_new(before, all.take(start as int)),
                decreases end - start,
            {
                let (trigram, _) = scan_trigram(text, start);
                proof {
                    assert(all.take(start + 1).drop_last() =~= all.take(start as int));
                    assert(all.take(start + 1).last() == trigram);
                }
                if !holds(&out, trigram) {
                    out.push(trigram);
                }
                start += 1;
            }
            assert(all.take(start as int) =~= all);
        } else {
            assert(all =~= Seq::<u32>::empty());
        }
        k += 1;
    }
    out
}

// ---------------------------------------------------------------------------------------------
// What is read
// ---------------------------------------------------------------------------------------------

/// The piece of the cache file that holds the list of `trigram`, where there is one that can be read.
pub open spec fn request_for(base: Option<BasePostings>, trigram: u32) -> Option<ReadRequest> {
    match base {
        Some(base) => match entry_for(base.lookup@, trigram) {
            Some(entry) => if readable(base, entry) {
                Some(
                    ReadRequest {
                        trigram: entry.trigram,
                        offset: (base.postings_blob_start + entry.offset) as u64,
                        len: (entry.count * 6) as usize,
                    },
                )
            } else {
                None
            },
            None => None,
        },
        None => None,
    }
}

/// The pieces for the first `count` of `trigrams`, each trigram once.
pub open spec fn requests_for(base: Option<BasePostings>, trigrams: Seq<u32>, count: int) -> Seq<
    ReadRequest,
>
    decreases count,
{
    if count <= 0 {
        Seq::empty()
    } else {
        let earlier = requests_for(base, trigrams, count - 1);
        match request_for(base, trigrams[count - 1]) {
            Some(request) => if trigrams.take(count - 1).contains(trigrams[count - 1]) {
                earlier
            } else {
                earlier.push(request)
            },
            None => earlier,
        }
    }
}

/// The trigrams that the first `count` groups of a query speak of.
pub open spec fn group_trigrams(groups: Seq<Vec<u32>>, count: int) -> Seq<u32>
    decreases count,
{
    if count <= 0 {
        Seq::empty()
    } else {
        group_trigrams(groups, count - 1) + groups[count - 1]@
    }
}

impl RegexQuery {
    /// All trigrams that the query speaks of.
    pub fn all_trigrams(&self) -> (trigrams: Vec<u32>)
        ensures
            trigrams@ == self.and_trigrams@ + group_trigrams(
                self.or_groups@,
                self.or_groups@.len() as int,
            ),
    {
        let mut trigrams = self.and_trigrams.clone();
        assert(trigrams@ =~= self.and_trigrams@ + group_trigrams(self.or_groups@, 0));
        let mut g: usize = 0;
        while g < self.or_groups.len()
            invariant
                g <= self.or_groups@.len(),
                trigrams@ == self.and_trigrams@ + group_trigrams(self.or_groups@, g as int),
            decreases self.or_groups@.len() - g,
        {
            let group = &self.or_groups[g];
            trigrams.extend_from_slice(group.as_slice());
            g += 1;
            assert(trigrams@ =~= self.and_trigrams@ + group_trigrams(self.or_groups@, g as int));
        }
        trigrams
    }
}

fn holds_before(list: &Vec<u32>, count: usize, value: u32) -> (found: bool)
    requires
        count <= list@.len(),
    ensures
        found == list@.take(count as int).contains(value),
{
    let mut i: usize = 0;
    while i < count
        invariant
            i <= count <= list@.len(),
            forall|k: int| 0 <= k < i ==> #[trigger] list@[k] != value,
        decreases count - i,
    {
        if list[i] == value {
            assert(list@.take(count as int)[i as int] == value);
            return true;
        }
        i += 1;
    }
    false
}

impl SearchIndexSnapshot {
    /// The pieces of the cache file that hold the posting lists of `trigrams`: each distinct list once.
    pub fn read_requests(&self, trigrams: &Vec<u32>) -> (requests: Vec<ReadRequest>)
        requires
            self.well_formed(),
        ensures
            requests@ == requests_for(self.base, trigrams@, trigrams@.len() as int),
    {
        let mut requests: Vec<ReadRequest> = Vec::new();
        let mut i: usize = 0;
        while i < trigrams.len()
            invariant
                self.well_formed(),
                i <= trigrams@.len(),
                requests@ == requests_for(self.base, trigrams@, i as int),
            decreases trigrams@.len() - i,
        {
            let trigram: u32 = trigrams[i];
            if let Some(base) = &self.base {
                if let Some(entry) = base.lookup_entry(trigram) {
                    if let Ok(request) = base.read_request(entry) {
                        if !holds_before(trigrams, i, trigram) {
                            requests.push(request);
                        }
                    }
                }
            }
            i += 1;
        }
        requests
    }

    /// The pieces of the cache file that hold all its posting lists.
    pub fn all_read_requests(&self) -> (requests: Vec<ReadRequest>)
        requires
            self.well_formed(),
        ensures
            self.base is None ==> requests@.len() == 0,
            self.base matches Some(base) ==> requests@ == requests_for(
                self.base,
                lookup_trigrams(base.lookup@),
                base.lookup@.len() as int,
            ),
    {
        let mut trigrams: Vec<u32> = Vec::new();
        if let Some(base) = &self.base {
            let mut i: usize = 0;
            while i < base.lookup.len()
                invariant
                    i <= base.lookup@.len(),
                    trigrams@ == lookup_trigrams(base.lookup@).take(i as int),
                decreases base.lookup@.len() - i,
            {
                trigrams.push(base.lookup[i].trigram);
                i += 1;
                assert(trigrams@ =~= lookup_trigrams(base.lookup@).take(i as int));
            }
            assert(trigrams@ =~= lookup_trigrams(base.lookup@));
        }
        self.read_requests(&trigrams)
    }

    /// The active files of each distinct trigram of a query.
    pub fn materialize_query_postings(&self, query_trigrams: &Vec<u32>, reads: &PostingReads) -> (
        lists: HashMap<u32, Vec<u32>>)
        requires
            self.well_formed(),
        ensures
            materialized(self@, *reads, query_trigrams@, lists@),
    {
        broadcast use vstd::std_specs::hash::group_hash_axioms;

        let mut lists: HashMap<u32, Vec<u32>> = HashMap::new();
        let mut i: usize = 0;
        while i < query_trigrams.len()
            invariant
                self.well_formed(),
                i <= query_trigrams@.len(),
                materialized(self@, *reads, query_trigrams@.take(i as int), lists@),
            decreases query_trigrams@.len() - i,
        {
            let trigram: u32 = query_trigrams[i];
            let ghost before = lists@;
            let ghost done = query_trigrams@.take(i as int);
            let ghost next = query_trigrams@.take(i + 1);
            if !lists.contains_key(&trigram) {
                let ids = self.postings_for_trigram(reads, trigram, None);
                lists.insert(trigram, ids);
            }
            proof {
                assert forall|t: u32| #[trigger] lists@.contains_key(t) <==> next.contains(t) by {
                    assert(before.contains_key(t) <==> done.contains(t));
                    if done.contains(t) {
                        let k = done.index_of(t);
                        assert(next[k] == t);
                    }
                    assert(next[i as int] == trigram);
                    if next.contains(t) && t != trigram {
                        let k = next.index_of(t);
                        assert(done[k] == t);
                    }
                }
            }
            i += 1;
        }
        assert(query_trigrams@.take(i as int) =~= query_trigrams@);
        lists
    }
}

pub open spec fn lookup_trigrams(lookup: Seq<LookupEntry>) -> Seq<u32> {
    lookup.map_values(|entry: LookupEntry| entry.trigram)
}

/// `ids` are the active files with a posting of `trigram`, in ascending order.
pub open spec fn lists_files(
    view: SnapshotView,
    reads: PostingReads,
    trigram: u32,
    ids: Seq<u32>,
) -> bool {
    &&& strictly_ascending(ids)
    &&& forall|id: u32| #[trigger] ids.contains(id) <==> view.has_posting(reads, trigram, None, id)
}

/// `lists` holds the active files of each trigram of a query.
pub open spec fn materialized(
    view: SnapshotView,
    reads: PostingReads,
    query_trigrams: Seq<u32>,
    lists: Map<u32, Vec<u32>>,
) -> bool {
    &&& forall|t: u32| #[trigger] lists.contains_key(t) <==> query_trigrams.contains(t)
    &&& forall|t: u32| #[trigger]
        lists.contains_key(t) ==> lists_files(view, reads, t, lists[t]@)
}

// ---------------------------------------------------------------------------------------------
// Candidates
// ---------------------------------------------------------------------------------------------

/// Those of the first `count` trigrams that have postings.
pub open spec fn with_postings(view: SnapshotView, trigrams: Seq<u32>, count: int) -> Seq<u32>
    decreases count,
{
    if count <= 0 {
        Seq::empty()
    } else {
        let earlier = with_postings(view, trigrams, count - 1);
        if view.posting_total(trigrams[count - 1]) > 0 {
            earlier.push(trigrams[count - 1])
        } else {
            earlier
        }
    }
}

/// The posting counts of trigrams.
pub open spec fn totals(view: SnapshotView, trigrams: Seq<u32>) -> Seq<usize> {
    trigrams.map_values(|trigram: u32| view.posting_total(trigram) as usize)
}

/// The three rarest trigrams, or all where there are fewer; of equally rare ones those that come
/// first.
pub open spec fn are_rarest(view: SnapshotView, trigrams: Seq<u32>, rarest: Seq<u32>) -> bool {
    exists|order: Seq<usize>| #[trigger]
        is_sorting_order(totals(view, trigrams), order) && rarest == reordered(
            trigrams,
            order,
        ).take(
            if trigrams.len() < 3 {
                trigrams.len() as int
            } else {
                3
            },
        )
}

/// How many candidates are scored.
pub open spec fn candidate_cap(rarest: Seq<u32>) -> int {
    if rarest.len() == 3 {
        200
    } else {
        500
    }
}

/// The candidates of a ranking.
pub struct LexicalPlan {
    pub candidates: Vec<u32>,
    pub candidate_cap: usize,
    /// There are more candidates than are scored.
    pub engine_capped: bool,
    pub postings: HashMap<u32, Vec<u32>>,
}

/// Some trigram of the list has a posting of the file.
pub open spec fn has_any(
    view: SnapshotView,
    reads: PostingReads,
    trigrams: Seq<u32>,
    id: u32,
) -> bool {
    exists|i: int|
        0 <= i < trigrams.len() && view.has_posting(reads, #[trigger] trigrams[i], None, id)
}

impl LexicalPlan {
    /// The candidates are the files with one of the rarest trigrams.
    pub open spec fn plans(
        &self,
        view: SnapshotView,
        reads: PostingReads,
        query_trigrams: Seq<u32>,
    ) -> bool {
        &&& materialized(view, reads, query_trigrams, self.postings@)
        &&& exists|rarest: Seq<u32>|
            {
                &&& #[trigger] are_rarest(
                    view,
                    with_postings(view, query_trigrams, query_trigrams.len() as int),
                    rarest,
                )
                &&& strictly_ascending(self.candidates@)
                &&& forall|id: u32| #[trigger]
                    self.candidates@.contains(id) <==> has_any(view, reads, rarest, id)
                &&& self.candidate_cap == candidate_cap(rarest)
                &&& self.engine_capped == (self.candidates@.len() > self.candidate_cap)
            }
    }
}

impl SearchIndexSnapshot {
    /// The candidates of a ranking; none where no trigram of the query has postings.
    pub fn lexical_candidates(&self, query_trigrams: &Vec<u32>, reads: &PostingReads) -> (plan:
        Option<LexicalPlan>)
        requires
            self.well_formed(),
        ensures
            match plan {
                Some(plan) => with_postings(
                    self@,
                    query_trigrams@,
                    query_trigrams@.len() as int,
                ).len() > 0 && plan.plans(self@, *reads, query_trigrams@),
                None => with_postings(
                    self@,
                    query_trigrams@,
                    query_trigrams@.len() as int,
                ).len() == 0,
            },
    {
        broadcast use vstd::std_specs::hash::group_hash_axioms;

        let ghost view = self@;
        let mut non_zero: Vec<u32> = Vec::new();
        let mut counts: Vec<usize> = Vec::new();
        let mut i: usize = 0;
        assert(totals(view, Seq::empty()) =~= Seq::<usize>::empty());
        while i < query_trigrams.len()
            invariant
                self.well_formed(),
                view == self@,
                i <= query_trigrams@.len(),
                non_zero@ == with_postings(view, query_trigrams@, i as int),
                counts@ == totals(view, non_zero@),
            decreases query_trigrams@.len() - i,
        {
            let trigram: u32 = query_trigrams[i];
            let count: usize = self.posting_count(trigram);
            if count > 0 {
                let ghost before = non_zero@;
                non_zero.push(trigram);
                counts.push(count);
                assert(totals(view, non_zero@) =~= totals(view, before).push(count));
            }
            i += 1;
        }
        if non_zero.len() == 0 {
            return None;
        }
        let order = sorting_order(counts.as_slice());
        let selected: usize = if non_zero.len() < 3 {
            non_zero.len()
        } else {
            3
        };
        let postings = self.materialize_query_postings(query_trigrams, reads);
        let ghost all = reordered(non_zero@, order@);
        let ghost rarest = all.take(selected as int);
        let mut candidates: Vec<u32> = Vec::new();
        let mut k: usize = 0;
        proof {
            lemma_with_postings_members(view, query_trigrams@, query_trigrams@.len() as int);
            assert forall|id: u32| !has_any(view, *reads, rarest.take(0), id) by {}
        }
        while k < selected
            invariant
                k <= selected <= order@.len(),
                order@.len() == non_zero@.len(),
                counts@.len() == non_zero@.len(),
                is_sorting_order(counts@, order@),
                all == reordered(non_zero@, order@),
                rarest == all.take(selected as int),
                materialized(view, *reads, query_trigrams@, postings@),
                forall|m: int|
                    0 <= m < non_zero@.len() ==> query_trigrams@.contains(
                        #[trigger] non_zero@[m],
                    ),
                strictly_ascending(candidates@),
                forall|id: u32| #[trigger]
                    candidates@.contains(id) <==> has_any(
                        view,
                        *reads,
                        rarest.take(k as int),
                        id,
                    ),
            decreases selected - k,
        {
            let trigram: u32 = non_zero[order[k]];
            assert(query_trigrams@.contains(trigram));
            assert(postings@.contains_key(trigram));
            let ghost before = candidates@;
            if let Some(ids) = postings.get(&trigram) {
                candidates = union_sorted_ids(candidates.as_slice(), ids.as_slice());
                proof {
                    let done = rarest.take(k as int);
                    let next = rarest.take(k + 1);
                    assert(next[k as int] == trigram);
                    assert(lists_files(view, *reads, trigram, ids@));
                    assert forall|id: u32| #[trigger] candidates@.contains(id) <==> has_any(
                        view,
                        *reads,
                        next,
                        id,
                    ) by {
                        assert(candidates@.contains(id) <==> before.contains(id) || ids@.contains(
                            id,
                        ));
                        if has_any(view, *reads, done, id) {
                            let m = choose|m: int|
                                0 <= m < done.len() && view.has_posting(
                                    *reads,
                                    #[trigger] done[m],
                                    None,
                                    id,
                                );
                            assert(next[m] == done[m]);
                        }
                        if ids@.contains(id) {
                            assert(view.has_posting(*reads, next[k as int], None, id));
                        }
                        if has_any(view, *reads, next, id) {
                            let m = choose|m: int|
                                0 <= m < next.len() && view.has_posting(
                                    *reads,
                                    #[trigger] next[m],
                                    None,
                                    id,
                                );
                            if m < k {
                                assert(done[m] == next[m]);
                            }
                        }
                    }
                }
            }
            k += 1;
        }
        assert(rarest.take(k as int) =~= rarest);
        let cap: usize = if selected == 3 {
            200
        } else {
            500
        };
        let engine_capped: bool = candidates.len() > cap;
        assert(are_rarest(view, non_zero@, rarest));
        Some(LexicalPlan { candidates, candidate_cap: cap, engine_capped, postings })
    }
}

proof fn lemma_with_postings_members(view: SnapshotView, trigrams: Seq<u32>, count: int)
    requires
        0 <= count <= trigrams.len(),
    ensures
        forall|m: int|
            0 <= m < with_postings(view, trigrams, count).len() ==> trigrams.contains(
                #[trigger] with_postings(view, trigrams, count)[m],
            ),
    decreases count,
{
    if count > 0 {
        lemma_with_postings_members(view, trigrams, count - 1);
        assert(trigrams.contains(trigrams[count - 1]));
        let earlier = with_postings(view, trigrams, count - 1);
        let all = with_postings(view, trigrams, count);
        assert forall|m: int| 0 <= m < all.len() implies trigrams.contains(#[trigger] all[m]) by {
            if m < earlier.len() {
                assert(all[m] == earlier[m]);
            }
        }
    }
}

// ---------------------------------------------------------------------------------------------
// Scores
// ---------------------------------------------------------------------------------------------

/// How many of the first `count` trigrams of a query have a list with the file.
pub open spec fn hits_in(lists: Map<u32, Vec<u32>>, trigrams: Seq<u32>, id: u32, count: int) -> int
    decreases count,
{
    if count <= 0 {
        0
    } else {
        let t = trigrams[count - 1];
        hits_in(lists, trigrams, id, count - 1) + (if lists.contains_key(t) && lists[t]@.contains(
            id,
        ) {
            1int
        } else {
            0
        })
    }
}

/// The number of distinct trigrams of a file, at least one.
pub open spec fn trigrams_of_file(view: SnapshotView, id: u32) -> u32 {
    if id < view.file_trigram_count.len() && view.file_trigram_count[id as int] > 0 {
        view.file_trigram_count[id as int]
    } else {
        1
    }
}

/// What the score of a file is made from.
#[derive(Debug)]
pub struct LexicalEntry {
    pub path: SearchPath,
    pub hits: u32,
    pub trigram_count: u32,
}

fn list_holds(ids: &Vec<u32>, id: u32) -> (found: bool)
    requires
        strictly_ascending(ids@),
    ensures
        found == ids@.contains(id),
{
    let mut low: usize = 0;
    let mut high: usize = ids.len();
    while low < high
        invariant
            strictly_ascending(ids@),
            low <= high <= ids@.len(),
            forall|i: int| 0 <= i < low ==> #[trigger] ids@[i] < id,
            forall|i: int| high <= i < ids@.len() ==> #[trigger] ids@[i] > id,
        decreases high - low,
    {
        let mid: usize = low + (high - low) / 2;
        if ids[mid] == id {
            assert(ids@[mid as int] == id);
            return true;
        }
        if ids[mid] < id {
            low = mid + 1;
        } else {
            high = mid;
        }
    }
    false
}

/// How many trigrams of a query have a list with the file.
pub fn lexical_hits(
    query_trigrams: &Vec<u32>,
    postings: &HashMap<u32, Vec<u32>>,
    file_id: u32,
) -> (hits: u32)
    requires
        query_trigrams@.len() <= u32::MAX,
        forall|t: u32| #[trigger] postings@.contains_key(t) ==> strictly_ascending(postings@[t]@),
    ensures
        hits == hits_in(
            postings@,
            query_trigrams@,
            file_id,
            query_trigrams@.len() as int,
        ),
{
    broadcast use vstd::std_specs::hash::group_hash_axioms;

    let mut hits: u32 = 0;
    let mut i: usize = 0;
    while i < query_trigrams.len()
        invariant
            query_trigrams@.len() <= u32::MAX,
            forall|t: u32| #[trigger]
                postings@.contains_key(t) ==> strictly_ascending(postings@[t]@),
            i <= query_trigrams@.len(),
            hits <= i,
            hits == hits_in(postings@, query_trigrams@, file_id, i as int),
        decreases query_trigrams@.len() - i,
    {
        let trigram: u32 = query_trigrams[i];
        if let Some(ids) = postings.get(&trigram) {
            assert(strictly_ascending(postings@[trigram]@));
            if list_holds(ids, file_id) {
                hits += 1;
            }
        }
        i += 1;
    }
    hits
}

/// A candidate that is scored: one that was accepted and whose slot exists.
pub open spec fn scored_ids(
    view: SnapshotView,
    candidates: Seq<u32>,
    accepted: Seq<bool>,
    count: int,
) -> Seq<u32>
    decreases count,
{
    if count <= 0 {
        Seq::empty()
    } else {
        let earlier = scored_ids(view, candidates, accepted, count - 1);
        let id = candidates[count - 1];
        if id < view.files.len() && accepted[count - 1] {
            earlier.push(id)
        } else {
            earlier
        }
    }
}

/// Those of the first `count` files that have a hit.
pub open spec fn hit_ids(
    lists: Map<u32, Vec<u32>>,
    trigrams: Seq<u32>,
    ids: Seq<u32>,
    count: int,
) -> Seq<u32>
    decreases count,
{
    if count <= 0 {
        Seq::empty()
    } else {
        let earlier = hit_ids(lists, trigrams, ids, count - 1);
        let id = ids[count - 1];
        if hits_in(lists, trigrams, id, trigrams.len() as int) > 0 {
            earlier.push(id)
        } else {
            earlier
        }
    }
}

pub open spec fn at_most(len: int, cap: int) -> int {
    if len < cap {
        len
    } else {
        cap
    }
}

impl LexicalEntry {
    pub open spec fn describes(
        &self,
        view: SnapshotView,
        lists: Map<u32, Vec<u32>>,
        trigrams: Seq<u32>,
        id: u32,
    ) -> bool {
        &&& self.path@ == view.files[id as int].path
        &&& self.hits == hits_in(lists, trigrams, id, trigrams.len() as int)
        &&& self.trigram_count == trigrams_of_file(view, id)
    }
}

impl SearchIndexSnapshot {
    /// The number of distinct trigrams of a file, at least one.
    pub fn file_trigrams(&self, file_id: u32) -> (count: u32)
        ensures
            count == trigrams_of_file(self@, file_id),
    {
        if (file_id as u64) < self.file_trigram_count.len() as u64 {
            let count: u32 = self.file_trigram_count[file_id as usize];
            if count > 0 {
                return count;
            }
        }
        1
    }

    /// What the scores of a ranking are made from: of the accepted candidates the first up to the
    /// cap, as far as they have a hit.
    pub fn lexical_entries(
        &self,
        query_trigrams: &Vec<u32>,
        plan: &LexicalPlan,
        accepted: &Vec<bool>,
    ) -> (entries: Vec<LexicalEntry>)
        requires
            query_trigrams@.len() <= u32::MAX,
            accepted@.len() == plan.candidates@.len(),
            forall|t: u32| #[trigger]
                plan.postings@.contains_key(t) ==> strictly_ascending(plan.postings@[t]@),
        ensures
            ({
                let scored = scored_ids(
                    self@,
                    plan.candidates@,
                    accepted@,
                    plan.candidates@.len() as int,
                );
                let hit = hit_ids(
                    plan.postings@,
                    query_trigrams@,
                    scored,
                    at_most(scored.len() as int, plan.candidate_cap as int),
                );
                &&& entries@.len() == hit.len()
                &&& forall|i: int|
                    0 <= i < entries@.len() ==> (#[trigger] entries@[i]).describes(
                        self@,
                        plan.postings@,
                        query_trigrams@,
                        hit[i],
                    )
            }),
    {
        let mut scored: Vec<u32> = Vec::new();
        let mut i: usize = 0;
        while i < plan.candidates.len()
            invariant
                accepted@.len() == plan.candidates@.len(),
                i <= plan.candidates@.len(),
                scored@ == scored_ids(self@, plan.candidates@, accepted@, i as int),
                forall|k: int| 0 <= k < scored@.len() ==> #[trigger] scored@[k] < self.files@.len(),
            decreases plan.candidates@.len() - i,
        {
            let id: u32 = plan.candidates[i];
            if (id as u64) < self.files.len() as u64 && accepted[i] {
                scored.push(id);
            }
            i += 1;
        }
        let end: usize = if scored.len() < plan.candidate_cap {
            scored.len()
        } else {
            plan.candidate_cap
        };
        let mut entries: Vec<LexicalEntry> = Vec::new();
        let mut k: usize = 0;
        while k < end
            invariant
                query_trigrams@.len() <= u32::MAX,
                forall|t: u32| #[trigger]
                    plan.postings@.contains_key(t) ==> strictly_ascending(plan.postings@[t]@),
                forall|m: int| 0 <= m < scored@.len() ==> #[trigger] scored@[m] < self.files@.len(),
                k <= end <= scored@.len(),
                entries@.len() == hit_ids(
                    plan.postings@,
                    query_trigrams@,
                    scored@,
                    k as int,
                ).len(),
                forall|m: int|
                    0 <= m < entries@.len() ==> (#[trigger] entries@[m]).describes(
                        self@,
                        plan.postings@,
                        query_trigrams@,
                        hit_ids(plan.postings@, query_trigrams@, scored@, k as int)[m],
                    ),
            decreases end - k,
        {
            let id: u32 = scored[k];
            let hits: u32 = lexical_hits(query_trigrams, &plan.postings, id);
            if hits > 0 {
                entries.push(
                    LexicalEntry {
                        path: self.files[id as usize].path.duplicate(),
                        hits,
                        trigram_count: self.file_trigrams(id),
                    },
                );
            }
            k += 1;
        }
        entries
    }

    /// Number of distinct trigrams, on disk and since.
    pub fn trigram_count(&self) -> (count: usize)
        requires
            self.well_formed(),
        ensures
            count == saturated(self@.trigram_total()),
    {
        let keys = list_keys(&self.delta.postings);
        let base = match &self.base {
            Some(base) => base,
            None => {
                proof {
                    keys@.unique_seq_to_set();
                    assert(keys@.to_set() =~= self@.new_trigrams());
                }
                return keys.len();
            },
        };
        let mut fresh: Vec<u32> = Vec::new();
        let mut i: usize = 0;
        while i < keys.len()
            invariant
                base.well_formed(),
                keys@.no_duplicates(),
                i <= keys@.len(),
                fresh@.len() <= i,
                fresh@.no_duplicates(),
                forall|t: u32| #[trigger]
                    fresh@.contains(t) <==> keys@.take(i as int).contains(t) && !lookup_holds(
                        base.lookup@,
                        t,
                    ),
            decreases keys@.len() - i,
        {
            let trigram: u32 = keys[i];
            let ghost before = fresh@;
            let ghost done = keys@.take(i as int);
            let ghost next = keys@.take(i + 1);
            proof {
                assert(!done.contains(trigram)) by {
                    if done.contains(trigram) {
                        let k = done.index_of(trigram);
                        assert(keys@[k] == keys@[i as int]);
                    }
                }
                assert(!before.contains(trigram));
            }
            let known: bool = base.lookup_entry(trigram).is_some();
            if !known {
                fresh.push(trigram);
            }
            proof {
                assert forall|t: u32| #[trigger] fresh@.contains(t) <==> next.contains(t)
                    && !lookup_holds(base.lookup@, t) by {
                    assert(before.contains(t) <==> done.contains(t) && !lookup_holds(
                        base.lookup@,
                        t,
                    ));
                    if done.contains(t) {
                        let k = done.index_of(t);
                        assert(next[k] == t);
                    }
                    assert(next[i as int] == trigram);
                    if next.contains(t) && t != trigram {
                        let k = next.index_of(t);
                        assert(done[k] == t);
                    }
                    if before.contains(t) {
                        let k = before.index_of(t);
                        assert(fresh@[k] == t);
                    }
                    if !known {
                        assert(fresh@[before.len() as int] == trigram);
                    }
                    if fresh@.contains(t) && !before.contains(t) {
                        let k = fresh@.index_of(t);
                        if k < before.len() {
                            assert(before[k] == t);
                        }
                    }
                }
            }
            i += 1;
        }
        proof {
            assert(keys@.take(i as int) =~= keys@);
            fresh@.unique_seq_to_set();
            assert(fresh@.to_set() =~= self@.new_trigrams()) by {
                assert forall|t: u32| fresh@.to_set().contains(t)
                    == self@.new_trigrams().contains(t) by {
                    assert(fresh@.contains(t) <==> keys@.contains(t) && !lookup_holds(
                        base.lookup@,
                        t,
                    ));
                }
            }
        }
        base.lookup.len().saturating_add(fresh.len())
    }
}

impl SnapshotView {
    /// The trigrams since the cache file was written that it does not hold.
    pub open spec fn new_trigrams(self) -> Set<u32> {
        Set::new(
            |t: u32|
                self.postings.contains_key(t) && (self.base matches Some(base) ==> !lookup_holds(
                    base.2,
                    t,
                )),
        )
    }

    /// How many distinct trigrams there are.
    pub open spec fn trigram_total(self) -> int {
        self.new_trigrams().len() + (match self.base {
            Some(base) => base.2.len() as int,
            None => 0,
        })
    }
}

} // verus!
