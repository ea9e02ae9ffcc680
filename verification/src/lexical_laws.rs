//! Laws of lexical ranking: which files are candidates, how many hits a file has, and which trigrams
//! tokens stand for.

use crate::lexical::at_most;
use crate::lexical::has_any;
use crate::lexical::hit_ids;
use crate::lexical::hits_in;
use crate::lexical::materialized;
use crate::lexical::scored_ids;
use crate::lexical::text_trigrams;
use crate::lexical::token_trigrams;
use crate::lexical::totals;
use crate::lexical::trigrams_of_file;
use crate::lexical::with_postings;
use crate::lexical::LexicalEntry;
use crate::lexical::LexicalPlan;
use crate::order::is_sorting_order;
use crate::postings::PostingReads;
use crate::query::append_new;
use crate::records::lemma_sorting_order_is_distinct;
use crate::records::reordered;
use crate::snapshot::SnapshotView;
use vstd::prelude::*;
use vstd::utf8::encode_utf8;

verus! {

/// What `lexical_candidates` comes to.
pub open spec fn is_lexical_plan(
    view: SnapshotView,
    reads: PostingReads,
    query: Seq<u32>,
    plan: Option<LexicalPlan>,
) -> bool {
    match plan {
        Some(plan) => with_postings(view, query, query.len() as int).len() > 0 && plan.plans(
            view,
            reads,
            query,
        ),
        None => with_postings(view, query, query.len() as int).len() == 0,
    }
}

/// Each file to which a trigram of the query leads is counted among the trigram's postings.
pub open spec fn counts_what_it_leads_to(
    view: SnapshotView,
    reads: PostingReads,
    query: Seq<u32>,
) -> bool {
    forall|i: int, id: u32|
        0 <= i < query.len() && #[trigger] view.has_posting(reads, query[i], None, id)
            ==> view.posting_total(query[i]) >= 1
}

proof fn lemma_trigrams_with_postings(view: SnapshotView, query: Seq<u32>, count: int)
    requires
        0 <= count <= query.len(),
    ensures
        with_postings(view, query, count).len() <= count,
        with_postings(view, query, count) == query.take(count).filter(
            |t: u32| view.posting_total(t) >= 1,
        ),
        forall|i: int|
            0 <= i < count && view.posting_total(#[trigger] query[i]) >= 1 ==> with_postings(
                view,
                query,
                count,
            ).contains(query[i]),
        forall|k: int|
            0 <= k < with_postings(view, query, count).len() ==> {
                let t = #[trigger] with_postings(view, query, count)[k];
                view.posting_total(t) >= 1 && query.contains(t)
            },
    decreases count,
{
    let test = |t: u32| view.posting_total(t) >= 1;
    reveal(Seq::filter);
    let all = with_postings(view, query, count);
    if count > 0 {
        lemma_trigrams_with_postings(view, query, count - 1);
        let earlier = with_postings(view, query, count - 1);
        assert(query.take(count).drop_last() =~= query.take(count - 1));
        assert(query.take(count).last() == query[count - 1]);
        assert forall|i: int|
            0 <= i < count && view.posting_total(#[trigger] query[i]) >= 1 implies all.contains(
            query[i],
        ) by {
            if i < count - 1 {
                let k = earlier.index_of(query[i]);
                assert(all[k] == query[i]);
            } else {
                assert(all[all.len() - 1] == query[i]);
            }
        }
        assert forall|k: int| 0 <= k < all.len() implies view.posting_total(#[trigger] all[k]) >= 1
            && query.contains(all[k]) by {
            if k < earlier.len() {
                assert(all[k] == earlier[k]);
            } else {
                assert(all[k] == query[count - 1]);
            }
        }
    } else {
        assert(query.take(0) =~= Seq::empty());
    }
}

/// A ranking is owed wherever a trigram of the query has a posting at all, be it only one; and only
/// there.
pub proof fn lemma_one_posting_is_enough_to_rank(
    view: SnapshotView,
    reads: PostingReads,
    query: Seq<u32>,
    plan: Option<LexicalPlan>,
)
    requires
        is_lexical_plan(view, reads, query, plan),
    ensures
        plan is Some <==> exists|i: int|
            0 <= i < query.len() && view.posting_total(#[trigger] query[i]) >= 1,
{
    lemma_trigrams_with_postings(view, query, query.len() as int);
    let all = with_postings(view, query, query.len() as int);
    if all.len() > 0 {
        let t = all[0];
        let i = query.index_of(t);
        assert(view.posting_total(query[i]) >= 1);
    }
}

/// Where a query has at most three trigrams, the candidates are the files to which one of them leads:
/// all of these files, and no others, each once and in ascending order.
pub proof fn lemma_short_queries_reach_every_file(
    view: SnapshotView,
    reads: PostingReads,
    query: Seq<u32>,
    plan: LexicalPlan,
    id: u32,
)
    requires
        is_lexical_plan(view, reads, query, Some(plan)),
        counts_what_it_leads_to(view, reads, query),
        query.len() <= 3,
    ensures
        plan.candidates@.contains(id) <==> exists|i: int|
            0 <= i < query.len() && view.has_posting(reads, #[trigger] query[i], None, id),
        forall|i: int, j: int|
            0 <= i < j < plan.candidates@.len() ==> #[trigger] plan.candidates@[i]
                < #[trigger] plan.candidates@[j],
{
    let all = with_postings(view, query, query.len() as int);
    let (rarest, order) = lemma_rarest_of(view, reads, query, plan);
    lemma_trigrams_with_postings(view, query, query.len() as int);
    assert(rarest == reordered(all, order));
    assert(plan.candidates@.contains(id) <==> has_any(view, reads, rarest, id));
    if has_any(view, reads, rarest, id) {
        let k = choose|k: int|
            0 <= k < rarest.len() && view.has_posting(reads, #[trigger] rarest[k], None, id);
        let t = all[order[k] as int];
        let i = query.index_of(t);
        assert(view.has_posting(reads, query[i], None, id));
    }
    if exists|i: int|
        0 <= i < query.len() && view.has_posting(reads, #[trigger] query[i], None, id) {
        let i = choose|i: int|
            0 <= i < query.len() && view.has_posting(reads, #[trigger] query[i], None, id);
        assert(view.posting_total(query[i]) >= 1);
        let m = all.index_of(query[i]);
        assert(order.contains(m as usize));
        let k = order.index_of(m as usize);
        assert(rarest[k] == query[i]);
    }
}

proof fn lemma_rarest_of(
    view: SnapshotView,
    reads: PostingReads,
    query: Seq<u32>,
    plan: LexicalPlan,
) -> (found: (Seq<u32>, Seq<usize>))
    requires
        is_lexical_plan(view, reads, query, Some(plan)),
    ensures
        ({
            let all = with_postings(view, query, query.len() as int);
            &&& is_sorting_order(totals(view, all), found.1)
            &&& found.1.len() == all.len()
            &&& found.1.no_duplicates()
            &&& found.0 == reordered(all, found.1).take(
                if all.len() < 3 {
                    all.len() as int
                } else {
                    3
                },
            )
            &&& all.len() <= 3 ==> found.0 == reordered(all, found.1)
            &&& forall|i: int, j: int|
                0 <= i < j < plan.candidates@.len() ==> #[trigger] plan.candidates@[i]
                    < #[trigger] plan.candidates@[j]
            &&& forall|id: u32| #[trigger]
                plan.candidates@.contains(id) <==> has_any(view, reads, found.0, id)
            &&& plan.candidate_cap == (if found.0.len() == 3 {
                200
            } else {
                500int
            })
            &&& plan.engine_capped == (plan.candidates@.len() > plan.candidate_cap)
        }),
{
    let all = with_postings(view, query, query.len() as int);
    let rarest = choose|rarest: Seq<u32>|
        {
            &&& #[trigger] crate::lexical::are_rarest(view, all, rarest)
            &&& crate::order::strictly_ascending(plan.candidates@)
            &&& forall|id: u32| #[trigger]
                plan.candidates@.contains(id) <==> has_any(view, reads, rarest, id)
            &&& plan.candidate_cap == crate::lexical::candidate_cap(rarest)
            &&& plan.engine_capped == (plan.candidates@.len() > plan.candidate_cap)
        };
    let order = choose|order: Seq<usize>| #[trigger]
        is_sorting_order(totals(view, all), order) && rarest == reordered(all, order).take(
            if all.len() < 3 {
                all.len() as int
            } else {
                3
            },
        );
    lemma_sorting_order_is_distinct(totals(view, all), order);
    assert(totals(view, all).len() == all.len());
    if all.len() <= 3 {
        assert(reordered(all, order).take(all.len() as int) =~= reordered(all, order));
    }
    (rarest, order)
}

/// The candidates of any query are the files to which one of three of its trigrams leads, than which
/// none of the others with postings has fewer; of all of these, where there are fewer. Two hundred
/// candidates are scored where there are three such trigrams, else five hundred, and the ranking is
/// capped where there are more.
pub proof fn lemma_rare_trigrams_are_followed(
    view: SnapshotView,
    reads: PostingReads,
    query: Seq<u32>,
    plan: LexicalPlan,
)
    requires
        is_lexical_plan(view, reads, query, Some(plan)),
        query.len() <= usize::MAX,
    ensures
        ({
            let known = query.filter(|t: u32| view.posting_total(t) >= 1);
            &&& exists|followed: Seq<u32>| #[trigger] follows_rarest(view, reads, known, followed, plan)
            &&& plan.candidate_cap == (if known.len() >= 3 {
                200
            } else {
                500int
            })
            &&& plan.engine_capped == (plan.candidates@.len() > plan.candidate_cap)
        }),
{
    let all = with_postings(view, query, query.len() as int);
    lemma_trigrams_with_postings(view, query, query.len() as int);
    assert(query.take(query.len() as int) =~= query);
    let (rarest, order) = lemma_rarest_of(view, reads, query, plan);
    assert forall|m: int| 0 <= m < all.len() implies (exists|k: int|
        0 <= k < rarest.len() && #[trigger] rarest[k] == all[m]) || (rarest.len() == 3 && forall|
        k: int,
    |
        0 <= k < rarest.len() ==> view.posting_total(#[trigger] rarest[k]) <= view.posting_total(
            #[trigger] all[m],
        )) by {
        assert(order.contains(m as usize));
        let k = order.index_of(m as usize);
        if k < rarest.len() {
            assert(rarest[k] == all[m]);
        } else {
            assert forall|j: int| 0 <= j < rarest.len() implies view.posting_total(
                #[trigger] rarest[j],
            ) <= view.posting_total(all[m]) by {
                assert(crate::order::sorts_before(totals(view, all), order[j], order[k]));
                assert(totals(view, all)[order[j] as int] == view.posting_total(rarest[j]));
                assert(totals(view, all)[m] == view.posting_total(all[m]));
            }
        }
    }
    assert forall|k: int| 0 <= k < rarest.len() implies all.contains(#[trigger] rarest[k]) by {
        assert(rarest[k] == all[order[k] as int]);
    }
    assert(follows_rarest(view, reads, all, rarest, plan));
}

/// The trigrams `followed` are the rarest of `known`, and the candidates are the files to which one of
/// them leads.
pub open spec fn follows_rarest(
    view: SnapshotView,
    reads: PostingReads,
    known: Seq<u32>,
    followed: Seq<u32>,
    plan: LexicalPlan,
) -> bool {
    &&& followed.len() == (if known.len() < 3 {
        known.len() as int
    } else {
        3
    })
    &&& forall|k: int| 0 <= k < followed.len() ==> known.contains(#[trigger] followed[k])
    &&& forall|m: int|
        0 <= m < known.len() ==> (exists|k: int|
            0 <= k < followed.len() && #[trigger] followed[k] == known[m]) || (followed.len() == 3
            && forall|k: int|
            0 <= k < followed.len() ==> view.posting_total(#[trigger] followed[k])
                <= view.posting_total(#[trigger] known[m]))
    &&& forall|id: u32| #[trigger]
        plan.candidates@.contains(id) <==> exists|k: int|
            0 <= k < followed.len() && view.has_posting(reads, #[trigger] followed[k], None, id)
}

// ---------------------------------------------------------------------------------------------
// Hits
// ---------------------------------------------------------------------------------------------

/// A file has as many hits as trigrams of the query lead to it.
pub proof fn lemma_hits_count_trigrams(
    view: SnapshotView,
    reads: PostingReads,
    query: Seq<u32>,
    lists: Map<u32, Vec<u32>>,
    id: u32,
    count: int,
)
    requires
        materialized(view, reads, query, lists),
        0 <= count <= query.len(),
    ensures
        hits_in(lists, query, id, count) == query.take(count).filter(
            |t: u32| view.has_posting(reads, t, None, id),
        ).len(),
        0 <= hits_in(lists, query, id, count) <= count,
    decreases count,
{
    let test = |t: u32| view.has_posting(reads, t, None, id);
    reveal(Seq::filter);
    if count > 0 {
        lemma_hits_count_trigrams(view, reads, query, lists, id, count - 1);
        let t = query[count - 1];
        assert(query.contains(t));
        assert(lists.contains_key(t));
        assert(lists[t]@.contains(id) <==> view.has_posting(reads, t, None, id));
        assert(query.take(count).drop_last() =~= query.take(count - 1));
        assert(query.take(count).last() == t);
    } else {
        assert(query.take(0) =~= Seq::empty());
    }
}

proof fn lemma_scored_members(
    view: SnapshotView,
    candidates: Seq<u32>,
    accepted: Seq<bool>,
    count: int,
)
    requires
        0 <= count <= candidates.len(),
    ensures
        scored_ids(view, candidates, accepted, count).len() <= count,
        forall|id: u32| #[trigger]
            scored_ids(view, candidates, accepted, count).contains(id) <==> exists|i: int|
                0 <= i < count && #[trigger] candidates[i] == id && accepted[i] && id
                    < view.files.len(),
    decreases count,
{
    if count > 0 {
        lemma_scored_members(view, candidates, accepted, count - 1);
        let earlier = scored_ids(view, candidates, accepted, count - 1);
        let all = scored_ids(view, candidates, accepted, count);
        assert forall|id: u32| #[trigger] all.contains(id) <==> exists|i: int|
            0 <= i < count && #[trigger] candidates[i] == id && accepted[i] && id
                < view.files.len() by {
            assert(earlier.contains(id) <==> exists|i: int|
                0 <= i < count - 1 && #[trigger] candidates[i] == id && accepted[i] && id
                    < view.files.len());
            if all.len() > earlier.len() {
                assert(all[earlier.len() as int] == candidates[count - 1]);
            }
            if earlier.contains(id) {
                let k = earlier.index_of(id);
                assert(all[k] == id);
            }
            if all.contains(id) && !earlier.contains(id) {
                let k = all.index_of(id);
                if k < earlier.len() {
                    assert(earlier[k] == id);
                }
                assert(candidates[count - 1] == id);
            }
        }
    }
}

proof fn lemma_hit_members(lists: Map<u32, Vec<u32>>, query: Seq<u32>, ids: Seq<u32>, count: int)
    requires
        0 <= count <= ids.len(),
    ensures
        forall|id: u32| #[trigger]
            hit_ids(lists, query, ids, count).contains(id) <==> ids.take(count).contains(id)
                && hits_in(lists, query, id, query.len() as int) > 0,
    decreases count,
{
    if count > 0 {
        lemma_hit_members(lists, query, ids, count - 1);
        let earlier = hit_ids(lists, query, ids, count - 1);
        let all = hit_ids(lists, query, ids, count);
        assert forall|id: u32| #[trigger] all.contains(id) <==> ids.take(count).contains(id)
            && hits_in(lists, query, id, query.len() as int) > 0 by {
            assert(earlier.contains(id) <==> ids.take(count - 1).contains(id) && hits_in(
                lists,
                query,
                id,
                query.len() as int,
            ) > 0);
            assert(ids.take(count)[count - 1] == ids[count - 1]);
            if all.len() > earlier.len() {
                assert(all[earlier.len() as int] == ids[count - 1]);
            }
            if earlier.contains(id) {
                let k = earlier.index_of(id);
                assert(all[k] == id);
            }
            if ids.take(count - 1).contains(id) {
                let k = ids.take(count - 1).index_of(id);
                assert(ids.take(count)[k] == id);
            }
            if ids.take(count).contains(id) && id != ids[count - 1] {
                let k = ids.take(count).index_of(id);
                assert(ids.take(count - 1)[k] == id);
            }
            if all.contains(id) && !earlier.contains(id) {
                let k = all.index_of(id);
                if k < earlier.len() {
                    assert(earlier[k] == id);
                }
            }
        }
    } else {
        assert(ids.take(0) =~= Seq::empty());
    }
}

/// `entries` are what `lexical_entries` gives.
pub open spec fn are_lexical_entries(
    view: SnapshotView,
    query: Seq<u32>,
    plan: LexicalPlan,
    accepted: Seq<bool>,
    entries: Seq<LexicalEntry>,
) -> bool {
    let scored = scored_ids(view, plan.candidates@, accepted, plan.candidates@.len() as int);
    let hit = hit_ids(
        plan.postings@,
        query,
        scored,
        at_most(scored.len() as int, plan.candidate_cap as int),
    );
    &&& entries.len() == hit.len()
    &&& forall|i: int|
        0 <= i < entries.len() ==> (#[trigger] entries[i]).describes(
            view,
            plan.postings@,
            query,
            hit[i],
        )
}

/// The entry is that of a file: its path, how many trigrams of the query lead to it, and how many
/// trigrams it has; one where it has none.
pub open spec fn is_entry_of(
    entry: LexicalEntry,
    view: SnapshotView,
    reads: PostingReads,
    query: Seq<u32>,
    id: u32,
) -> bool {
    &&& entry.path@ == view.files[id as int].path
    &&& entry.hits == query.filter(|t: u32| view.has_posting(reads, t, None, id)).len()
    &&& entry.trigram_count >= 1
    &&& id < view.file_trigram_count.len() && view.file_trigram_count[id as int] >= 1
        ==> entry.trigram_count == view.file_trigram_count[id as int]
    &&& (id >= view.file_trigram_count.len() || view.file_trigram_count[id as int] == 0)
        ==> entry.trigram_count == 1
}

/// Every file that is ranked is an accepted candidate with a hit, and is ranked by its hits and its
/// trigrams.
pub proof fn lemma_ranked_files_have_hits(
    view: SnapshotView,
    reads: PostingReads,
    query: Seq<u32>,
    plan: LexicalPlan,
    accepted: Seq<bool>,
    entries: Seq<LexicalEntry>,
    at: int,
) -> (from: int)
    requires
        plan.plans(view, reads, query),
        accepted.len() == plan.candidates@.len(),
        are_lexical_entries(view, query, plan, accepted, entries),
        0 <= at < entries.len(),
    ensures
        0 <= from < plan.candidates@.len(),
        accepted[from],
        is_entry_of(entries[at], view, reads, query, plan.candidates@[from]),
        entries[at].hits >= 1,
{
    let candidates = plan.candidates@;
    let scored = scored_ids(view, candidates, accepted, candidates.len() as int);
    let cap = at_most(scored.len() as int, plan.candidate_cap as int);
    let hit = hit_ids(plan.postings@, query, scored, cap);
    lemma_scored_members(view, candidates, accepted, candidates.len() as int);
    lemma_hit_members(plan.postings@, query, scored, cap);
    let id = hit[at];
    assert(hit.contains(id));
    let k = scored.take(cap).index_of(id);
    assert(scored.contains(id)) by {
        assert(scored[k] == id);
    }
    let from = choose|i: int|
        0 <= i < candidates.len() && #[trigger] candidates[i] == id && accepted[i] && id
            < view.files.len();
    lemma_hits_count_trigrams(view, reads, query, plan.postings@, id, query.len() as int);
    assert(query.take(query.len() as int) =~= query);
    assert(entries[at].describes(view, plan.postings@, query, id));
    from
}

/// Where no more candidates are accepted than are scored, every accepted candidate with a hit is
/// ranked.
pub proof fn lemma_files_with_hits_are_ranked(
    view: SnapshotView,
    reads: PostingReads,
    query: Seq<u32>,
    plan: LexicalPlan,
    accepted: Seq<bool>,
    entries: Seq<LexicalEntry>,
    from: int,
) -> (at: int)
    requires
        plan.plans(view, reads, query),
        accepted.len() == plan.candidates@.len(),
        are_lexical_entries(view, query, plan, accepted, entries),
        plan.candidates@.len() <= plan.candidate_cap,
        0 <= from < plan.candidates@.len(),
        accepted[from],
        plan.candidates@[from] < view.files.len(),
        query.filter(
            |t: u32| view.has_posting(reads, t, None, plan.candidates@[from]),
        ).len() >= 1,
    ensures
        0 <= at < entries.len(),
        is_entry_of(entries[at], view, reads, query, plan.candidates@[from]),
{
    let candidates = plan.candidates@;
    let scored = scored_ids(view, candidates, accepted, candidates.len() as int);
    let cap = at_most(scored.len() as int, plan.candidate_cap as int);
    let hit = hit_ids(plan.postings@, query, scored, cap);
    lemma_scored_members(view, candidates, accepted, candidates.len() as int);
    lemma_hit_members(plan.postings@, query, scored, cap);
    let id = candidates[from];
    assert(scored.contains(id));
    assert(scored.take(cap) =~= scored);
    lemma_hits_count_trigrams(view, reads, query, plan.postings@, id, query.len() as int);
    assert(query.take(query.len() as int) =~= query);
    assert(hit.contains(id));
    let at = hit.index_of(id);
    assert(entries[at].describes(view, plan.postings@, query, id));
    at
}

// ---------------------------------------------------------------------------------------------
// Tokens
// ---------------------------------------------------------------------------------------------

/// The trigram is spelled at a place in a text: by three bytes one after the other, with the letters
/// from A to Z moved to those from a to z, the first byte highest.
pub open spec fn spelled_in(text: Seq<u8>, trigram: u32, at: int) -> bool {
    &&& 0 <= at
    &&& at + 3 <= text.len()
    &&& trigram == 65536 * (if 65 <= text[at] <= 90 {
        text[at] + 32
    } else {
        text[at] as int
    }) + 256 * (if 65 <= text[at + 1] <= 90 {
        text[at + 1] + 32
    } else {
        text[at + 1] as int
    }) + (if 65 <= text[at + 2] <= 90 {
        text[at + 2] + 32
    } else {
        text[at + 2] as int
    })
}

proof fn lemma_appended_members(list: Seq<u32>, more: Seq<u32>)
    ensures
        forall|t: u32| #[trigger]
            append_new(list, more).contains(t) <==> list.contains(t) || more.contains(t),
        list.no_duplicates() ==> append_new(list, more).no_duplicates(),
    decreases more.len(),
{
    if more.len() > 0 {
        let front = more.drop_last();
        let last = more.last();
        lemma_appended_members(list, front);
        let earlier = append_new(list, front);
        let all = append_new(list, more);
        assert forall|t: u32| #[trigger] all.contains(t) <==> list.contains(t) || more.contains(
            t,
        ) by {
            assert(earlier.contains(t) <==> list.contains(t) || front.contains(t));
            assert(more[more.len() - 1] == last);
            if front.contains(t) {
                let k = front.index_of(t);
                assert(more[k] == t);
            }
            if more.contains(t) && t != last {
                let k = more.index_of(t);
                assert(front[k] == t);
            }
            if all.len() > earlier.len() {
                assert(all[earlier.len() as int] == last);
            }
            if earlier.contains(t) {
                let k = earlier.index_of(t);
                assert(all[k] == t);
            }
            if all.contains(t) && !earlier.contains(t) {
                let k = all.index_of(t);
                if k < earlier.len() {
                    assert(earlier[k] == t);
                }
            }
        }
    }
}

/// The trigrams of tokens are those that are spelled in one of them, each once.
pub proof fn lemma_tokens_spell_their_trigrams(tokens: Seq<Seq<char>>, count: int, trigram: u32)
    requires
        0 <= count <= tokens.len(),
    ensures
        token_trigrams(tokens, count).contains(trigram) <==> exists|k: int, at: int|
            0 <= k < count && #[trigger] spelled_in(encode_utf8(tokens[k]), trigram, at),
        token_trigrams(tokens, count).no_duplicates(),
    decreases count,
{
    if count > 0 {
        lemma_tokens_spell_their_trigrams(tokens, count - 1, trigram);
        let text = encode_utf8(tokens[count - 1]);
        let more = text_trigrams(text);
        let earlier = token_trigrams(tokens, count - 1);
        lemma_appended_members(earlier, more);
        if more.contains(trigram) {
            let at = more.index_of(trigram);
            assert(spelled_in(encode_utf8(tokens[count - 1]), trigram, at));
        }
        if exists|k: int, at: int|
            0 <= k < count && #[trigger] spelled_in(encode_utf8(tokens[k]), trigram, at) {
            let (k, at) = choose|k: int, at: int|
                0 <= k < count && #[trigger] spelled_in(encode_utf8(tokens[k]), trigram, at);
            if k == count - 1 {
                assert(more[at] == trigram);
            }
        }
    }
}

} // verus!
