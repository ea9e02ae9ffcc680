//! Laws of what an index takes from a cache file: its files when it is loaded, and its posting lists
//! when they are asked for.

use crate::cache_load::loadable;
use crate::cache_load::loaded_ids;
use crate::cache_load::loaded_path;
use crate::cache_load::loaded_paths;
use crate::cache_load::loaded_view;
use crate::cache_load::IgnoreRulesLoadPolicy;
use crate::cache_read::ParsedCache;
use crate::lexical::group_trigrams;
use crate::lexical::request_for;
use crate::lexical::requests_for;
use crate::path::PathKey;
use crate::path_text::accepted_path;
use crate::path_text::PathProbe;
use crate::postings::ascending_lookup;
use crate::postings::entry_for;
use crate::postings::BasePostings;
use crate::postings::ReadRequest;
use vstd::prelude::*;

verus! {

// ---------------------------------------------------------------------------------------------
// Loading
// ---------------------------------------------------------------------------------------------

/// A cache is loaded where every file in it leads to a path below the root, and where the ignore rules
/// are the same or may differ.
pub proof fn lemma_which_caches_are_loaded(
    parsed: ParsedCache,
    root: PathKey,
    probes: Seq<PathProbe>,
    fingerprint: Seq<char>,
    policy: IgnoreRulesLoadPolicy,
    i: int,
)
    requires
        0 <= i < parsed.files@.len(),
    ensures
        accepted_path(root, parsed.files@[i].path@, probes[i]) is None ==> !loadable(
            parsed,
            root,
            probes,
            fingerprint,
            policy,
        ),
        policy != IgnoreRulesLoadPolicy::BorrowTolerant && parsed.ignore_fingerprint@ != fingerprint
            ==> !loadable(parsed, root, probes, fingerprint, policy),
        (forall|k: int|
            0 <= k < parsed.files@.len() ==> accepted_path(
                root,
                (#[trigger] parsed.files@[k]).path@,
                probes[k],
            ) is Some) && (parsed.ignore_fingerprint@ == fingerprint || policy
            == IgnoreRulesLoadPolicy::BorrowTolerant) ==> loadable(
            parsed,
            root,
            probes,
            fingerprint,
            policy,
        ),
{
    assert(loaded_path(root, parsed.files@, probes, i) == accepted_path(
        root,
        parsed.files@[i].path@,
        probes[i],
    ));
}

proof fn lemma_loaded_ids_lead_to_files(paths: Seq<PathKey>, count: int, path: PathKey)
    requires
        0 <= count <= paths.len(),
        count <= u32::MAX + 1,
    ensures
        loaded_ids(paths, count).contains_key(path) <==> exists|k: int|
            0 <= k < count && #[trigger] paths[k] == path,
        loaded_ids(paths, count).contains_key(path) ==> {
            let id = loaded_ids(paths, count)[path];
            &&& id < count
            &&& paths[id as int] == path
            &&& forall|k: int| id < k < count ==> #[trigger] paths[k] != path
        },
    decreases count,
{
    if count > 0 {
        lemma_loaded_ids_lead_to_files(paths, count - 1, path);
        if exists|k: int| 0 <= k < count && #[trigger] paths[k] == path {
            let k = choose|k: int| 0 <= k < count && #[trigger] paths[k] == path;
            assert(k == count - 1 || k < count - 1);
        }
    }
}

/// A loaded index has the files of the cache, in their order, each with its size, time and hash, under
/// the path that was accepted for it. A path leads to the last file under it. Nothing has changed
/// since, and the index is not ready yet.
pub proof fn lemma_what_is_loaded(
    parsed: ParsedCache,
    root: PathKey,
    probes: Seq<PathProbe>,
    i: int,
    path: PathKey,
)
    requires
        0 <= i < parsed.files@.len(),
        parsed.files@.len() <= u32::MAX,
    ensures
        ({
            let view = loaded_view(parsed, root, probes);
            let file = parsed.files@[i]@;
            &&& view.files.len() == parsed.files@.len()
            &&& view.files[i].size == file.size
            &&& view.files[i].modified == file.modified
            &&& view.files[i].content_hash == file.content_hash
            &&& accepted_path(root, file.path, probes[i]) == Some(view.files[i].path)
                || accepted_path(root, file.path, probes[i]) is None
            &&& view.unindexed.contains(i as u32) <==> file.unindexed
            &&& view.ids.contains_key(path) <==> exists|k: int|
                0 <= k < view.files.len() && (#[trigger] view.files[k]).path == path
            &&& view.ids.contains_key(path) ==> view.ids[path] < view.files.len()
                && view.files[view.ids[path] as int].path == path
            &&& view.file_trigram_count == parsed.file_trigram_count@
            &&& view.base == Some(
                (
                    parsed.base.postings_blob_start,
                    parsed.base.postings_blob_len,
                    parsed.base.lookup@,
                ),
            )
            &&& view.postings.dom().is_empty() && view.superseded.is_empty() && !view.ready
            &&& view.project_root == root
        }),
{
    let paths = loaded_paths(root, parsed.files@, probes);
    let view = loaded_view(parsed, root, probes);
    lemma_loaded_ids_lead_to_files(paths, paths.len() as int, path);
    assert forall|k: int| 0 <= k < paths.len() implies #[trigger] paths[k] == view.files[k].path by {}
    if exists|k: int| 0 <= k < view.files.len() && (#[trigger] view.files[k]).path == path {
        let k = choose|k: int| 0 <= k < view.files.len() && (#[trigger] view.files[k]).path == path;
        assert(paths[k] == path);
    }
    if exists|k: int| 0 <= k < paths.len() && #[trigger] paths[k] == path {
        let k = choose|k: int| 0 <= k < paths.len() && #[trigger] paths[k] == path;
        assert(view.files[k].path == path);
    }
    assert(loaded_path(root, parsed.files@, probes, i) == accepted_path(
        root,
        parsed.files@[i].path@,
        probes[i],
    ));
    assert(view.postings.dom() =~= Set::empty());
}

// ---------------------------------------------------------------------------------------------
// Requests
// ---------------------------------------------------------------------------------------------

/// The list of a trigram with an entry is asked for where the entry points, counted from where the
/// postings begin, with six bytes for each posting. An entry that points out of the postings is not
/// followed, and a trigram without an entry is not asked for.
pub proof fn lemma_what_is_asked_for(base: BasePostings, trigram: u32, k: int)
    requires
        ascending_lookup(base.lookup@),
    ensures
        0 <= k < base.lookup@.len() && base.lookup@[k].trigram == trigram ==> {
            let entry = base.lookup@[k];
            let request = request_for(Some(base), trigram);
            &&& entry.offset + 6 * entry.count > base.postings_blob_len ==> request is None
            &&& entry.offset + 6 * entry.count <= base.postings_blob_len && 6 * entry.count
                <= usize::MAX && base.postings_blob_start + entry.offset <= u64::MAX ==> {
                &&& request is Some
                &&& request->0.trigram == trigram
                &&& request->0.offset == base.postings_blob_start + entry.offset
                &&& request->0.len == 6 * entry.count
            }
        },
        (forall|j: int|
            0 <= j < base.lookup@.len() ==> (#[trigger] base.lookup@[j]).trigram != trigram)
            ==> request_for(Some(base), trigram) is None,
        request_for(None, trigram) is None,
{
    let lookup = base.lookup@;
    if 0 <= k < lookup.len() && lookup[k].trigram == trigram {
        let found = choose|i: int| 0 <= i < lookup.len() && (#[trigger] lookup[i]).trigram == trigram;
        assert(found == k) by {
            if found < k {
                assert(lookup[found].trigram < lookup[k].trigram);
            } else if k < found {
                assert(lookup[k].trigram < lookup[found].trigram);
            }
        }
        assert(entry_for(lookup, trigram) == Some(lookup[k]));
    }
}

/// Each trigram that has a list to read is asked for once, and nothing else is.
pub proof fn lemma_each_list_is_asked_for_once(
    base: Option<BasePostings>,
    trigrams: Seq<u32>,
    count: int,
    request: ReadRequest,
)
    requires
        0 <= count <= trigrams.len(),
    ensures
        requests_for(base, trigrams, count).contains(request) <==> exists|k: int|
            0 <= k < count && request_for(base, #[trigger] trigrams[k]) == Some(request),
        forall|i: int, j: int|
            #![trigger requests_for(base, trigrams, count)[i], requests_for(base, trigrams, count)[j]]
            0 <= i < j < requests_for(base, trigrams, count).len() ==> requests_for(
                base,
                trigrams,
                count,
            )[i] != requests_for(base, trigrams, count)[j],
    decreases count,
{
    let all = requests_for(base, trigrams, count);
    if count > 0 {
        lemma_each_list_is_asked_for_once(base, trigrams, count - 1, request);
        let earlier = requests_for(base, trigrams, count - 1);
        let last = trigrams[count - 1];
        let front = trigrams.take(count - 1);
        if front.contains(last) {
            let k = front.index_of(last);
            assert(trigrams[k] == last);
            assert(all == earlier);
        } else if let Some(new) = request_for(base, last) {
            assert(all == earlier.push(new));
            assert(all[earlier.len() as int] == new);
            if earlier.contains(request) {
                assert(all[earlier.index_of(request)] == request);
            }
            if all.contains(request) && request != new {
                let k = all.index_of(request);
                assert(earlier[k] == request);
            }
            lemma_each_list_is_asked_for_once(base, trigrams, count - 1, new);
            if earlier.contains(new) {
                let k = choose|k: int|
                    0 <= k < count - 1 && request_for(base, #[trigger] trigrams[k]) == Some(new);
                lemma_requests_keep_their_trigram(base, trigrams[k]);
                lemma_requests_keep_their_trigram(base, last);
                assert(trigrams[k] == last);
                assert(front[k] == last);
            }
            assert forall|i: int, j: int| #![trigger all[i], all[j]] 0 <= i < j < all.len() implies all[i]
                != all[j] by {
                if j == earlier.len() {
                    assert(earlier[i] == all[i]);
                    assert(earlier.contains(all[i]));
                } else {
                    assert(earlier[i] == all[i] && earlier[j] == all[j]);
                }
            }
        } else {
            assert(all == earlier);
        }
        if exists|k: int| 0 <= k < count && request_for(base, #[trigger] trigrams[k]) == Some(request) {
            let k = choose|k: int|
                0 <= k < count && request_for(base, #[trigger] trigrams[k]) == Some(request);
            if k < count - 1 {
                assert(earlier.contains(request));
            }
        }
    }
}

proof fn lemma_requests_keep_their_trigram(base: Option<BasePostings>, trigram: u32)
    ensures
        request_for(base, trigram) matches Some(request) ==> request.trigram == trigram,
{
}

/// The trigrams of alternatives are all those of each of them.
pub proof fn lemma_alternatives_give_all_their_trigrams(
    groups: Seq<Vec<u32>>,
    count: int,
    trigram: u32,
)
    requires
        0 <= count <= groups.len(),
    ensures
        group_trigrams(groups, count).contains(trigram) <==> exists|g: int|
            0 <= g < count && (#[trigger] groups[g])@.contains(trigram),
    decreases count,
{
    if count > 0 {
        lemma_alternatives_give_all_their_trigrams(groups, count - 1, trigram);
        let earlier = group_trigrams(groups, count - 1);
        let last = groups[count - 1]@;
        let all = group_trigrams(groups, count);
        if earlier.contains(trigram) {
            assert(all[earlier.index_of(trigram)] == trigram);
        }
        if last.contains(trigram) {
            assert(all[earlier.len() + last.index_of(trigram)] == trigram);
        }
        if all.contains(trigram) {
            let k = all.index_of(trigram);
            if k < earlier.len() {
                assert(earlier[k] == trigram);
            } else {
                assert(last[k - earlier.len()] == trigram);
            }
        }
    }
}

} // verus!
