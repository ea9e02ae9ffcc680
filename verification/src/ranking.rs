//! The order of results.

use crate::file_entry::time_at_most;
use crate::file_entry::Timestamp;
use crate::filters::glob_text;
use crate::filters::to_glob_path;
use crate::grep::match_views;
use crate::grep::GrepMatch;
use crate::grep::MatchView;
use crate::order::is_sorting_order;
use crate::order::sorting_order;
use crate::order::TotalOrder;
use crate::path::bytes_less;
use crate::path::lemma_bytes_order;
use crate::path::lemma_path_order;
use crate::path::path_less;
use crate::path::relate_bytes;
use crate::path::relative_to;
use crate::path::relative_to_root;
use crate::path::PathKey;
use crate::path::Relation;
use crate::path::SearchPath;
use crate::records::reordered;
use vstd::prelude::*;
use vstd::utf8::encode_utf8;

verus! {

/// What a result is ordered by: newest first, then by display path, path, line and column.
pub struct OrderKey {
    pub mtime: Option<Timestamp>,
    pub display: String,
    pub path: SearchPath,
    pub line: u32,
    pub column: u32,
}

/// The mathematical counterpart of an `OrderKey`.
pub struct KeyView {
    pub mtime: Option<Timestamp>,
    pub display: Seq<u8>,
    pub path: PathKey,
    pub line: u32,
    pub column: u32,
}

impl View for OrderKey {
    type V = KeyView;

    open spec fn view(&self) -> KeyView {
        KeyView {
            mtime: self.mtime,
            display: encode_utf8(self.display@),
            path: self.path@,
            line: self.line,
            column: self.column,
        }
    }
}

/// `a` is older than `b`; an unknown time is the oldest.
pub open spec fn older(a: Option<Timestamp>, b: Option<Timestamp>) -> bool {
    match (a, b) {
        (None, Some(_)) => true,
        (Some(a), Some(b)) => time_at_most(a, b) && a != b,
        _ => false,
    }
}

/// `a` does not come after `b`.
pub open spec fn key_at_most(a: KeyView, b: KeyView) -> bool {
    if a.mtime != b.mtime {
        older(b.mtime, a.mtime)
    } else if a.display != b.display {
        bytes_less(a.display, b.display)
    } else if a.path != b.path {
        path_less(a.path, b.path)
    } else if a.line != b.line {
        a.line < b.line
    } else {
        a.column <= b.column
    }
}

fn is_older(a: Option<Timestamp>, b: Option<Timestamp>) -> (result: bool)
    ensures
        result == older(a, b),
{
    match (a, b) {
        (None, Some(_)) => true,
        (Some(a), Some(b)) => a.is_at_most(&b) && !(a == b),
        _ => false,
    }
}

fn same_time(a: Option<Timestamp>, b: Option<Timestamp>) -> (same: bool)
    ensures
        same == (a == b),
{
    match (a, b) {
        (None, None) => true,
        (Some(a), Some(b)) => a == b,
        _ => false,
    }
}

proof fn lemma_bytes_facts(a: Seq<u8>, b: Seq<u8>, c: Seq<u8>)
    ensures
        !bytes_less(a, a),
        bytes_less(a, b) || a == b || bytes_less(b, a),
        !(bytes_less(a, b) && bytes_less(b, a)),
        bytes_less(a, b) && bytes_less(b, c) ==> bytes_less(a, c),
{
    lemma_bytes_order();
    let less = |x: Seq<u8>, y: Seq<u8>| bytes_less(x, y);
    assert(!less(a, a));
    assert(less(a, b) || a == b || less(b, a));
    assert(less(a, b) && less(b, a) ==> less(a, a));
    assert(less(a, b) && less(b, c) ==> less(a, c));
}

proof fn lemma_path_facts(a: PathKey, b: PathKey, c: PathKey)
    ensures
        !path_less(a, a),
        path_less(a, b) || a == b || path_less(b, a),
        !(path_less(a, b) && path_less(b, a)),
        path_less(a, b) && path_less(b, c) ==> path_less(a, c),
{
    lemma_path_order();
    let less = |x: PathKey, y: PathKey| path_less(x, y);
    assert(!less(a, a));
    assert(less(a, b) || a == b || less(b, a));
    assert(less(a, b) && less(b, a) ==> less(a, a));
    assert(less(a, b) && less(b, c) ==> less(a, c));
}

impl TotalOrder for OrderKey {
    open spec fn at_most(&self, other: &Self) -> bool {
        key_at_most(self@, other@)
    }

    proof fn lemma_total(a: &Self, b: &Self) {
        lemma_bytes_facts(a@.display, b@.display, b@.display);
        lemma_path_facts(a@.path, b@.path, b@.path);
    }

    proof fn lemma_transitive(a: &Self, b: &Self, c: &Self) {
        lemma_bytes_facts(a@.display, b@.display, c@.display);
        lemma_bytes_facts(b@.display, c@.display, a@.display);
        lemma_bytes_facts(c@.display, a@.display, b@.display);
        lemma_path_facts(a@.path, b@.path, c@.path);
        lemma_path_facts(b@.path, c@.path, a@.path);
        lemma_path_facts(c@.path, a@.path, b@.path);
    }

    fn is_at_most(&self, other: &Self) -> (result: bool) {
        if !same_time(self.mtime, other.mtime) {
            return is_older(other.mtime, self.mtime);
        }
        proof {
            lemma_bytes_facts(self@.display, other@.display, other@.display);
            lemma_path_facts(self@.path, other@.path, other@.path);
        }
        match relate_bytes(self.display.as_str().as_bytes(), other.display.as_str().as_bytes()) {
            Relation::Before => true,
            Relation::After => false,
            Relation::Same => match self.path.relate(&other.path) {
                Relation::Before => true,
                Relation::After => false,
                Relation::Same => if self.line != other.line {
                    self.line < other.line
                } else {
                    self.column <= other.column
                },
            },
        }
    }
}

/// Two sorting orders of the same items are the same.
pub proof fn lemma_sorting_order_is_determined<T: TotalOrder>(
    items: Seq<T>,
    left: Seq<usize>,
    right: Seq<usize>,
)
    requires
        is_sorting_order(items, left),
        is_sorting_order(items, right),
    ensures
        left == right,
{
    assert forall|i: int| 0 <= i < left.len() implies left[i] == right[i] by {
        lemma_same_position(items, left, right, i);
    }
    assert(left =~= right);
}

proof fn lemma_same_position<T: TotalOrder>(
    items: Seq<T>,
    left: Seq<usize>,
    right: Seq<usize>,
    at: int,
)
    requires
        is_sorting_order(items, left),
        is_sorting_order(items, right),
        0 <= at < left.len(),
    ensures
        left[at] == right[at],
    decreases at,
{
    assert forall|i: int| 0 <= i < at implies left[i] == right[i] by {
        lemma_same_position(items, left, right, i);
    }
    if left[at] != right[at] {
        crate::records::lemma_sorting_order_is_distinct(items, left);
        crate::records::lemma_sorting_order_is_distinct(items, right);
        assert(left.contains(right[at])) by {
            assert(right[at] < items.len());
        }
        assert(right.contains(left[at])) by {
            assert(left[at] < items.len());
        }
        let i = left.index_of(right[at]);
        let j = right.index_of(left[at]);
        assert(i > at) by {
            if i < at {
                assert(left[i] == right[i]);
                assert(right[i] == right[at]);
            }
        }
        assert(j > at) by {
            if j < at {
                assert(left[j] == right[j]);
                assert(left[j] == left[at]);
            }
        }
        assert(crate::order::sorts_before(items, left[at], left[i]));
        assert(crate::order::sorts_before(items, right[at], right[j]));
    }
}

/// The order of results depends on their keys alone: `after` is `before`, sorted stably by `keys`.
pub open spec fn sorted_by<V>(before: Seq<V>, after: Seq<V>, keys: Seq<OrderKey>) -> bool {
    exists|order: Seq<usize>| #[trigger]
        is_sorting_order(keys, order) && after == reordered(before, order)
}

/// The keys say this.
pub open spec fn keys_are(keys: Seq<OrderKey>, views: Seq<KeyView>) -> bool {
    keys.len() == views.len() && forall|i: int|
        0 <= i < keys.len() ==> (#[trigger] keys[i])@ == views[i]
}

/// `after` is `before`, sorted stably by the keys that `views` say.
pub open spec fn put_in_order<V>(before: Seq<V>, after: Seq<V>, views: Seq<KeyView>) -> bool {
    exists|keys: Seq<OrderKey>|
        keys_are(keys, views) && #[trigger] sorted_by(before, after, keys)
}

// ---------------------------------------------------------------------------------------------
// Matches
// ---------------------------------------------------------------------------------------------

/// The key of a path's display form below `root`.
pub open spec fn display_key(root: PathKey, path: PathKey) -> Seq<u8> {
    encode_utf8(glob_text(relative_to(root, path)))
}

pub fn normalized_display_sort_key(root: &SearchPath, path: &SearchPath) -> (key: String)
    ensures
        encode_utf8(key@) == display_key(root@, path@),
{
    to_glob_path(&relative_to_root(root, path))
}

pub open spec fn match_key(root: PathKey, found: MatchView, mtime: Option<Timestamp>) -> KeyView {
    KeyView {
        mtime,
        display: display_key(root, found.file),
        path: Seq::empty(),
        line: found.line,
        column: found.column,
    }
}

pub open spec fn match_keys(
    root: PathKey,
    matches: Seq<MatchView>,
    mtimes: Seq<Option<Timestamp>>,
) -> Seq<KeyView> {
    Seq::new(matches.len(), |i: int| match_key(root, matches[i], mtimes[i]))
}

impl GrepMatch {
    pub fn duplicate(&self) -> (copy: GrepMatch)
        ensures
            copy@ == self@,
    {
        GrepMatch {
            file: self.file.duplicate(),
            line: self.line,
            column: self.column,
            line_text: self.line_text.clone(),
            match_text: self.match_text.clone(),
        }
    }
}

/// Matches newest file first, then by display path, line and column. `mtimes` holds the time of each
/// match's file.
pub fn sort_grep_matches_by_mtime_desc(
    matches: &Vec<GrepMatch>,
    project_root: &SearchPath,
    mtimes: &Vec<Option<Timestamp>>,
) -> (sorted: Vec<GrepMatch>)
    requires
        mtimes@.len() == matches@.len(),
    ensures
        put_in_order(
            match_views(matches@),
            match_views(sorted@),
            match_keys(project_root@, match_views(matches@), mtimes@),
        ),
{
    let ghost views = match_views(matches@);
    let mut keys: Vec<OrderKey> = Vec::with_capacity(matches.len());
    let mut i: usize = 0;
    while i < matches.len()
        invariant
            mtimes@.len() == matches@.len(),
            views == match_views(matches@),
            i <= matches@.len(),
            keys@.len() == i,
            forall|k: int|
                0 <= k < i ==> (#[trigger] keys@[k])@ == match_key(
                    project_root@,
                    views[k],
                    mtimes@[k],
                ),
        decreases matches@.len() - i,
    {
        keys.push(
            OrderKey {
                mtime: mtimes[i],
                display: normalized_display_sort_key(project_root, &matches[i].file),
                path: SearchPath::new(),
                line: matches[i].line,
                column: matches[i].column,
            },
        );
        i += 1;
    }
    let order = sorting_order(keys.as_slice());
    let mut sorted: Vec<GrepMatch> = Vec::with_capacity(matches.len());
    let mut k: usize = 0;
    while k < order.len()
        invariant
            keys@.len() == matches@.len(),
            views == match_views(matches@),
            is_sorting_order(keys@, order@),
            k <= order@.len(),
            sorted@.len() == k,
            forall|m: int| 0 <= m < k ==> (#[trigger] sorted@[m])@ == views[order@[m] as int],
        decreases order@.len() - k,
    {
        sorted.push(matches[order[k]].duplicate());
        k += 1;
    }
    proof {
        assert(match_views(sorted@) =~= reordered(views, order@));
        assert(keys_are(keys@, match_keys(project_root@, views, mtimes@)));
        assert(sorted_by(views, match_views(sorted@), keys@));
    }
    sorted
}

// ---------------------------------------------------------------------------------------------
// Paths
// ---------------------------------------------------------------------------------------------

/// Paths in the order of their keys.
fn sort_paths_by(paths: &Vec<SearchPath>, keys: &Vec<OrderKey>) -> (sorted: Vec<SearchPath>)
    requires
        keys@.len() == paths@.len(),
    ensures
        sorted_by(
            crate::ingest::path_views(paths@),
            crate::ingest::path_views(sorted@),
            keys@,
        ),
{
    let ghost views = crate::ingest::path_views(paths@);
    let order = sorting_order(keys.as_slice());
    let mut sorted: Vec<SearchPath> = Vec::with_capacity(paths.len());
    let mut k: usize = 0;
    while k < order.len()
        invariant
            keys@.len() == paths@.len(),
            views == crate::ingest::path_views(paths@),
            is_sorting_order(keys@, order@),
            k <= order@.len(),
            sorted@.len() == k,
            forall|m: int| 0 <= m < k ==> (#[trigger] sorted@[m])@ == views[order@[m] as int],
        decreases order@.len() - k,
    {
        sorted.push(paths[order[k]].duplicate());
        k += 1;
    }
    assert(crate::ingest::path_views(sorted@) =~= reordered(views, order@));
    sorted
}

pub open spec fn file_key(path: PathKey, modified: Timestamp) -> KeyView {
    KeyView { mtime: Some(modified), display: Seq::empty(), path, line: 0, column: 0 }
}

pub open spec fn file_keys(paths: Seq<PathKey>, times: Seq<Timestamp>) -> Seq<KeyView> {
    Seq::new(paths.len(), |i: int| file_key(paths[i], times[i]))
}

/// Files newest first, then by path.
pub fn sort_files_by_mtime_desc(paths: &Vec<SearchPath>, times: &Vec<Timestamp>) -> (sorted: Vec<
    SearchPath,
>)
    requires
        times@.len() == paths@.len(),
    ensures
        put_in_order(
            crate::ingest::path_views(paths@),
            crate::ingest::path_views(sorted@),
            file_keys(crate::ingest::path_views(paths@), times@),
        ),
{
    let mut keys: Vec<OrderKey> = Vec::with_capacity(paths.len());
    let mut i: usize = 0;
    while i < paths.len()
        invariant
            times@.len() == paths@.len(),
            i <= paths@.len(),
            keys@.len() == i,
            forall|k: int|
                0 <= k < i ==> (#[trigger] keys@[k])@ == file_key(paths@[k]@, times@[k]),
        decreases paths@.len() - i,
    {
        let display = String::new();
        assert(encode_utf8(display@) =~= Seq::<u8>::empty());
        keys.push(
            OrderKey {
                mtime: Some(times[i]),
                display,
                path: paths[i].duplicate(),
                line: 0,
                column: 0,
            },
        );
        i += 1;
    }
    sort_paths_by(paths, &keys)
}

pub open spec fn path_key(
    root: PathKey,
    path: PathKey,
    comparison: PathKey,
    mtime: Option<Timestamp>,
) -> KeyView {
    KeyView { mtime, display: display_key(root, comparison), path, line: 0, column: 0 }
}

pub open spec fn path_keys(
    root: PathKey,
    paths: Seq<PathKey>,
    comparisons: Seq<PathKey>,
    mtimes: Seq<Option<Timestamp>>,
) -> Seq<KeyView> {
    Seq::new(paths.len(), |i: int| path_key(root, paths[i], comparisons[i], mtimes[i]))
}

/// Paths newest first, then by display path, then by path. `comparison_paths` holds the form of each
/// path that its display path is made from, `mtimes` its time where it is known.
pub fn sort_paths_by_mtime_desc(
    paths: &Vec<SearchPath>,
    stable_root: &SearchPath,
    comparison_paths: &Vec<SearchPath>,
    mtimes: &Vec<Option<Timestamp>>,
) -> (sorted: Vec<SearchPath>)
    requires
        comparison_paths@.len() == paths@.len(),
        mtimes@.len() == paths@.len(),
    ensures
        put_in_order(
            crate::ingest::path_views(paths@),
            crate::ingest::path_views(sorted@),
            path_keys(
                stable_root@,
                crate::ingest::path_views(paths@),
                crate::ingest::path_views(comparison_paths@),
                mtimes@,
            ),
        ),
{
    let mut keys: Vec<OrderKey> = Vec::with_capacity(paths.len());
    let mut i: usize = 0;
    while i < paths.len()
        invariant
            comparison_paths@.len() == paths@.len(),
            mtimes@.len() == paths@.len(),
            i <= paths@.len(),
            keys@.len() == i,
            forall|k: int|
                0 <= k < i ==> (#[trigger] keys@[k])@ == path_key(
                    stable_root@,
                    paths@[k]@,
                    comparison_paths@[k]@,
                    mtimes@[k],
                ),
        decreases paths@.len() - i,
    {
        keys.push(
            OrderKey {
                mtime: mtimes[i],
                display: normalized_display_sort_key(stable_root, &comparison_paths[i]),
                path: paths[i].duplicate(),
                line: 0,
                column: 0,
            },
        );
        i += 1;
    }
    sort_paths_by(paths, &keys)
}

/// Sorting keeps every result: none is added or lost.
pub proof fn lemma_sorting_keeps_results<V>(before: Seq<V>, after: Seq<V>, views: Seq<KeyView>)
    requires
        views.len() == before.len(),
        put_in_order(before, after, views),
    ensures
        after.to_multiset() == before.to_multiset(),
{
    let keys = choose|keys: Seq<OrderKey>|
        keys_are(keys, views) && #[trigger] sorted_by(before, after, keys);
    let order = choose|order: Seq<usize>| #[trigger]
        is_sorting_order(keys, order) && after == reordered(before, order);
    crate::records::lemma_sorting_order_is_distinct(keys, order);
    crate::records::lemma_reordering_keeps_items(before, order);
}

/// Results with the same keys come out in the same order.
pub proof fn lemma_sorting_is_determined<V>(
    before: Seq<V>,
    left: Seq<V>,
    right: Seq<V>,
    views: Seq<KeyView>,
)
    requires
        put_in_order(before, left, views),
        put_in_order(before, right, views),
    ensures
        left == right,
{
    let keys = choose|keys: Seq<OrderKey>|
        keys_are(keys, views) && #[trigger] sorted_by(before, left, keys);
    let other_keys = choose|keys: Seq<OrderKey>|
        keys_are(keys, views) && #[trigger] sorted_by(before, right, keys);
    let a = choose|order: Seq<usize>| #[trigger]
        is_sorting_order(keys, order) && left == reordered(before, order);
    let b = choose|order: Seq<usize>| #[trigger]
        is_sorting_order(other_keys, order) && right == reordered(before, order);
    assert(is_sorting_order(keys, b)) by {
        assert forall|i: int, j: int| 0 <= i < j < b.len() implies crate::order::sorts_before(
            keys,
            #[trigger] b[i],
            #[trigger] b[j],
        ) by {
            assert(crate::order::sorts_before(other_keys, b[i], b[j]));
            assert(keys[b[i] as int]@ == other_keys[b[i] as int]@);
            assert(keys[b[j] as int]@ == other_keys[b[j] as int]@);
        }
    }
    lemma_sorting_order_is_determined(keys, a, b);
}

} // verus!
