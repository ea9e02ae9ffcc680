//! Laws of the order of results: newest first, then by path and line.

use crate::file_entry::Timestamp;
use crate::filters::glob_text;
use crate::grep::MatchView;
use crate::order::is_sorting_order;
use crate::order::sorts_before;
use crate::path::bytes_less;
use crate::path::path_less;
use crate::path::relative_to;
use crate::path::PathKey;
use crate::ranking::file_keys;
use crate::ranking::key_at_most;
use crate::ranking::keys_are;
use crate::ranking::match_keys;
use crate::ranking::path_keys;
use crate::ranking::put_in_order;
use crate::ranking::sorted_by;
use crate::ranking::KeyView;
use crate::ranking::OrderKey;
use crate::records::reordered;
use vstd::prelude::*;
use vstd::utf8::encode_utf8;

verus! {

/// `a` is a later time than `b`; a time that is not known is the earliest.
pub open spec fn is_later(a: Option<Timestamp>, b: Option<Timestamp>) -> bool {
    &&& a is Some
    &&& b is None || a->0.secs > b->0.secs || (a->0.secs == b->0.secs && a->0.nanos > b->0.nanos)
}

/// `order` names each of the first `count` numbers once.
pub open spec fn is_rearrangement(order: Seq<usize>, count: nat) -> bool {
    &&& order.len() == count
    &&& order.no_duplicates()
    &&& forall|i: int| 0 <= i < order.len() ==> #[trigger] order[i] < count
}

proof fn lemma_order_of<V>(before: Seq<V>, after: Seq<V>, views: Seq<KeyView>) -> (order: Seq<usize>)
    requires
        views.len() == before.len(),
        put_in_order(before, after, views),
    ensures
        is_rearrangement(order, before.len()),
        after.len() == before.len(),
        forall|i: int| 0 <= i < after.len() ==> #[trigger] after[i] == before[order[i] as int],
        forall|i: int, j: int|
            #![trigger order[i], order[j]]
            0 <= i < j < order.len() ==> {
                let (a, b) = (views[order[i] as int], views[order[j] as int]);
                &&& key_at_most(a, b)
                &&& a == b ==> order[i] < order[j]
            },
{
    let keys = choose|keys: Seq<OrderKey>|
        keys_are(keys, views) && #[trigger] sorted_by(before, after, keys);
    let order = choose|order: Seq<usize>| #[trigger]
        is_sorting_order(keys, order) && after == reordered(before, order);
    crate::records::lemma_sorting_order_is_distinct(keys, order);
    assert forall|i: int, j: int|
        #![trigger order[i], order[j]]
        0 <= i < j < order.len() implies {
        let (a, b) = (views[order[i] as int], views[order[j] as int]);
        &&& key_at_most(a, b)
        &&& a == b ==> order[i] < order[j]
    } by {
        assert(sorts_before(keys, order[i], order[j]));
        assert(keys[order[i] as int]@ == views[order[i] as int]);
        assert(keys[order[j] as int]@ == views[order[j] as int]);
    }
    order
}

/// Of two matches the first may stand before the second: it is of a later time; or of the same time
/// and of a path below the root whose text comes first; or of the same time and text and on an earlier
/// line; or on the same line and not in a later column.
pub open spec fn match_may_come_first(
    root: PathKey,
    a: MatchView,
    a_time: Option<Timestamp>,
    b: MatchView,
    b_time: Option<Timestamp>,
) -> bool {
    let a_text = encode_utf8(glob_text(relative_to(root, a.file)));
    let b_text = encode_utf8(glob_text(relative_to(root, b.file)));
    ||| is_later(a_time, b_time)
    ||| a_time == b_time && bytes_less(a_text, b_text)
    ||| a_time == b_time && a_text == b_text && a.line < b.line
    ||| a_time == b_time && a_text == b_text && a.line == b.line && a.column <= b.column
}

/// Matches come newest file first; of one time by the path below the root; of one path by line and
/// column; and none is lost. Matches that are the same in all of these keep their order.
pub proof fn lemma_matches_are_ordered(
    root: PathKey,
    before: Seq<MatchView>,
    mtimes: Seq<Option<Timestamp>>,
    after: Seq<MatchView>,
) -> (order: Seq<usize>)
    requires
        mtimes.len() == before.len(),
        put_in_order(before, after, match_keys(root, before, mtimes)),
    ensures
        is_rearrangement(order, before.len()),
        after.len() == before.len(),
        forall|i: int| 0 <= i < after.len() ==> #[trigger] after[i] == before[order[i] as int],
        forall|i: int, j: int|
            #![trigger order[i], order[j]]
            0 <= i < j < order.len() ==> match_may_come_first(
                root,
                before[order[i] as int],
                mtimes[order[i] as int],
                before[order[j] as int],
                mtimes[order[j] as int],
            ),
        forall|i: int, j: int|
            #![trigger order[i], order[j]]
            0 <= i < j < order.len() && mtimes[order[i] as int] == mtimes[order[j] as int]
                && before[order[i] as int].file == before[order[j] as int].file
                && before[order[i] as int].line == before[order[j] as int].line
                && before[order[i] as int].column == before[order[j] as int].column ==> order[i]
                < order[j],
{
    let views = match_keys(root, before, mtimes);
    let order = lemma_order_of(before, after, views);
    assert forall|i: int, j: int|
        #![trigger order[i], order[j]]
        0 <= i < j < order.len() implies match_may_come_first(
        root,
        before[order[i] as int],
        mtimes[order[i] as int],
        before[order[j] as int],
        mtimes[order[j] as int],
    ) by {
        assert(key_at_most(views[order[i] as int], views[order[j] as int]));
    }
    order
}

/// The matches of one file, which has one time, are not parted by those of another path.
pub proof fn lemma_matches_of_a_file_stand_together(
    root: PathKey,
    a: MatchView,
    between: MatchView,
    c: MatchView,
    time: Option<Timestamp>,
    other_time: Option<Timestamp>,
)
    requires
        a.file == c.file,
        match_may_come_first(root, a, time, between, other_time),
        match_may_come_first(root, between, other_time, c, time),
    ensures
        other_time == time,
        encode_utf8(glob_text(relative_to(root, between.file))) == encode_utf8(
            glob_text(relative_to(root, a.file)),
        ),
        a.line <= between.line <= c.line,
{
    crate::path::lemma_bytes_order();
    let less = |x: Seq<u8>, y: Seq<u8>| bytes_less(x, y);
    let x = encode_utf8(glob_text(relative_to(root, a.file)));
    let y = encode_utf8(glob_text(relative_to(root, between.file)));
    assert(less(x, y) && less(y, x) ==> less(x, x));
    assert(!less(x, x));
}

/// Of two paths the first may stand before the second: it is of a later time, or of the same time and
/// with the display text, or else the path, that comes first.
pub open spec fn path_may_come_first(
    a: PathKey,
    a_text: Seq<u8>,
    a_time: Option<Timestamp>,
    b: PathKey,
    b_text: Seq<u8>,
    b_time: Option<Timestamp>,
) -> bool {
    ||| is_later(a_time, b_time)
    ||| a_time == b_time && bytes_less(a_text, b_text)
    ||| a_time == b_time && a_text == b_text && (a == b || path_less(a, b))
}

/// Files come newest first, and of one time by their paths; none is lost.
pub proof fn lemma_files_are_ordered(
    before: Seq<PathKey>,
    times: Seq<Timestamp>,
    after: Seq<PathKey>,
) -> (order: Seq<usize>)
    requires
        times.len() == before.len(),
        put_in_order(before, after, file_keys(before, times)),
    ensures
        is_rearrangement(order, before.len()),
        after.len() == before.len(),
        forall|i: int| 0 <= i < after.len() ==> #[trigger] after[i] == before[order[i] as int],
        forall|i: int, j: int|
            #![trigger order[i], order[j]]
            0 <= i < j < order.len() ==> path_may_come_first(
                before[order[i] as int],
                Seq::empty(),
                Some(times[order[i] as int]),
                before[order[j] as int],
                Seq::empty(),
                Some(times[order[j] as int]),
            ),
{
    let views = file_keys(before, times);
    let order = lemma_order_of(before, after, views);
    assert forall|i: int, j: int|
        #![trigger order[i], order[j]]
        0 <= i < j < order.len() implies path_may_come_first(
        before[order[i] as int],
        Seq::empty(),
        Some(times[order[i] as int]),
        before[order[j] as int],
        Seq::empty(),
        Some(times[order[j] as int]),
    ) by {
        assert(key_at_most(views[order[i] as int], views[order[j] as int]));
    }
    order
}

/// Paths come newest first, then by the text below the root of the form that they are compared by, and
/// then by the paths themselves; none is lost.
pub proof fn lemma_paths_are_ordered(
    root: PathKey,
    before: Seq<PathKey>,
    comparisons: Seq<PathKey>,
    mtimes: Seq<Option<Timestamp>>,
    after: Seq<PathKey>,
) -> (order: Seq<usize>)
    requires
        comparisons.len() == before.len(),
        mtimes.len() == before.len(),
        put_in_order(before, after, path_keys(root, before, comparisons, mtimes)),
    ensures
        is_rearrangement(order, before.len()),
        after.len() == before.len(),
        forall|i: int| 0 <= i < after.len() ==> #[trigger] after[i] == before[order[i] as int],
        forall|i: int, j: int|
            #![trigger order[i], order[j]]
            0 <= i < j < order.len() ==> path_may_come_first(
                before[order[i] as int],
                encode_utf8(glob_text(relative_to(root, comparisons[order[i] as int]))),
                mtimes[order[i] as int],
                before[order[j] as int],
                encode_utf8(glob_text(relative_to(root, comparisons[order[j] as int]))),
                mtimes[order[j] as int],
            ),
{
    let views = path_keys(root, before, comparisons, mtimes);
    let order = lemma_order_of(before, after, views);
    assert forall|i: int, j: int|
        #![trigger order[i], order[j]]
        0 <= i < j < order.len() implies path_may_come_first(
        before[order[i] as int],
        encode_utf8(glob_text(relative_to(root, comparisons[order[i] as int]))),
        mtimes[order[i] as int],
        before[order[j] as int],
        encode_utf8(glob_text(relative_to(root, comparisons[order[j] as int]))),
        mtimes[order[j] as int],
    ) by {
        assert(key_at_most(views[order[i] as int], views[order[j] as int]));
    }
    order
}

} // verus!
