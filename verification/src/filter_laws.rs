//! Laws of path filters: which paths pass, in terms of the globs that were asked for.

use crate::filters::filters_follow;
use crate::filters::glob_text;
use crate::filters::globs_error;
use crate::filters::PathFilters;
use crate::outside::glob_accepts;
use crate::outside::glob_error;
use crate::outside::globs_held;
use crate::outside::paths_matched;
use crate::path::relative_to;
use crate::path::PathKey;
use vstd::prelude::*;

verus! {

/// A path that an excluding glob matches does not pass, whatever the including globs are; with
/// including globs a path passes only where one of them matches it; and every other path passes. The
/// globs are those that were asked for, and they see the path below the root.
pub proof fn lemma_filters_do_what_their_globs_say(
    including: Seq<Seq<char>>,
    excluding: Seq<Seq<char>>,
    filters: PathFilters,
    root: PathKey,
    path: PathKey,
)
    requires
        filters_follow(including, excluding, Ok(filters)),
        forall|i: int| 0 <= i < including.len() ==> !(#[trigger] including[i]).contains('\\'),
        forall|i: int| 0 <= i < excluding.len() ==> !(#[trigger] excluding[i]).contains('\\'),
    ensures
        ({
            let text = glob_text(relative_to(root, path));
            &&& (exists|i: int|
                0 <= i < excluding.len() && glob_accepts(#[trigger] excluding[i], text))
                ==> !filters.accepts(root, path)
            &&& including.len() > 0 && (forall|i: int|
                0 <= i < including.len() ==> !glob_accepts(#[trigger] including[i], text))
                ==> !filters.accepts(root, path)
            &&& (including.len() == 0 || exists|i: int|
                0 <= i < including.len() && glob_accepts(#[trigger] including[i], text)) && (
            forall|i: int|
                0 <= i < excluding.len() ==> !glob_accepts(#[trigger] excluding[i], text))
                ==> filters.accepts(root, path)
        }),
{
    assert(crate::outside::no_backslashes(including));
    assert(crate::outside::no_backslashes(excluding));
}

/// Where a set of globs excludes a text, the text does not pass, with or without a set that includes;
/// this holds of globs with a backslash too.
pub proof fn lemma_excluded_texts_do_not_pass(filters: PathFilters, root: PathKey, path: PathKey)
    requires
        filters.includes matches Some(set) ==> exists|i: int|
            0 <= i < globs_held(set).len() && (#[trigger] globs_held(set)[i]).contains('\\'),
        filters.excludes matches Some(set) ==> exists|i: int|
            0 <= i < globs_held(set).len() && (#[trigger] globs_held(set)[i]).contains('\\'),
    ensures
        ({
            let text = glob_text(relative_to(root, path));
            filters.accepts(root, path) <==> (filters.includes is None || paths_matched(
                filters.includes->0,
            ).contains(text)) && (filters.excludes is None || !paths_matched(
                filters.excludes->0,
            ).contains(text))
        }),
{
    if let Some(set) = filters.includes {
        let i = choose|i: int|
            0 <= i < globs_held(set).len() && (#[trigger] globs_held(set)[i]).contains('\\');
        assert(!crate::outside::no_backslash(globs_held(set)[i]));
    }
    if let Some(set) = filters.excludes {
        let i = choose|i: int|
            0 <= i < globs_held(set).len() && (#[trigger] globs_held(set)[i]).contains('\\');
        assert(!crate::outside::no_backslash(globs_held(set)[i]));
    }
}

proof fn lemma_first_error(patterns: Seq<Seq<char>>, count: int, at: int)
    requires
        0 <= at < count <= patterns.len(),
        glob_error(patterns[at]) is Some,
        forall|i: int| 0 <= i < at ==> glob_error(#[trigger] patterns[i]) is None,
    ensures
        globs_error(patterns, at) is None,
        globs_error(patterns, count) == glob_error(patterns[at]),
    decreases count,
{
    lemma_no_error(patterns, at);
    if at < count - 1 {
        lemma_first_error(patterns, count - 1, at);
    }
}

proof fn lemma_no_error(patterns: Seq<Seq<char>>, count: int)
    requires
        0 <= count <= patterns.len(),
        forall|i: int| 0 <= i < count ==> glob_error(#[trigger] patterns[i]) is None,
    ensures
        globs_error(patterns, count) is None,
    decreases count,
{
    if count > 0 {
        lemma_no_error(patterns, count - 1);
        assert(glob_error(patterns[count - 1]) is None);
    }
}

/// Globs of which one is invalid make no filters; the error is that of the first such glob, those that
/// include looked at before those that exclude.
pub proof fn lemma_the_first_invalid_glob_is_told(
    including: Seq<Seq<char>>,
    excluding: Seq<Seq<char>>,
    built: Result<PathFilters, String>,
    at: int,
)
    requires
        filters_follow(including, excluding, built),
        forall|i: int| 0 <= i < including.len() ==> !(#[trigger] including[i]).contains('\\'),
        forall|i: int| 0 <= i < excluding.len() ==> !(#[trigger] excluding[i]).contains('\\'),
    ensures
        0 <= at < including.len() && glob_error(including[at]) is Some && (forall|i: int|
            0 <= i < at ==> glob_error(#[trigger] including[i]) is None) ==> (
        built matches Err(text) && Some(text@) == glob_error(including[at])),
        0 <= at < excluding.len() && glob_error(excluding[at]) is Some ==> built is Err,
        including.len() == 0 && 0 <= at < excluding.len() && glob_error(excluding[at]) is Some && (
        forall|i: int| 0 <= i < at ==> glob_error(#[trigger] excluding[i]) is None) ==> (
        built matches Err(text) && Some(text@) == glob_error(excluding[at])),
{
    assert(crate::outside::no_backslashes(including));
    assert(crate::outside::no_backslashes(excluding));
    if 0 <= at < including.len() && glob_error(including[at]) is Some && forall|i: int|
        0 <= i < at ==> glob_error(#[trigger] including[i]) is None {
        lemma_first_error(including, including.len() as int, at);
    }
    if 0 <= at < excluding.len() && glob_error(excluding[at]) is Some {
        lemma_some_error(excluding, excluding.len() as int, at);
        if forall|i: int| 0 <= i < at ==> glob_error(#[trigger] excluding[i]) is None {
            lemma_first_error(excluding, excluding.len() as int, at);
        }
    }
}

proof fn lemma_some_error(patterns: Seq<Seq<char>>, count: int, at: int)
    requires
        0 <= at < count <= patterns.len(),
        glob_error(patterns[at]) is Some,
    ensures
        globs_error(patterns, count) is Some,
    decreases count,
{
    if at < count - 1 {
        lemma_some_error(patterns, count - 1, at);
    }
}

} // verus!
