//! Which paths a search looks at.

use crate::outside::add_glob;
use crate::outside::build_glob_set;
use crate::outside::glob_accepts;
use crate::outside::glob_builder;
use crate::outside::glob_error;
use crate::outside::glob_set_matches;
use crate::outside::globs_added;
use crate::outside::globs_held;
use crate::outside::lossy_chars;
use crate::outside::lossy_text;
use crate::outside::no_backslash;
use crate::outside::no_backslashes;
use crate::outside::paths_matched;
use crate::path::relative_to;
use crate::path::relative_to_root;
use crate::path::PathKey;
use crate::path::SearchPath;
use crate::path_text::path_text;
use crate::text::replace_backslashes;
use crate::text::with_slashes;
use vstd::prelude::*;

verus! {

/// A path as globs see it and as results are ordered by: its text with slashes only.
pub open spec fn glob_text(path: PathKey) -> Seq<char> {
    with_slashes(lossy_chars(path_text(path)))
}

pub fn to_glob_path(path: &SearchPath) -> (text: String)
    ensures
        text@ == glob_text(path@),
{
    let bytes = path.text();
    let text = lossy_text(bytes.as_slice());
    replace_backslashes(text.as_str())
}

/// Globs that a path must match, and globs that it must not match.
pub struct PathFilters {
    pub includes: Option<globset::GlobSet>,
    pub excludes: Option<globset::GlobSet>,
}

/// Some glob matches the text.
pub open spec fn any_glob_accepts(globs: Seq<Seq<char>>, text: Seq<char>) -> bool {
    exists|i: int| 0 <= i < globs.len() && glob_accepts(#[trigger] globs[i], text)
}

/// The globs of a set, where there is one.
pub open spec fn globs_of(set: Option<globset::GlobSet>) -> Option<Seq<Seq<char>>> {
    match set {
        Some(set) => Some(globs_held(set)),
        None => None,
    }
}

/// The set matches the text. Which text a glob with a backslash matches differs between platforms.
pub open spec fn set_accepts(set: globset::GlobSet, text: Seq<char>) -> bool {
    if no_backslashes(globs_held(set)) {
        any_glob_accepts(globs_held(set), text)
    } else {
        paths_matched(set).contains(text)
    }
}

impl PathFilters {
    /// No glob holds a backslash.
    pub open spec fn is_portable(&self) -> bool {
        &&& self.includes matches Some(set) ==> no_backslashes(globs_held(set))
        &&& self.excludes matches Some(set) ==> no_backslashes(globs_held(set))
    }

    /// The path, seen from `root`, matches one of the including globs and none of the excluding
    /// ones.
    pub open spec fn accepts(&self, root: PathKey, path: PathKey) -> bool {
        let text = glob_text(relative_to(root, path));
        &&& self.includes matches Some(set) ==> set_accepts(set, text)
        &&& self.excludes matches Some(set) ==> !set_accepts(set, text)
    }

    /// Filters that let every path pass.
    pub fn none() -> (filters: PathFilters)
        ensures
            filters.includes is None,
            filters.excludes is None,
    {
        PathFilters { includes: None, excludes: None }
    }

    pub fn matches(&self, root: &SearchPath, path: &SearchPath) -> (passes: bool)
        ensures
            passes == self.accepts(root@, path@),
    {
        let relative = to_glob_path(&relative_to_root(root, path));
        proof {
            assert(no_backslash(relative@)) by {
                let lossy = lossy_chars(path_text(relative_to(root@, path@)));
                if relative@.contains('\\') {
                    let i = relative@.index_of('\\');
                    assert(with_slashes(lossy)[i] == '\\');
                }
            }
        }
        if let Some(includes) = &self.includes {
            if !glob_set_matches(includes, relative.as_str()) {
                return false;
            }
        }
        if let Some(excludes) = &self.excludes {
            if glob_set_matches(excludes, relative.as_str()) {
                return false;
            }
        }
        true
    }

    /// Which of `paths` pass.
    pub fn match_all(&self, root: &SearchPath, paths: &Vec<SearchPath>) -> (flags: Vec<bool>)
        ensures
            flags@.len() == paths@.len(),
            forall|i: int|
                0 <= i < flags@.len() ==> #[trigger] flags@[i] == self.accepts(root@, paths@[i]@),
    {
        let mut flags: Vec<bool> = Vec::with_capacity(paths.len());
        let mut i: usize = 0;
        while i < paths.len()
            invariant
                i <= paths@.len(),
                flags@.len() == i,
                forall|k: int|
                    0 <= k < i ==> #[trigger] flags@[k] == self.accepts(root@, paths@[k]@),
            decreases paths@.len() - i,
        {
            flags.push(self.matches(root, &paths[i]));
            i += 1;
        }
        flags
    }
}

pub open spec fn text_views(texts: Seq<String>) -> Seq<Seq<char>> {
    texts.map_values(|text: String| text@)
}

/// The error of the first glob that is not valid.
pub open spec fn globs_error(patterns: Seq<Seq<char>>, count: int) -> Option<Seq<char>>
    decreases count,
{
    if count <= 0 {
        None
    } else {
        match globs_error(patterns, count - 1) {
            Some(error) => Some(error),
            None => glob_error(patterns[count - 1]),
        }
    }
}

/// What may become of a list of globs: no set where there are none; the error of the first that is not
/// valid; else the set of all of them, or an error of putting them together. Whether a glob with a
/// backslash is valid is left open.
pub open spec fn is_globset_of(
    patterns: Seq<Seq<char>>,
    result: Result<Option<Seq<Seq<char>>>, Seq<char>>,
) -> bool {
    let error = globs_error(patterns, patterns.len() as int);
    if patterns.len() == 0 {
        result == Ok::<Option<Seq<Seq<char>>>, Seq<char>>(None)
    } else {
        match result {
            Ok(held) => held == Some(patterns) && (no_backslashes(patterns) ==> error is None),
            Err(text) => no_backslashes(patterns) && error is Some ==> error == Some(text),
        }
    }
}

pub open spec fn glob_result(result: Result<Option<globset::GlobSet>, String>) -> Result<
    Option<Seq<Seq<char>>>,
    Seq<char>,
> {
    match result {
        Ok(set) => Ok(globs_of(set)),
        Err(text) => Err(text@),
    }
}

pub fn build_globset(patterns: &Vec<String>) -> (result: Result<
    Option<globset::GlobSet>,
    String,
>)
    ensures
        is_globset_of(text_views(patterns@), glob_result(result)),
{
    let ghost texts = text_views(patterns@);
    if patterns.len() == 0 {
        return Ok(None);
    }
    let mut builder = glob_builder();
    let mut i: usize = 0;
    assert(texts.take(0) =~= Seq::<Seq<char>>::empty());
    while i < patterns.len()
        invariant
            i <= patterns@.len(),
            texts == text_views(patterns@),
            globs_added(builder) == texts.take(i as int),
            no_backslashes(texts) ==> globs_error(texts, i as int) is None,
        decreases patterns@.len() - i,
    {
        let pattern = &patterns[i];
        assert(texts[i as int] == pattern@);
        match add_glob(&mut builder, pattern.as_str()) {
            Ok(()) => {},
            Err(text) => {
                proof {
                    if no_backslashes(texts) {
                        assert(globs_error(texts, i + 1) == Some(text@));
                        lemma_first_error_stays(texts, i + 1, texts.len() as int);
                    }
                }
                return Err(text);
            },
        }
        proof {
            assert(texts.take(i + 1) =~= texts.take(i as int).push(texts[i as int]));
        }
        i += 1;
    }
    assert(texts.take(i as int) =~= texts);
    match build_glob_set(&builder) {
        Ok(set) => Ok(Some(set)),
        Err(text) => Err(text),
    }
}

proof fn lemma_first_error_stays(patterns: Seq<Seq<char>>, few: int, many: int)
    requires
        0 <= few <= many,
        globs_error(patterns, few) is Some,
    ensures
        globs_error(patterns, many) == globs_error(patterns, few),
    decreases many,
{
    if few < many {
        lemma_first_error_stays(patterns, few, many - 1);
    }
}

/// What may become of the globs of two filters. The including ones are put together first.
pub open spec fn filters_follow(
    including: Seq<Seq<char>>,
    excluding: Seq<Seq<char>>,
    result: Result<PathFilters, String>,
) -> bool {
    match result {
        Ok(filters) => is_globset_of(including, Ok(globs_of(filters.includes))) && is_globset_of(
            excluding,
            Ok(globs_of(filters.excludes)),
        ),
        Err(text) => is_globset_of(including, Err(text@)) || (is_globset_of(
            including,
            Ok(held_globs(including)),
        ) && is_globset_of(excluding, Err(text@))),
    }
}

/// What a set of globs holds; there is none where there are no globs.
pub open spec fn held_globs(patterns: Seq<Seq<char>>) -> Option<Seq<Seq<char>>> {
    if patterns.len() == 0 {
        None
    } else {
        Some(patterns)
    }
}

/// The filters of a request; the including globs are looked at first.
pub fn build_path_filters(including: &Vec<String>, excluding: &Vec<String>) -> (result: Result<
    PathFilters,
    String,
>)
    ensures
        filters_follow(text_views(including@), text_views(excluding@), result),
        result matches Ok(filters) ==> no_backslashes(text_views(including@)) && no_backslashes(
            text_views(excluding@),
        ) ==> filters.is_portable(),
{
    let includes = match build_globset(including) {
        Ok(set) => set,
        Err(text) => {
            return Err(text);
        },
    };
    let excludes = match build_globset(excluding) {
        Ok(set) => set,
        Err(text) => {
            return Err(text);
        },
    };
    Ok(PathFilters { includes, excludes })
}

} // verus!
