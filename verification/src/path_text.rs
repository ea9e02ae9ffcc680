//! The textual form of paths, and what paths from outside are turned into.

use crate::outside::lossy_chars;
use crate::outside::lossy_text;
use crate::path::absolute;
use crate::path::cached_relative;
use crate::path::confined;
use crate::path::is_within_search_root;
use crate::path::joined;
use crate::path::names_only;
use crate::path::normalize_path;
use crate::path::normalized;
use crate::path::validate_cached_relative_path;
use crate::path::within_root;
use crate::path::PartKey;
use crate::path::PathKey;
use crate::path::PathPart;
use crate::path::SearchPath;
use vstd::prelude::*;

verus! {

/// `/`
pub const SLASH: u8 = 47;

/// `.`
pub const DOT: u8 = 46;

// ---------------------------------------------------------------------------------------------
// Text to path
// ---------------------------------------------------------------------------------------------

/// Where the segment that starts at `at` ends: at the next slash, or at the end of the text.
pub open spec fn segment_end(text: Seq<u8>, at: int) -> int
    decreases text.len() - at,
{
    if at >= text.len() {
        text.len() as int
    } else if text[at] == SLASH {
        at
    } else {
        segment_end(text, at + 1)
    }
}

/// The component that one segment stands for. Empty segments stand for none, and `.` counts only
/// at the start of a relative path.
pub open spec fn segment_parts(segment: Seq<u8>, leading: bool) -> PathKey {
    if segment.len() == 0 {
        Seq::empty()
    } else if segment == seq![DOT] {
        if leading {
            seq![PartKey::CurDir]
        } else {
            Seq::empty()
        }
    } else if segment == seq![DOT, DOT] {
        seq![PartKey::ParentDir]
    } else {
        seq![PartKey::Normal(segment)]
    }
}

/// The components of the text from `at` on.
pub open spec fn parts_from(text: Seq<u8>, at: int, leading: bool) -> PathKey
    decreases text.len() + 1 - at,
    via parts_from_decreases
{
    if at < 0 || at > text.len() {
        Seq::empty()
    } else {
        let end = segment_end(text, at);
        segment_parts(text.subrange(at, end), leading) + parts_from(text, end + 1, false)
    }
}

#[via_fn]
proof fn parts_from_decreases(text: Seq<u8>, at: int, leading: bool) {
    if 0 <= at <= text.len() {
        lemma_segment_end(text, at);
    }
}

/// The components of a slash-separated text.
pub open spec fn path_parts(text: Seq<u8>) -> PathKey {
    if text.len() > 0 && text[0] == SLASH {
        seq![PartKey::RootDir] + parts_from(text, 1, false)
    } else {
        parts_from(text, 0, true)
    }
}

proof fn lemma_segment_end(text: Seq<u8>, at: int)
    requires
        0 <= at <= text.len(),
    ensures
        at <= segment_end(text, at) <= text.len(),
        forall|i: int| at <= i < segment_end(text, at) ==> #[trigger] text[i] != SLASH,
        segment_end(text, at) < text.len() ==> text[segment_end(text, at)] == SLASH,
    decreases text.len() - at,
{
    if at < text.len() && text[at] != SLASH {
        lemma_segment_end(text, at + 1);
    }
}

fn find_segment_end(text: &[u8], at: usize) -> (end: usize)
    requires
        at <= text@.len(),
    ensures
        end == segment_end(text@, at as int),
        at <= end <= text@.len(),
{
    let mut end: usize = at;
    while end < text.len() && text[end] != SLASH
        invariant
            at <= end <= text@.len(),
            segment_end(text@, at as int) == segment_end(text@, end as int),
        decreases text@.len() - end,
    {
        end += 1;
    }
    end
}

pub fn copy_range(text: &[u8], start: usize, end: usize) -> (copy: Vec<u8>)
    requires
        start <= end <= text@.len(),
    ensures
        copy@ == text@.subrange(start as int, end as int),
{
    let mut copy: Vec<u8> = Vec::with_capacity(end - start);
    let mut i: usize = start;
    while i < end
        invariant
            start <= i <= end <= text@.len(),
            copy@ == text@.subrange(start as int, i as int),
        decreases end - i,
    {
        copy.push(text[i]);
        i += 1;
        assert(copy@ =~= text@.subrange(start as int, i as int));
    }
    copy
}

/// The path that a slash-separated text names.
pub fn parse_path(text: &[u8]) -> (path: SearchPath)
    ensures
        path@ == path_parts(text@),
{
    let mut parts: Vec<PathPart> = Vec::new();
    let mut at: usize = 0;
    let mut leading: bool = true;
    if text.len() > 0 && text[0] == SLASH {
        parts.push(PathPart::RootDir);
        at = 1;
        leading = false;
    }
    let mut path = SearchPath { parts };
    let mut done: bool = false;
    assert(path@ + parts_from(text@, at as int, leading) =~= path_parts(text@));
    while !done
        invariant
            done || at <= text@.len(),
            path@ + (if done {
                Seq::empty()
            } else {
                parts_from(text@, at as int, leading)
            }) == path_parts(text@),
        decreases text@.len() - at + (if done {
                0int
            } else {
                1int
            }),
    {
        let end: usize = find_segment_end(text, at);
        let ghost before = path@;
        let ghost segment = text@.subrange(at as int, end as int);
        let ghost rest = parts_from(text@, end + 1, false);
        if end > at {
            if end - at == 1 && text[at] == DOT {
                assert(segment =~= seq![DOT]);
                if leading {
                    path.parts.push(PathPart::CurDir);
                }
            } else if end - at == 2 && text[at] == DOT && text[at + 1] == DOT {
                assert(segment =~= seq![DOT, DOT]);
                path.parts.push(PathPart::ParentDir);
            } else {
                assert(segment[0] == text@[at as int]);
                assert(segment.len() == 2 ==> segment[1] == text@[at + 1]);
                path.parts.push(PathPart::Normal(copy_range(text, at, end)));
            }
        }
        proof {
            assert(path@ =~= before + segment_parts(segment, leading));
            assert(before + (segment_parts(segment, leading) + rest) =~= path@ + rest);
        }
        leading = false;
        if end < text.len() {
            at = end + 1;
        } else {
            done = true;
            assert(rest =~= Seq::<PartKey>::empty());
        }
    }
    assert(path@ + Seq::<PartKey>::empty() =~= path@);
    path
}

// ---------------------------------------------------------------------------------------------
// Path to text
// ---------------------------------------------------------------------------------------------

pub open spec fn part_text(part: PartKey) -> Seq<u8> {
    match part {
        PartKey::Prefix(name) => name,
        PartKey::RootDir => seq![SLASH],
        PartKey::CurDir => seq![DOT],
        PartKey::ParentDir => seq![DOT, DOT],
        PartKey::Normal(name) => name,
    }
}

/// A slash stands between the components of `parts` and the component `next`.
pub open spec fn needs_slash(parts: PathKey, next: PartKey) -> bool {
    parts.len() > 0 && !(parts.last() is RootDir) && !(next is RootDir)
}

/// The components joined by slashes.
pub open spec fn path_text(parts: PathKey) -> Seq<u8>
    decreases parts.len(),
{
    if parts.len() == 0 {
        Seq::empty()
    } else if needs_slash(parts.drop_last(), parts.last()) {
        path_text(parts.drop_last()) + seq![SLASH] + part_text(parts.last())
    } else {
        path_text(parts.drop_last()) + part_text(parts.last())
    }
}

/// A component as it is shown: the root is a separator.
pub open spec fn shown_part(part: PartKey, separator: u8) -> Seq<u8> {
    if part is RootDir {
        seq![separator]
    } else {
        part_text(part)
    }
}

/// The components joined by `separator`.
pub open spec fn joined_by(parts: PathKey, separator: u8) -> Seq<u8>
    decreases parts.len(),
{
    if parts.len() == 0 {
        Seq::empty()
    } else if needs_slash(parts.drop_last(), parts.last()) {
        joined_by(parts.drop_last(), separator) + seq![separator] + shown_part(
            parts.last(),
            separator,
        )
    } else {
        joined_by(parts.drop_last(), separator) + shown_part(parts.last(), separator)
    }
}

proof fn lemma_joined_by_slashes(parts: PathKey)
    ensures
        joined_by(parts, SLASH) == path_text(parts),
    decreases parts.len(),
{
    if parts.len() > 0 {
        lemma_joined_by_slashes(parts.drop_last());
    }
}

/// A path as a platform shows it that separates components by `separator`.
pub open spec fn shown_path(parts: PathKey, separator: u8) -> Seq<char> {
    lossy_chars(joined_by(parts, separator))
}

impl SearchPath {
    /// The components joined by slashes.
    pub fn text(&self) -> (text: Vec<u8>)
        ensures
            text@ == path_text(self@),
    {
        proof {
            lemma_joined_by_slashes(self@);
        }
        self.joined_text(SLASH)
    }

    /// The path as a platform shows it that separates components by `separator`.
    pub fn shown(&self, separator: u8) -> (text: String)
        ensures
            text@ == shown_path(self@, separator),
    {
        let bytes = self.joined_text(separator);
        lossy_text(bytes.as_slice())
    }

    fn joined_text(&self, separator: u8) -> (text: Vec<u8>)
        ensures
            text@ == joined_by(self@, separator),
    {
        let mut text: Vec<u8> = Vec::new();
        let mut after_root: bool = true;
        let mut i: usize = 0;
        assert(self@.take(0) =~= Seq::<PartKey>::empty());
        while i < self.parts.len()
            invariant
                i <= self.parts@.len(),
                text@ == joined_by(self@.take(i as int), separator),
                after_root == (i == 0 || self@[i - 1] is RootDir),
            decreases self.parts@.len() - i,
        {
            let part = &self.parts[i];
            let ghost before = text@;
            proof {
                let next = self@.take(i + 1);
                assert(next.drop_last() =~= self@.take(i as int));
                assert(next.last() == part@);
                assert(i > 0 ==> self@.take(i as int).last() == self@[i - 1]);
            }
            let is_root: bool = matches!(part, PathPart::RootDir);
            if !after_root && !is_root {
                text.push(separator);
            }
            let ghost mid = text@;
            match part {
                PathPart::Prefix(name) => {
                    push_bytes(&mut text, name.as_slice());
                },
                PathPart::RootDir => {
                    text.push(separator);
                    assert(text@ =~= mid + shown_part(part@, separator));
                },
                PathPart::CurDir => {
                    text.push(DOT);
                    assert(text@ =~= mid + shown_part(part@, separator));
                },
                PathPart::ParentDir => {
                    text.push(DOT);
                    text.push(DOT);
                    assert(text@ =~= mid + shown_part(part@, separator));
                },
                PathPart::Normal(name) => {
                    push_bytes(&mut text, name.as_slice());
                },
            }
            proof {
                assert(text@ == mid + shown_part(part@, separator));
                assert(mid =~= (if needs_slash(self@.take(i as int), part@) {
                    before + seq![separator]
                } else {
                    before
                }));
            }
            after_root = is_root;
            i += 1;
        }
        assert(self@.take(i as int) =~= self@);
        text
    }
}

pub fn push_bytes(out: &mut Vec<u8>, bytes: &[u8])
    ensures
        final(out)@ == old(out)@ + bytes@,
{
    out.extend_from_slice(bytes);
    assert(out@ =~= old(out)@ + bytes@);
}

/// A name that text can carry: no slash in it, and neither empty nor `.` nor `..`.
pub open spec fn plain_name(name: Seq<u8>) -> bool {
    &&& name.len() > 0
    &&& name != seq![DOT]
    &&& name != seq![DOT, DOT]
    &&& forall|i: int| 0 <= i < name.len() ==> #[trigger] name[i] != SLASH
}

/// A path that text can carry: the root and `.` only in front, and plain names.
pub open spec fn textual(parts: PathKey) -> bool {
    forall|i: int|
        0 <= i < parts.len() ==> match #[trigger] parts[i] {
            PartKey::Prefix(_) => false,
            PartKey::RootDir => i == 0,
            PartKey::CurDir => i == 0,
            PartKey::ParentDir => true,
            PartKey::Normal(name) => plain_name(name),
        }
}

proof fn lemma_segment_end_of_slashless(text: Seq<u8>, at: int)
    requires
        0 <= at <= text.len(),
        forall|i: int| at <= i < text.len() ==> #[trigger] text[i] != SLASH,
    ensures
        segment_end(text, at) == text.len(),
    decreases text.len() - at,
{
    if at < text.len() {
        lemma_segment_end_of_slashless(text, at + 1);
    }
}

/// Text with one more segment behind a slash has that segment's component behind its own.
pub proof fn lemma_parts_from_extended(head: Seq<u8>, segment: Seq<u8>, at: int, leading: bool)
    requires
        0 <= at <= head.len(),
        forall|i: int| 0 <= i < segment.len() ==> #[trigger] segment[i] != SLASH,
    ensures
        parts_from(head + seq![SLASH] + segment, at, leading) == parts_from(head, at, leading)
            + segment_parts(segment, false),
    decreases head.len() - at,
{
    let text = head + seq![SLASH] + segment;
    let end = segment_end(head, at);
    lemma_segment_end(head, at);
    assert(text.take(head.len() as int) =~= head);
    lemma_same_segment_end(head, text, at);
    assert(text.subrange(at, end) =~= head.subrange(at, end));
    if end < head.len() {
        lemma_parts_from_extended(head, segment, end + 1, false);
        assert(parts_from(text, at, leading) =~= parts_from(head, at, leading) + segment_parts(
            segment,
            false,
        ));
    } else {
        let tail = end + 1;
        assert forall|i: int| tail <= i < text.len() implies #[trigger] text[i] != SLASH by {
            assert(text[i] == segment[i - tail]);
        }
        lemma_segment_end_of_slashless(text, tail);
        assert(text.subrange(tail, text.len() as int) =~= segment);
        assert(parts_from(text, text.len() as int + 1, false) =~= Seq::<PartKey>::empty());
        assert(parts_from(head, head.len() as int + 1, false) =~= Seq::<PartKey>::empty());
        assert(parts_from(text, tail, false) =~= segment_parts(segment, false));
        assert(parts_from(text, at, leading) =~= parts_from(head, at, leading) + segment_parts(
            segment,
            false,
        ));
    }
}

proof fn lemma_same_segment_end(head: Seq<u8>, text: Seq<u8>, at: int)
    requires
        0 <= at <= head.len() < text.len(),
        text.take(head.len() as int) == head,
        text[head.len() as int] == SLASH,
    ensures
        segment_end(text, at) == segment_end(head, at),
    decreases head.len() - at,
{
    if at < head.len() {
        assert(text.take(head.len() as int)[at] == text[at]);
        if head[at] != SLASH {
            lemma_same_segment_end(head, text, at + 1);
        }
    }
}

/// Text without a slash is one segment.
pub proof fn lemma_single_segment(text: Seq<u8>, at: int, leading: bool)
    requires
        0 <= at <= text.len(),
        forall|i: int| at <= i < text.len() ==> #[trigger] text[i] != SLASH,
    ensures
        parts_from(text, at, leading) == segment_parts(
            text.subrange(at, text.len() as int),
            leading,
        ),
{
    lemma_segment_end_of_slashless(text, at);
    assert(parts_from(text, text.len() as int + 1, false) =~= Seq::<PartKey>::empty());
    assert(parts_from(text, at, leading) =~= segment_parts(
        text.subrange(at, text.len() as int),
        leading,
    ));
}

proof fn lemma_part_segment(part: PartKey, leading: bool)
    requires
        match part {
            PartKey::Normal(name) => plain_name(name),
            PartKey::ParentDir => true,
            PartKey::CurDir => leading,
            _ => false,
        },
    ensures
        segment_parts(part_text(part), leading) == seq![part],
        forall|i: int| 0 <= i < part_text(part).len() ==> #[trigger] part_text(part)[i] != SLASH,
{
    assert(seq![DOT, DOT].len() == 2);
    assert(seq![DOT].len() == 1);
}

proof fn lemma_text_starts_with_root(parts: PathKey)
    requires
        textual(parts),
        parts.len() > 0,
    ensures
        path_text(parts).len() > 0,
        (path_text(parts)[0] == SLASH) == (parts[0] is RootDir),
    decreases parts.len(),
{
    let prev = parts.drop_last();
    if parts.len() == 1 {
        assert(path_text(prev) =~= Seq::<u8>::empty());
        assert(path_text(parts) =~= part_text(parts[0]));
        if !(parts[0] is RootDir) {
            lemma_part_segment(parts[0], true);
        }
    } else {
        assert(textual(prev)) by {
            assert forall|i: int| 0 <= i < prev.len() implies match #[trigger] prev[i] {
                PartKey::Prefix(_) => false,
                PartKey::RootDir => i == 0,
                PartKey::CurDir => i == 0,
                PartKey::ParentDir => true,
                PartKey::Normal(name) => plain_name(name),
            } by {
                assert(prev[i] == parts[i]);
            }
        }
        lemma_text_starts_with_root(prev);
        assert(path_text(parts)[0] == path_text(prev)[0]);
    }
}

/// A textual path read back from its text is the same path.
pub proof fn lemma_path_survives_text(parts: PathKey)
    requires
        textual(parts),
    ensures
        path_parts(path_text(parts)) == parts,
    decreases parts.len(),
{
    if parts.len() == 0 {
        lemma_single_segment(Seq::<u8>::empty(), 0, true);
        assert(path_parts(path_text(parts)) =~= parts);
        return ;
    }
    let prev = parts.drop_last();
    let last = parts.last();
    let text = path_text(parts);
    assert(last == parts[parts.len() - 1]);
    assert(textual(prev)) by {
        assert forall|i: int| 0 <= i < prev.len() implies match #[trigger] prev[i] {
            PartKey::Prefix(_) => false,
            PartKey::RootDir => i == 0,
            PartKey::CurDir => i == 0,
            PartKey::ParentDir => true,
            PartKey::Normal(name) => plain_name(name),
        } by {
            assert(prev[i] == parts[i]);
        }
    }
    lemma_path_survives_text(prev);
    if prev.len() == 0 {
        assert(path_text(prev) =~= Seq::<u8>::empty());
        assert(text =~= part_text(last));
        if last is RootDir {
            lemma_single_segment(text, 1, false);
            assert(text.subrange(1, 1) =~= Seq::<u8>::empty());
            assert(path_parts(text) =~= parts);
        } else {
            lemma_part_segment(last, true);
            lemma_single_segment(text, 0, true);
            assert(text.subrange(0, text.len() as int) =~= text);
            assert(path_parts(text) =~= parts);
        }
    } else {
        assert(!(last is RootDir) && !(last is CurDir));
        lemma_part_segment(last, false);
        lemma_text_starts_with_root(prev);
        let head = path_text(prev);
        if prev.last() is RootDir {
            assert(prev.len() == 1 && prev[0] is RootDir);
            assert(path_text(prev.drop_last()) =~= Seq::<u8>::empty());
            assert(head =~= seq![SLASH]);
            assert(text =~= seq![SLASH] + part_text(last));
            assert forall|i: int| 1 <= i < text.len() implies #[trigger] text[i] != SLASH by {
                assert(text[i] == part_text(last)[i - 1]);
            }
            lemma_single_segment(text, 1, false);
            assert(text.subrange(1, text.len() as int) =~= part_text(last));
            assert(path_parts(text) =~= parts);
        } else {
            assert(text == head + seq![SLASH] + part_text(last));
            assert(text[0] == head[0]);
            if prev[0] is RootDir {
                lemma_parts_from_extended(head, part_text(last), 1, false);
            } else {
                lemma_parts_from_extended(head, part_text(last), 0, true);
            }
            assert(path_parts(text) =~= path_parts(head) + seq![last]);
            assert(path_parts(text) =~= parts);
        }
    }
}

// ---------------------------------------------------------------------------------------------
// Paths from outside
// ---------------------------------------------------------------------------------------------

/// What resolving a cached path on disk gave.
pub struct PathProbe {
    /// The path itself with links resolved, where it exists.
    pub canonical_path: Option<SearchPath>,
    /// The root with links resolved, where that succeeded.
    pub canonical_root: Option<SearchPath>,
}

/// The full path that a cached relative path names.
pub open spec fn cached_full(root: PathKey, relative: PathKey) -> Option<PathKey> {
    match cached_relative(relative) {
        Some(names) => Some(normalized(joined(normalized(root), names))),
        None => None,
    }
}

/// The disk does not lead the cached path out of the root.
pub open spec fn probe_confirms(
    root: PathKey,
    full_path: PathKey,
    canonical_path: Option<PathKey>,
    canonical_root: Option<PathKey>,
) -> bool {
    match canonical_path {
        Some(canonical) => within_root(normalized(root), canonical) || (canonical_root is Some
            && within_root(canonical_root->0, canonical)),
        None => within_root(normalized(root), full_path),
    }
}

pub open spec fn path_option(path: Option<SearchPath>) -> Option<PathKey> {
    match path {
        Some(path) => Some(path@),
        None => None,
    }
}

/// The full path of a cached relative path, where neither its text nor the disk leads out of the
/// root.
pub open spec fn accepted_path(root: PathKey, relative: PathKey, probe: PathProbe) -> Option<
    PathKey,
> {
    match cached_full(root, relative) {
        Some(path) => if probe_confirms(
            root,
            path,
            path_option(probe.canonical_path),
            path_option(probe.canonical_root),
        ) {
            Some(path)
        } else {
            None
        },
        None => None,
    }
}

/// The path whose canonical form decides whether a cached relative path may be used.
pub fn cached_full_path(root: &SearchPath, relative_path: &SearchPath) -> (full: Option<
    SearchPath,
>)
    ensures
        path_option(full) == cached_full(root@, relative_path@),
{
    match validate_cached_relative_path(relative_path) {
        Some(relative) => Some(normalize_path(&normalize_path(root).join(&relative))),
        None => None,
    }
}

/// The full path of a cached relative path, where neither its text nor the disk leads out of the
/// root.
pub fn cached_path_under_root(
    root: &SearchPath,
    relative_path: &SearchPath,
    probe: &PathProbe,
) -> (full: Option<SearchPath>)
    ensures
        path_option(full) == accepted_path(root@, relative_path@, *probe),
{
    let full_path = match cached_full_path(root, relative_path) {
        Some(full_path) => full_path,
        None => {
            return None;
        },
    };
    let normalized_root = normalize_path(root);
    match &probe.canonical_path {
        Some(canonical_path) => {
            if is_within_search_root(&normalized_root, canonical_path) {
                return Some(full_path);
            }
            match &probe.canonical_root {
                Some(canonical_root) => {
                    if is_within_search_root(canonical_root, canonical_path) {
                        Some(full_path)
                    } else {
                        None
                    }
                },
                None => None,
            }
        },
        None => {
            if is_within_search_root(&normalized_root, &full_path) {
                Some(full_path)
            } else {
                None
            }
        },
    }
}

/// The place that a path names, whether or not it still exists: its canonical form, else the
/// canonical form of its directory with its name, else the path itself.
pub fn canonicalize_existing_or_deleted_path(
    path: &SearchPath,
    canonical: Option<SearchPath>,
    canonical_parent: Option<SearchPath>,
) -> (resolved: SearchPath)
    ensures
        resolved@ == (if canonical is Some {
            canonical->0@
        } else if path@.len() > 0 && path@.last() is Normal && canonical_parent is Some {
            canonical_parent->0@.push(path@.last())
        } else {
            path@
        }),
{
    if let Some(canonical) = canonical {
        return canonical;
    }
    match (path.file_name(), canonical_parent) {
        (Some(file_name), Some(canonical_parent)) => {
            let mut resolved = canonical_parent;
            let ghost before = resolved@;
            resolved.parts.push(file_name);
            assert(resolved@ =~= before.push(file_name@));
            resolved
        },
        _ => path.duplicate(),
    }
}

/// A match's file, seen from the project root where it is relative.
pub fn resolve_match_path(project_root: &SearchPath, path: &SearchPath) -> (resolved: SearchPath)
    ensures
        resolved@ == joined(project_root@, path@),
{
    project_root.join(path)
}

/// Where a search runs, and whether the index covers that place.
pub struct SearchScope {
    pub root: SearchPath,
    pub use_index: bool,
}

/// The canonical form where there is one, else the lexically normalized path.
pub fn canonicalize_or_normalize(path: &SearchPath, canonical: Option<SearchPath>) -> (resolved:
    SearchPath)
    ensures
        resolved@ == (if canonical is Some {
            canonical->0@
        } else {
            normalized(path@)
        }),
{
    match canonical {
        Some(canonical) => canonical,
        None => normalize_path(path),
    }
}

pub open spec fn resolved_root(project_root: PathKey, canonical: Option<PathKey>) -> PathKey {
    match canonical {
        Some(canonical) => canonical,
        None => normalized(project_root),
    }
}

/// The directory that a request means: the project root, an absolute path resolved, or a relative
/// path seen from the project root.
pub open spec fn scope_root(
    project_root: PathKey,
    request: Option<PathKey>,
    canonical_request: Option<PathKey>,
) -> PathKey {
    match request {
        None => project_root,
        Some(path) => if absolute(path) {
            resolved_root(path, canonical_request)
        } else {
            normalized(joined(project_root, path))
        },
    }
}

pub fn resolve_search_scope(
    project_root: &SearchPath,
    path: Option<&SearchPath>,
    canonical_project_root: Option<SearchPath>,
    canonical_path: Option<SearchPath>,
) -> (scope: SearchScope)
    ensures
        ({
            let root = resolved_root(project_root@, path_option(canonical_project_root));
            let request = match path {
                Some(path) => Some(path@),
                None => None,
            };
            &&& scope.root@ == scope_root(root, request, path_option(canonical_path))
            &&& scope.use_index == within_root(root, scope.root@)
        }),
{
    let resolved_project_root = canonicalize_or_normalize(project_root, canonical_project_root);
    let root = match path {
        Some(path) => {
            if path.is_absolute() {
                canonicalize_or_normalize(path, canonical_path)
            } else {
                normalize_path(&resolved_project_root.join(path))
            }
        },
        None => resolved_project_root.duplicate(),
    };
    let use_index = is_within_search_root(&resolved_project_root, &root);
    SearchScope { root, use_index }
}

// ---------------------------------------------------------------------------------------------
// Laws
// ---------------------------------------------------------------------------------------------

/// `..` stands nowhere but in front or right behind the root, and `.` nowhere.
spec fn settled(parts: PathKey) -> bool {
    forall|i: int|
        0 <= i < parts.len() ==> !(#[trigger] parts[i] is CurDir) && (parts[i] is ParentDir
            ==> i == 0 || parts[i - 1] is RootDir || parts[i - 1] is Prefix)
}

proof fn lemma_normalized_is_settled(parts: PathKey)
    ensures
        settled(normalized(parts)),
    decreases parts.len(),
{
    if parts.len() > 0 {
        let prev = normalized(parts.drop_last());
        lemma_normalized_is_settled(parts.drop_last());
        let next = normalized(parts);
        assert forall|i: int| 0 <= i < next.len() implies !(#[trigger] next[i] is CurDir) && (
        next[i] is ParentDir ==> i == 0 || next[i - 1] is RootDir || next[i - 1] is Prefix) by {
            if i < prev.len() {
                assert(next[i] == prev[i]);
                assert(i > 0 ==> next[i - 1] == prev[i - 1]);
            }
        }
    }
}

proof fn lemma_settled_is_fixed(parts: PathKey)
    requires
        settled(parts),
    ensures
        normalized(parts) == parts,
    decreases parts.len(),
{
    if parts.len() > 0 {
        let prev = parts.drop_last();
        assert(settled(prev)) by {
            assert forall|i: int| 0 <= i < prev.len() implies !(#[trigger] prev[i] is CurDir) && (
            prev[i] is ParentDir ==> i == 0 || prev[i - 1] is RootDir || prev[i - 1] is Prefix) by {
                assert(prev[i] == parts[i]);
                assert(i > 0 ==> prev[i - 1] == parts[i - 1]);
            }
        }
        lemma_settled_is_fixed(prev);
        assert(parts.last() == parts[parts.len() - 1]);
        assert(prev.len() > 0 ==> prev.last() == parts[parts.len() - 2]);
        assert(prev.push(parts.last()) =~= parts);
    } else {
        assert(normalized(parts) =~= parts);
    }
}

/// Normalizing a normalized path changes nothing.
pub proof fn lemma_normalize_is_idempotent(parts: PathKey)
    ensures
        normalized(normalized(parts)) == normalized(parts),
{
    lemma_normalized_is_settled(parts);
    lemma_settled_is_fixed(normalized(parts));
}

pub proof fn lemma_names_only_are_names(parts: PathKey)
    ensures
        forall|i: int|
            0 <= i < names_only(parts).len() ==> #[trigger] names_only(parts)[i] is Normal,
    decreases parts.len(),
{
    if parts.len() > 0 {
        lemma_names_only_are_names(parts.drop_last());
    }
}

proof fn lemma_normalized_with_names(base: PathKey, names: PathKey)
    requires
        normalized(base) == base,
        forall|i: int| 0 <= i < names.len() ==> #[trigger] names[i] is Normal,
    ensures
        normalized(base + names) == base + names,
    decreases names.len(),
{
    if names.len() == 0 {
        assert(base + names =~= base);
    } else {
        let prev = names.drop_last();
        assert forall|i: int| 0 <= i < prev.len() implies #[trigger] prev[i] is Normal by {
            assert(prev[i] == names[i]);
        }
        lemma_normalized_with_names(base, prev);
        assert((base + names).drop_last() =~= base + prev);
        assert(names.last() == names[names.len() - 1]);
        assert((base + prev).push(names.last()) =~= base + names);
    }
}

/// The full path of a cached relative path is the normalized root with names behind it: it never
/// leaves the root.
pub proof fn lemma_cached_path_stays_under_root(root: PathKey, relative: PathKey)
    requires
        cached_full(root, relative) is Some,
    ensures
        cached_full(root, relative) == Some(normalized(root) + names_only(relative)),
        within_root(root, cached_full(root, relative)->0),
        cached_relative(
            cached_full(root, relative)->0.skip(normalized(root).len() as int),
        ) == cached_relative(relative),
{
    let names = names_only(relative);
    let base = normalized(root);
    lemma_names_only_are_names(relative);
    lemma_normalize_is_idempotent(root);
    assert(!absolute(names));
    lemma_normalized_with_names(base, names);
    let full = base + names;
    assert(full.take(base.len() as int) =~= base);
    assert(full.skip(base.len() as int) =~= names);
    lemma_names_only_of_names(names);
}

pub proof fn lemma_names_only_of_names(names: PathKey)
    requires
        forall|i: int| 0 <= i < names.len() ==> #[trigger] names[i] is Normal,
    ensures
        names_only(names) == names,
    decreases names.len(),
{
    if names.len() > 0 {
        let prev = names.drop_last();
        assert forall|i: int| 0 <= i < prev.len() implies #[trigger] prev[i] is Normal by {
            assert(prev[i] == names[i]);
        }
        lemma_names_only_of_names(prev);
        assert(names.last() == names[names.len() - 1]);
        assert(names_only(names) =~= names);
    }
}

/// What is left of a normalized path, where it stays inside, is made of names.
pub proof fn lemma_normalized_rest_is_names(path: PathKey, rest: PathKey, from: int)
    requires
        0 <= from <= normalized(path).len(),
        rest == normalized(path).skip(from),
        confined(rest),
    ensures
        names_only(rest) == rest,
{
    let full = normalized(path);
    lemma_normalized_is_settled(path);
    assert forall|i: int| 0 <= i < rest.len() implies #[trigger] rest[i] is Normal by {
        assert(rest[i] == full[from + i]);
        assert(!(full[from + i] is CurDir));
        assert(rest[i] is Normal || rest[i] is CurDir);
    }
    lemma_names_only_of_names(rest);
}

} // verus!
