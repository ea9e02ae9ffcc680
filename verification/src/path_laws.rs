//! Laws of paths: their order, their normal form, what lies below a root, and their text.

use crate::filters::glob_text;
use crate::outside::lossy_chars;
use crate::path::absolute;
use crate::path::bytes_less;
use crate::path::cached_relative;
use crate::path::joined;
use crate::path::lex_less;
use crate::path::names_only;
use crate::path::normalized;
use crate::path::part_less;
use crate::path::path_less;
use crate::path::relative_to;
use crate::path::within_root;
use crate::path::PartKey;
use crate::path::PathKey;
use crate::path_text::accepted_path;
use crate::path_text::joined_by;
use crate::path_text::lemma_parts_from_extended;
use crate::path_text::lemma_single_segment;
use crate::path_text::path_parts;
use crate::path_text::path_text;
use crate::path_text::resolved_root;
use crate::path_text::scope_root;
use crate::path_text::segment_parts;
use crate::path_text::PathProbe;
use vstd::prelude::*;

verus! {

// ---------------------------------------------------------------------------------------------
// Order
// ---------------------------------------------------------------------------------------------

proof fn lemma_lex_difference<T>(a: Seq<T>, b: Seq<T>, less: spec_fn(T, T) -> bool) -> (at: int)
    requires
        lex_less(a, b, less),
    ensures
        0 <= at <= a.len(),
        at < b.len(),
        forall|i: int| 0 <= i < at ==> #[trigger] a[i] == b[i],
        at == a.len() || less(a[at], b[at]),
    decreases a.len(),
{
    if a.len() == 0 || less(a[0], b[0]) {
        0
    } else {
        let rest = lemma_lex_difference(a.skip(1), b.skip(1), less);
        assert forall|i: int| 0 <= i < rest + 1 implies #[trigger] a[i] == b[i] by {
            if i > 0 {
                assert(a.skip(1)[i - 1] == b.skip(1)[i - 1]);
            }
        }
        rest + 1
    }
}

proof fn lemma_lex_by_difference<T>(a: Seq<T>, b: Seq<T>, less: spec_fn(T, T) -> bool, at: int)
    requires
        0 <= at <= a.len(),
        at < b.len(),
        forall|i: int| 0 <= i < at ==> #[trigger] a[i] == b[i],
        at == a.len() || less(a[at], b[at]),
    ensures
        lex_less(a, b, less),
    decreases at,
{
    if at > 0 {
        assert(a[0] == b[0]);
        assert forall|i: int| 0 <= i < at - 1 implies #[trigger] a.skip(1)[i] == b.skip(1)[i] by {
            assert(a[i + 1] == b[i + 1]);
        }
        lemma_lex_by_difference(a.skip(1), b.skip(1), less, at - 1);
    }
}

/// Bytes come before others where they are the same up to a place, and there they end or have the
/// lower byte.
pub proof fn lemma_bytes_are_ordered_by_the_first_difference(a: Seq<u8>, b: Seq<u8>)
    ensures
        bytes_less(a, b) <==> exists|at: int|
            0 <= at <= a.len() && at < b.len() && #[trigger] a.take(at) == b.take(at) && (at
                == a.len() || a[at] < b[at]),
{
    let less = |x: u8, y: u8| x < y;
    if bytes_less(a, b) {
        let at = lemma_lex_difference(a, b, less);
        assert(a.take(at) =~= b.take(at));
    }
    if exists|at: int|
        0 <= at <= a.len() && at < b.len() && #[trigger] a.take(at) == b.take(at) && (at == a.len()
            || a[at] < b[at]) {
        let at = choose|at: int|
            0 <= at <= a.len() && at < b.len() && #[trigger] a.take(at) == b.take(at) && (at
                == a.len() || a[at] < b[at]);
        assert forall|i: int| 0 <= i < at implies #[trigger] a[i] == b[i] by {
            assert(a.take(at)[i] == b.take(at)[i]);
        }
        lemma_lex_by_difference(a, b, less, at);
    }
}

/// Names come behind all else, in the order of their bytes; in front of them a parent directory, a
/// current directory, the root, and prefixes, from back to front.
pub proof fn lemma_parts_are_ordered(a: PartKey, b: PartKey)
    ensures
        a is Normal && b is Normal ==> (part_less(a, b) <==> bytes_less(a->Normal_0, b->Normal_0)),
        a is Prefix && b is Prefix ==> (part_less(a, b) <==> bytes_less(a->Prefix_0, b->Prefix_0)),
        !(a is Normal) && b is Normal ==> part_less(a, b),
        a is Prefix && !(b is Prefix) ==> part_less(a, b),
        a is RootDir && (b is CurDir || b is ParentDir) ==> part_less(a, b),
        a is CurDir && b is ParentDir ==> part_less(a, b),
        part_less(a, b) ==> !part_less(b, a),
{
    crate::path::lemma_bytes_order();
    let less = |x: Seq<u8>, y: Seq<u8>| bytes_less(x, y);
    let (x, y) = (crate::path::part_name(a), crate::path::part_name(b));
    assert(less(x, y) && less(y, x) ==> less(x, x));
    assert(!less(x, x));
}

/// Paths come before others where they are the same up to a part, and there they end or have the part
/// that comes first.
pub proof fn lemma_paths_are_ordered_by_the_first_difference(a: PathKey, b: PathKey)
    ensures
        path_less(a, b) <==> exists|at: int|
            0 <= at <= a.len() && at < b.len() && #[trigger] a.take(at) == b.take(at) && (at
                == a.len() || part_less(a[at], b[at])),
{
    let less = |x: PartKey, y: PartKey| part_less(x, y);
    if path_less(a, b) {
        let at = lemma_lex_difference(a, b, less);
        assert(a.take(at) =~= b.take(at));
    }
    if exists|at: int|
        0 <= at <= a.len() && at < b.len() && #[trigger] a.take(at) == b.take(at) && (at == a.len()
            || part_less(a[at], b[at])) {
        let at = choose|at: int|
            0 <= at <= a.len() && at < b.len() && #[trigger] a.take(at) == b.take(at) && (at
                == a.len() || part_less(a[at], b[at]));
        assert forall|i: int| 0 <= i < at implies #[trigger] a[i] == b[i] by {
            assert(a.take(at)[i] == b.take(at)[i]);
        }
        lemma_lex_by_difference(a, b, less, at);
    }
}

// ---------------------------------------------------------------------------------------------
// Normal form
// ---------------------------------------------------------------------------------------------

/// A path without dots is its own normal form.
pub proof fn lemma_paths_without_dots_are_normal(path: PathKey)
    requires
        forall|i: int|
            0 <= i < path.len() ==> !(#[trigger] path[i] is CurDir) && !(path[i] is ParentDir),
    ensures
        normalized(path) == path,
    decreases path.len(),
{
    if path.len() > 0 {
        let front = path.drop_last();
        assert forall|i: int| 0 <= i < front.len() implies !(#[trigger] front[i] is CurDir) && !(
        front[i] is ParentDir) by {
            assert(front[i] == path[i]);
        }
        lemma_paths_without_dots_are_normal(front);
        assert(path.last() == path[path.len() - 1]);
        assert(front.push(path.last()) =~= path);
    }
}

/// How a path goes on after its front: what stands behind has the same effect on fronts with the same
/// normal form.
proof fn lemma_same_front_same_path(left: PathKey, right: PathKey, rest: PathKey)
    requires
        normalized(left) == normalized(right),
    ensures
        normalized(left + rest) == normalized(right + rest),
    decreases rest.len(),
{
    if rest.len() == 0 {
        assert(left + rest =~= left);
        assert(right + rest =~= right);
    } else {
        lemma_same_front_same_path(left, right, rest.drop_last());
        assert((left + rest).drop_last() =~= left + rest.drop_last());
        assert((right + rest).drop_last() =~= right + rest.drop_last());
    }
}

/// A current directory in a path changes nothing.
pub proof fn lemma_a_current_directory_changes_nothing(front: PathKey, rest: PathKey)
    ensures
        normalized(front.push(PartKey::CurDir) + rest) == normalized(front + rest),
{
    assert(front.push(PartKey::CurDir).drop_last() =~= front);
    lemma_same_front_same_path(front.push(PartKey::CurDir), front, rest);
}

/// A name and the parent directory behind it cancel out.
pub proof fn lemma_a_parent_directory_takes_a_name_back(
    front: PathKey,
    name: Seq<u8>,
    rest: PathKey,
)
    ensures
        normalized(front.push(PartKey::Normal(name)).push(PartKey::ParentDir) + rest) == normalized(
            front + rest,
        ),
{
    let named = front.push(PartKey::Normal(name));
    let back = named.push(PartKey::ParentDir);
    assert(named.drop_last() =~= front);
    assert(back.drop_last() =~= named);
    assert(normalized(named) == normalized(front).push(PartKey::Normal(name)));
    assert(normalized(front).push(PartKey::Normal(name)).drop_last() =~= normalized(front));
    lemma_same_front_same_path(back, front, rest);
}

/// A parent directory at the front, or behind the root, stays.
pub proof fn lemma_the_root_has_no_parent(front: PathKey)
    requires
        forall|i: int|
            0 <= i < front.len() ==> #[trigger] front[i] is RootDir || front[i] is Prefix,
    ensures
        normalized(front.push(PartKey::ParentDir)) == front.push(PartKey::ParentDir),
{
    lemma_paths_without_dots_are_normal(front);
    assert(front.push(PartKey::ParentDir).drop_last() =~= front);
    if front.len() > 0 {
        assert(front.last() == front[front.len() - 1]);
    }
}

/// A second parent directory takes back one that stayed, as it would a name.
pub proof fn lemma_a_second_parent_takes_the_first_back(front: PathKey)
    requires
        forall|i: int|
            0 <= i < front.len() ==> #[trigger] front[i] is RootDir || front[i] is Prefix,
    ensures
        normalized(front.push(PartKey::ParentDir).push(PartKey::ParentDir)) == front,
{
    let up = front.push(PartKey::ParentDir);
    lemma_the_root_has_no_parent(front);
    assert(up.push(PartKey::ParentDir).drop_last() =~= up);
    assert(up.drop_last() =~= front);
}

// ---------------------------------------------------------------------------------------------
// Below a root
// ---------------------------------------------------------------------------------------------

/// A path lies below a root if and only if the parts of the root are its first parts, where neither
/// has dots.
pub proof fn lemma_paths_below_a_root_begin_with_it(root: PathKey, path: PathKey)
    requires
        forall|i: int|
            0 <= i < path.len() ==> !(#[trigger] path[i] is CurDir) && !(path[i] is ParentDir),
        forall|i: int|
            0 <= i < root.len() ==> !(#[trigger] root[i] is CurDir) && !(root[i] is ParentDir),
    ensures
        within_root(root, path) <==> root.len() <= path.len() && forall|i: int|
            0 <= i < root.len() ==> #[trigger] path[i] == root[i],
{
    lemma_paths_without_dots_are_normal(root);
    lemma_paths_without_dots_are_normal(path);
    if within_root(root, path) {
        assert forall|i: int| 0 <= i < root.len() implies #[trigger] path[i] == root[i] by {
            assert(path.take(root.len() as int)[i] == root[i]);
        }
    }
    if root.len() <= path.len() && forall|i: int|
        0 <= i < root.len() ==> #[trigger] path[i] == root[i] {
        assert(path.take(root.len() as int) =~= root);
    }
}

/// Whether a path lies below a root goes by the normal forms of both.
pub proof fn lemma_normal_forms_decide_what_lies_below(root: PathKey, path: PathKey)
    ensures
        within_root(root, path) == within_root(normalized(root), normalized(path)),
        within_root(root, path) <==> exists|rest: PathKey|
            normalized(path) == #[trigger] (normalized(root) + rest),
{
    crate::path_text::lemma_normalize_is_idempotent(root);
    crate::path_text::lemma_normalize_is_idempotent(path);
    let (r, p) = (normalized(root), normalized(path));
    if within_root(root, path) {
        assert(p =~= r + p.skip(r.len() as int));
    }
    if exists|rest: PathKey| p == #[trigger] (r + rest) {
        let rest = choose|rest: PathKey| p == #[trigger] (r + rest);
        assert(p.take(r.len() as int) =~= r);
    }
}

/// A path seen from a root above it is what stands behind the root; any other stays as it is.
pub proof fn lemma_relative_paths(root: PathKey, rest: PathKey, other: PathKey)
    requires
        forall|more: PathKey| other != #[trigger] (root + more),
    ensures
        relative_to(root, root + rest) == rest,
        relative_to(root, other) == other,
{
    assert((root + rest).take(root.len() as int) =~= root);
    assert((root + rest).skip(root.len() as int) =~= rest);
    if crate::path::starts_with_path(other, root) {
        assert(other =~= root + other.skip(root.len() as int));
    }
}

/// A path that starts at the root, or at a prefix and the root, stands for itself; any other goes on
/// from the base.
pub proof fn lemma_joined_paths(base: PathKey, other: PathKey)
    ensures
        absolute(other) <==> (other.len() >= 1 && other[0] is RootDir) || (other.len() >= 2
            && other[0] is Prefix && other[1] is RootDir),
        absolute(other) ==> joined(base, other) == other,
        !absolute(other) ==> joined(base, other).len() == base.len() + other.len() && joined(
            base,
            other,
        ).take(base.len() as int) == base && joined(base, other).skip(base.len() as int) == other,
{
    if !absolute(other) {
        assert((base + other).take(base.len() as int) =~= base);
        assert((base + other).skip(base.len() as int) =~= other);
    }
}

/// A stored name that is made of names alone is kept; one that leads up, or starts at the root, or has
/// no name is refused.
pub proof fn lemma_stored_names_lead_down(path: PathKey)
    ensures
        path.len() > 0 && (forall|i: int| 0 <= i < path.len() ==> #[trigger] path[i] is Normal)
            ==> cached_relative(path) == Some(path),
        (exists|i: int|
            0 <= i < path.len() && (#[trigger] path[i] is ParentDir || path[i] is RootDir
                || path[i] is Prefix)) ==> cached_relative(path) is None,
        (forall|i: int| 0 <= i < path.len() ==> !(#[trigger] path[i] is Normal)) ==> cached_relative(
            path,
        ) is None,
{
    if path.len() > 0 && forall|i: int| 0 <= i < path.len() ==> #[trigger] path[i] is Normal {
        crate::path_text::lemma_names_only_of_names(path);
    }
    if forall|i: int| 0 <= i < path.len() ==> !(#[trigger] path[i] is Normal) {
        lemma_no_names(path);
    }
}

proof fn lemma_no_names(path: PathKey)
    requires
        forall|i: int| 0 <= i < path.len() ==> !(#[trigger] path[i] is Normal),
    ensures
        names_only(path).len() == 0,
    decreases path.len(),
{
    if path.len() > 0 {
        let front = path.drop_last();
        assert forall|i: int| 0 <= i < front.len() implies !(#[trigger] front[i] is Normal) by {
            assert(front[i] == path[i]);
        }
        lemma_no_names(front);
        assert(path.last() == path[path.len() - 1]);
    }
}

/// A path out of a cache file is used only below the root: where the disk tells its canonical form,
/// that must lie below the root or its canonical form; else the path itself must.
pub proof fn lemma_cached_paths_are_used_below_the_root(
    root: PathKey,
    relative: PathKey,
    probe: PathProbe,
)
    requires
        forall|i: int|
            0 <= i < root.len() ==> !(#[trigger] root[i] is CurDir) && !(root[i] is ParentDir),
    ensures
        accepted_path(root, relative, probe) matches Some(path) ==> {
            &&& path.len() > root.len()
            &&& path.take(root.len() as int) == root
            &&& forall|i: int| root.len() <= i < path.len() ==> #[trigger] path[i] is Normal
            &&& probe.canonical_path matches Some(canonical) ==> within_root(root, canonical@) || (
            probe.canonical_root is Some && within_root(probe.canonical_root->0@, canonical@))
        },
        relative.len() > 0 && (forall|i: int|
            0 <= i < relative.len() ==> #[trigger] relative[i] is Normal) && (
        probe.canonical_path matches Some(canonical) ==> within_root(root, canonical@) || (
        probe.canonical_root is Some && within_root(probe.canonical_root->0@, canonical@)))
            ==> accepted_path(root, relative, probe) == Some(root + relative),
{
    lemma_paths_without_dots_are_normal(root);
    crate::path_text::lemma_names_only_are_names(relative);
    lemma_stored_names_lead_down(relative);
    if let Some(names) = cached_relative(relative) {
        assert(names == names_only(relative));
        assert(!absolute(names)) by {
            assert(names[0] is Normal);
        }
        let full = root + names;
        assert forall|i: int| 0 <= i < full.len() implies !(#[trigger] full[i] is CurDir) && !(
        full[i] is ParentDir) by {
            if i < root.len() {
                assert(full[i] == root[i]);
            } else {
                assert(full[i] == names[i - root.len()]);
            }
        }
        lemma_paths_without_dots_are_normal(full);
        assert(full.take(root.len() as int) =~= root);
        assert forall|i: int| root.len() <= i < full.len() implies #[trigger] full[i] is Normal by {
            assert(full[i] == names[i - root.len()]);
        }
    }
}

/// The place that a request means is in normal form, unless the system told another for it.
pub proof fn lemma_scopes_are_normal(project: PathKey, request: PathKey)
    ensures
        !absolute(request) ==> scope_root(project, Some(request), None) == normalized(
            project + request,
        ),
        absolute(request) ==> scope_root(project, Some(request), None) == normalized(request),
        !absolute(request) ==> forall|canonical: PathKey| #[trigger]
            scope_root(project, Some(request), Some(canonical)) == normalized(project + request),
{
}

/// A search without a path of its own covers the project; one with a path from the root covers that
/// place, and any other path goes on from the project. The index is of use where the place lies below
/// the project.
pub proof fn lemma_scopes_follow_the_request(project: PathKey, request: PathKey)
    requires
        forall|i: int|
            0 <= i < project.len() ==> !(#[trigger] project[i] is CurDir) && !(
            project[i] is ParentDir),
        forall|i: int|
            0 <= i < request.len() ==> !(#[trigger] request[i] is CurDir) && !(
            request[i] is ParentDir),
    ensures
        resolved_root(project, None) == project,
        forall|canonical: PathKey| #[trigger] resolved_root(project, Some(canonical)) == canonical,
        scope_root(project, None, None) == project,
        request.len() > 0 && request[0] is RootDir ==> scope_root(project, Some(request), None)
            == request && forall|canonical: PathKey| #[trigger]
            scope_root(project, Some(request), Some(canonical)) == canonical,
        request.len() > 0 && request[0] is Normal ==> scope_root(project, Some(request), None)
            == project + request && within_root(
            project,
            scope_root(project, Some(request), None),
        ),
{
    lemma_paths_without_dots_are_normal(project);
    lemma_paths_without_dots_are_normal(request);
    let full = project + request;
    assert forall|i: int| 0 <= i < full.len() implies !(#[trigger] full[i] is CurDir) && !(
    full[i] is ParentDir) by {
        if i < project.len() {
            assert(full[i] == project[i]);
        } else {
            assert(full[i] == request[i - project.len()]);
        }
    }
    lemma_paths_without_dots_are_normal(full);
    assert(full.take(project.len() as int) =~= project);
}

// ---------------------------------------------------------------------------------------------
// Text
// ---------------------------------------------------------------------------------------------

/// The text of a path has a slash between its parts; the root is a slash itself.
pub proof fn lemma_paths_are_written_with_slashes(front: PathKey, name: Seq<u8>)
    ensures
        path_text(Seq::empty()) == Seq::<u8>::empty(),
        path_text(seq![PartKey::RootDir]) == seq![47u8],
        path_text(seq![PartKey::Normal(name)]) == name,
        front.len() > 0 && !(front.last() is RootDir) ==> path_text(
            front.push(PartKey::Normal(name)),
        ) == path_text(front) + seq![47u8] + name,
        front.len() > 0 && front.last() is RootDir ==> path_text(front.push(PartKey::Normal(name)))
            == path_text(front) + name,
        front.len() > 0 && !(front.last() is RootDir) ==> path_text(front.push(PartKey::ParentDir))
            == path_text(front) + seq![47u8] + seq![46u8, 46u8],
{
    let root = seq![PartKey::RootDir];
    let single = seq![PartKey::Normal(name)];
    assert(root.drop_last() =~= Seq::empty());
    assert(single.drop_last() =~= Seq::empty());
    reveal_with_fuel(path_text, 2);
    assert(path_text(root) =~= seq![47u8]);
    assert(path_text(single) =~= name);
    assert(front.push(PartKey::Normal(name)).drop_last() =~= front);
    assert(front.push(PartKey::ParentDir).drop_last() =~= front);
}

/// A path is shown with the separator of the platform where its text has slashes.
pub proof fn lemma_paths_are_shown_with_the_separator(front: PathKey, name: Seq<u8>, separator: u8)
    ensures
        joined_by(seq![PartKey::RootDir], separator) == seq![separator],
        joined_by(seq![PartKey::Normal(name)], separator) == name,
        front.len() > 0 && !(front.last() is RootDir) ==> joined_by(
            front.push(PartKey::Normal(name)),
            separator,
        ) == joined_by(front, separator) + seq![separator] + name,
{
    let root = seq![PartKey::RootDir];
    let single = seq![PartKey::Normal(name)];
    assert(root.drop_last() =~= Seq::empty());
    assert(single.drop_last() =~= Seq::empty());
    reveal_with_fuel(joined_by, 2);
    assert(joined_by(root, separator) =~= seq![separator]);
    assert(joined_by(single, separator) =~= name);
    assert(front.push(PartKey::Normal(name)).drop_last() =~= front);
}

/// Globs and displays see a path's text, read as characters, with slashes for backslashes and nothing
/// else changed.
pub proof fn lemma_globs_see_slashes(path: PathKey, i: int)
    requires
        0 <= i < lossy_chars(path_text(path)).len(),
    ensures
        glob_text(path).len() == lossy_chars(path_text(path)).len(),
        glob_text(path)[i] == (if lossy_chars(path_text(path))[i] == '\\' {
            '/'
        } else {
            lossy_chars(path_text(path))[i]
        }),
{
}

/// A text is read as a path name by name: a slash ends a name, an empty name and a dot behind a slash
/// say nothing, and two dots lead up. A slash in front stands for the root, and a dot alone for the
/// current directory.
pub proof fn lemma_texts_are_read_name_by_name(text: Seq<u8>, name: Seq<u8>)
    requires
        text.len() > 0,
        forall|i: int| 0 <= i < name.len() ==> #[trigger] name[i] != 47,
    ensures
        path_parts(text + seq![47u8] + name) == path_parts(text) + (if name.len() == 0 || name
            == seq![46u8] {
            Seq::empty()
        } else if name == seq![46u8, 46u8] {
            seq![PartKey::ParentDir]
        } else {
            seq![PartKey::Normal(name)]
        }),
        path_parts(name) == (if name.len() == 0 {
            Seq::empty()
        } else if name == seq![46u8] {
            seq![PartKey::CurDir]
        } else if name == seq![46u8, 46u8] {
            seq![PartKey::ParentDir]
        } else {
            seq![PartKey::Normal(name)]
        }),
        path_parts(seq![47u8]) == seq![PartKey::RootDir],
{
    let whole = text + seq![47u8] + name;
    assert(whole[0] == text[0]);
    if text[0] == 47 {
        lemma_parts_from_extended(text, name, 1, false);
        assert(path_parts(whole) =~= path_parts(text) + segment_parts(name, false));
    } else {
        lemma_parts_from_extended(text, name, 0, true);
    }
    lemma_single_segment(name, 0, true);
    assert(name.subrange(0, name.len() as int) =~= name);
    if name.len() > 0 {
        assert(name[0] != 47);
    }
    let slash = seq![47u8];
    lemma_single_segment(slash, 1, false);
    assert(slash.subrange(1, 1) =~= Seq::<u8>::empty());
    assert(path_parts(slash) =~= seq![PartKey::RootDir]);
}

} // verus!
