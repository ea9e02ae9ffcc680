//! Which paths of a project are looked at, and the rules that leave some out.

use crate::filters::PathFilters;
use crate::format::name_below;
use crate::ingest::path_views;
use crate::order::is_sorting_order;
use crate::order::sorting_order;
use crate::order::sorts_before;
use crate::outside::digest_bytes;
use crate::outside::lossy_chars;
use crate::outside::lossy_text;
use crate::outside::sha256;
use crate::path::cache_relative_path;
use crate::path::lemma_path_order;
use crate::path::path_less;
use crate::path::relate_bytes;
use crate::path::PathKey;
use crate::path::Relation;
use crate::path::SearchPath;
use crate::path_text::push_bytes;
use crate::path_text::shown_path;
use crate::text::hex_text;
use crate::text::is_lower_hex_digit;
use crate::text::lemma_hex_text;
use crate::text::same_text;
use crate::text::to_hex;
use vstd::prelude::*;
use vstd::utf8::encode_utf8;

verus! {

// ---------------------------------------------------------------------------------------------
// Walking
// ---------------------------------------------------------------------------------------------

/// Directories that hold what tools put there.
pub open spec fn is_skipped_name(name: Seq<char>) -> bool {
    ||| name == "node_modules"@
    ||| name == "target"@
    ||| name == "venv"@
    ||| name == ".venv"@
    ||| name == ".git"@
    ||| name == "__pycache__"@
    ||| name == ".tox"@
    ||| name == "dist"@
    ||| name == "build"@
}

/// Whether a walk looks at an entry. Files always count; some directories are not entered.
pub fn enters(name: &[u8], is_directory: bool) -> (entered: bool)
    ensures
        entered == !(is_directory && is_skipped_name(lossy_chars(name@))),
{
    if !is_directory {
        return true;
    }
    let text = lossy_text(name);
    let name: &str = text.as_str();
    let skipped: bool = same_text(name, "node_modules")
        || same_text(name, "target")
        || same_text(name, "venv")
        || same_text(name, ".venv")
        || same_text(name, ".git")
        || same_text(name, "__pycache__")
        || same_text(name, ".tox")
        || same_text(name, "dist")
        || same_text(name, "build");
    !skipped
}

/// The files that a walk has found.
pub struct WalkCollector {
    pub files: Vec<SearchPath>,
    /// More files than this are too many.
    pub limit: Option<usize>,
}

impl WalkCollector {
    pub fn new(limit: Option<usize>) -> (collector: WalkCollector)
        ensures
            collector.files@.len() == 0,
            collector.limit == limit,
    {
        WalkCollector { files: Vec::new(), limit }
    }

    /// Takes a file that passes the filters and the caller's own test. Gives the number of files
    /// once there are too many.
    pub fn offer(
        &mut self,
        filters: &PathFilters,
        filter_root: &SearchPath,
        path: SearchPath,
        matches_file: bool,
    ) -> (result: Result<(), usize>)
        ensures
            final(self).limit == old(self).limit,
            ({
                let taken = final(self).files@.len() > old(self).files@.len();
                &&& path_views(final(self).files@) == (if taken {
                    path_views(old(self).files@).push(path@)
                } else {
                    path_views(old(self).files@)
                })
                &&& result == (if taken && (old(self).limit matches Some(limit) && old(
                    self,
                ).files@.len() + 1 > limit) {
                    Err::<(), usize>((old(self).files@.len() + 1) as usize)
                } else {
                    Ok(())
                })
                &&& taken == (matches_file && filters.accepts(filter_root@, path@))
            }),
    {
        if filters.matches(filter_root, &path) && matches_file {
            self.files.push(path);
            assert(path_views(self.files@) =~= path_views(old(self).files@).push(path@));
            if let Some(limit) = self.limit {
                if self.files.len() > limit {
                    return Err(self.files.len());
                }
            }
        }
        Ok(())
    }
}

// ---------------------------------------------------------------------------------------------
// Ignore rules
// ---------------------------------------------------------------------------------------------

/// The names of the files that hold ignore rules.
pub fn is_ignore_rule_file(name: &[u8]) -> (holds_rules: bool)
    ensures
        holds_rules == (name@ == encode_utf8(".gitignore"@) || name@ == encode_utf8(".aftignore"@)),
{
    relate_bytes(name, ".gitignore".as_bytes()) == Relation::Same || relate_bytes(
        name,
        ".aftignore".as_bytes(),
    ) == Relation::Same
}

/// In ascending order, each once.
pub open spec fn ascending_paths(paths: Seq<PathKey>) -> bool {
    forall|i: int, j: int|
        0 <= i < j < paths.len() ==> path_less(#[trigger] paths[i], #[trigger] paths[j])
}

/// `sorted` holds each path of `paths` once, in ascending order.
pub open spec fn is_path_list(sorted: Seq<PathKey>, paths: Seq<PathKey>) -> bool {
    &&& ascending_paths(sorted)
    &&& forall|path: PathKey| #[trigger] sorted.contains(path) <==> paths.contains(path)
}

proof fn lemma_paths_less(a: PathKey, b: PathKey, c: PathKey)
    ensures
        !path_less(a, a),
        path_less(a, b) || a == b || path_less(b, a),
        path_less(a, b) && path_less(b, c) ==> path_less(a, c),
{
    lemma_path_order();
    let less = |x: PathKey, y: PathKey| path_less(x, y);
    assert(!less(a, a));
    assert(less(a, b) || a == b || less(b, a));
    assert(less(a, b) && less(b, c) ==> less(a, c));
}

/// The paths in ascending order, each once.
pub fn sort_rule_files(paths: &Vec<SearchPath>) -> (sorted: Vec<SearchPath>)
    ensures
        is_path_list(path_views(sorted@), path_views(paths@)),
{
    let ghost views = path_views(paths@);
    let order = sorting_order(paths.as_slice());
    let mut sorted: Vec<SearchPath> = Vec::new();
    let mut k: usize = 0;
    while k < order.len()
        invariant
            views == path_views(paths@),
            is_sorting_order(paths@, order@),
            k <= order@.len(),
            ascending_paths(path_views(sorted@)),
            forall|m: int| 0 <= m < sorted@.len() ==> views.contains((#[trigger] sorted@[m])@),
            forall|m: int|
                0 <= m < k ==> path_views(sorted@).contains(views[#[trigger] order@[m] as int]),
            k > 0 ==> sorted@.len() > 0 && sorted@.last()@ == views[order@[k - 1] as int],
            k == 0 ==> sorted@.len() == 0,
        decreases order@.len() - k,
    {
        let at: usize = order[k];
        let path = paths[at].duplicate();
        let ghost view = path@;
        let ghost before = path_views(sorted@);
        assert(views[at as int] == view);
        assert(views.contains(view));
        let is_new: bool = sorted.len() == 0 || !sorted[sorted.len() - 1].same_as(&path);
        proof {
            if k > 0 {
                let last = sorted@.last()@;
                assert(sorts_before(paths@, order@[k - 1], order@[k as int]));
                assert(paths@[order@[k - 1] as int]@ == last);
                lemma_paths_less(last, view, view);
            }
        }
        if is_new {
            sorted.push(path);
        }
        k += 1;
        proof {
            let after = path_views(sorted@);
            if is_new {
                assert(after =~= before.push(view));
                assert forall|a: int, b: int| 0 <= a < b < after.len() implies path_less(
                    #[trigger] after[a],
                    #[trigger] after[b],
                ) by {
                    if b == before.len() {
                        let last = before[before.len() - 1];
                        assert(path_less(last, view));
                        if a < before.len() - 1 {
                            assert(path_less(before[a], last));
                            lemma_paths_less(before[a], last, view);
                        }
                    } else {
                        assert(after[a] == before[a] && after[b] == before[b]);
                    }
                }
                assert(after[before.len() as int] == view);
            } else {
                assert(after[after.len() - 1] == view);
            }
            assert(after.contains(view));
            assert forall|m: int| 0 <= m < k implies after.contains(
                views[#[trigger] order@[m] as int],
            ) by {
                if m < k - 1 {
                    assert(before.contains(views[order@[m] as int]));
                    let n = before.index_of(views[order@[m] as int]);
                    assert(after[n] == before[n]);
                }
            }
        }
    }
    proof {
        let all = path_views(sorted@);
        assert forall|path: PathKey| #[trigger] all.contains(path) <==> views.contains(path) by {
            if all.contains(path) {
                let m = all.index_of(path);
                assert(sorted@[m]@ == path);
            }
            if views.contains(path) {
                let p = views.index_of(path);
                assert(order@.contains(p as usize));
                let m = order@.index_of(p as usize);
                assert(all.contains(views[order@[m] as int]));
            }
        }
    }
    sorted
}

/// A file of rules, and its content or why it could not be read.
pub struct IgnoreRuleFile {
    pub path: SearchPath,
    pub content: Result<Vec<u8>, String>,
}

/// The mathematical counterpart of an `IgnoreRuleFile`.
pub struct RuleFileView {
    pub path: PathKey,
    pub content: Result<Seq<u8>, Seq<char>>,
}

impl View for IgnoreRuleFile {
    type V = RuleFileView;

    open spec fn view(&self) -> RuleFileView {
        RuleFileView {
            path: self.path@,
            content: match self.content {
                Ok(bytes) => Ok(bytes@),
                Err(error) => Err(error@),
            },
        }
    }
}

/// What a file of rules adds: its name as seen from the root where it stands below it, and what it
/// holds, each closed by a zero byte.
pub open spec fn rule_bytes(root: PathKey, file: RuleFileView, separator: u8) -> Seq<u8> {
    encode_utf8(shown_path(rule_name(root, file.path), separator)) + seq![0u8] + rule_content(file) + seq![0u8]
}

/// The path of a file of rules, as seen from the root where it stands below it.
pub open spec fn rule_name(root: PathKey, path: PathKey) -> PathKey {
    match name_below(root, path) {
        Some(relative) => relative,
        None => path,
    }
}

/// What a file of rules holds, or why it cannot be read.
pub open spec fn rule_content(file: RuleFileView) -> Seq<u8> {
    match file.content {
        Ok(bytes) => bytes,
        Err(error) => encode_utf8("read-error:"@) + encode_utf8(error),
    }
}

pub open spec fn rules_bytes(root: PathKey, files: Seq<RuleFileView>, separator: u8) -> Seq<u8>
    decreases files.len(),
{
    if files.len() == 0 {
        encode_utf8("aft-ignore-rules-v1"@) + seq![0u8]
    } else {
        rules_bytes(root, files.drop_last(), separator) + rule_bytes(root, files.last(), separator)
    }
}

pub open spec fn rule_views(files: Seq<IgnoreRuleFile>) -> Seq<RuleFileView> {
    files.map_values(|file: IgnoreRuleFile| file@)
}

/// A text that changes with the ignore rules of a project. `files` are its files of rules, in
/// ascending order, and `separator` stands between the components of a path that is shown.
pub fn ignore_rules_fingerprint(
    project_root: &SearchPath,
    files: &Vec<IgnoreRuleFile>,
    separator: u8,
) -> (text: String)
    ensures
        text@ == hex_text(sha256(rules_bytes(project_root@, rule_views(files@), separator))),
        text@.len() == 64,
        forall|i: int| 0 <= i < text@.len() ==> is_lower_hex_digit(#[trigger] text@[i]),
{
    let mut bytes: Vec<u8> = Vec::new();
    push_bytes(&mut bytes, "aft-ignore-rules-v1".as_bytes());
    bytes.push(0);
    let mut i: usize = 0;
    proof {
        assert(rule_views(files@).take(0).len() == 0);
        assert(bytes@ =~= rules_bytes(project_root@, rule_views(files@).take(0), separator));
    }
    while i < files.len()
        invariant
            i <= files@.len(),
            bytes@ == rules_bytes(project_root@, rule_views(files@).take(i as int), separator),
        decreases files@.len() - i,
    {
        let ghost before = bytes@;
        let file = &files[i];
        let shown = match cache_relative_path(project_root, &file.path) {
            Some(relative) => relative.shown(separator),
            None => file.path.shown(separator),
        };
        push_bytes(&mut bytes, shown.as_str().as_bytes());
        bytes.push(0);
        match &file.content {
            Ok(content) => {
                push_bytes(&mut bytes, content.as_slice());
            },
            Err(error) => {
                push_bytes(&mut bytes, "read-error:".as_bytes());
                push_bytes(&mut bytes, error.as_str().as_bytes());
            },
        }
        bytes.push(0);
        proof {
            let views = rule_views(files@);
            assert(views.take(i + 1).drop_last() =~= views.take(i as int));
            assert(views.take(i + 1).last() == file@);
            assert(bytes@ =~= before + rule_bytes(project_root@, file@, separator));
        }
        i += 1;
    }
    assert(rule_views(files@).take(i as int) =~= rule_views(files@));
    let digest = digest_bytes(bytes.as_slice());
    proof {
        assert(digest@.take(32) =~= digest@);
        lemma_hex_text(digest@);
    }
    to_hex(&digest, 32)
}

/// Sequences that differ only in the middle differ.
proof fn lemma_middle_is_determined(
    before: Seq<u8>,
    left: Seq<u8>,
    right: Seq<u8>,
    after: Seq<u8>,
)
    requires
        before + left + after == before + right + after,
    ensures
        left == right,
{
    let whole = before + left + after;
    assert(whole.len() == before.len() + left.len() + after.len());
    assert(left =~= whole.subrange(before.len() as int, before.len() as int + left.len()));
    assert(right =~= whole.subrange(before.len() as int, before.len() as int + right.len()));
}

/// Other content in one file of rules, all else being the same, is told apart: the bytes that are
/// hashed are others.
pub proof fn lemma_other_rules_give_other_bytes(
    root: PathKey,
    left: Seq<RuleFileView>,
    right: Seq<RuleFileView>,
    at: int,
    separator: u8,
)
    requires
        left.len() == right.len(),
        0 <= at < left.len(),
        forall|i: int| 0 <= i < left.len() && i != at ==> #[trigger] left[i] == right[i],
        left[at].path == right[at].path,
        rule_content(left[at]) != rule_content(right[at]),
    ensures
        rules_bytes(root, left, separator) != rules_bytes(root, right, separator),
    decreases left.len(),
{
    if rules_bytes(root, left, separator) == rules_bytes(root, right, separator) {
        let (x, y) = (left.last(), right.last());
        let earlier = rules_bytes(root, left.drop_last(), separator);
        if at == left.len() - 1 {
            assert(left.drop_last() =~= right.drop_last());
            let name = encode_utf8(shown_path(rule_name(root, x.path), separator));
            let before = earlier + (name + seq![0u8]);
            assert(earlier + rule_bytes(root, x, separator) =~= before + rule_content(x) + seq![0u8]);
            assert(earlier + rule_bytes(root, y, separator) =~= before + rule_content(y) + seq![0u8]);
            lemma_middle_is_determined(before, rule_content(x), rule_content(y), seq![0u8]);
        } else {
            assert(x == y);
            let none = Seq::<u8>::empty();
            let other = rules_bytes(root, right.drop_last(), separator);
            let last = rule_bytes(root, x, separator);
            assert(none + earlier + last =~= earlier + last);
            assert(none + other + last =~= other + last);
            lemma_middle_is_determined(none, earlier, other, last);
            lemma_other_rules_give_other_bytes(
                root,
                left.drop_last(),
                right.drop_last(),
                at,
                separator,
            );
        }
    }
}

/// The order in which the files of rules are found, and how often, does not matter: lists with the
/// same members are put in the same order.
pub proof fn lemma_discovery_order_does_not_matter(
    left: Seq<PathKey>,
    left_found: Seq<PathKey>,
    right: Seq<PathKey>,
    right_found: Seq<PathKey>,
)
    requires
        is_path_list(left, left_found),
        is_path_list(right, right_found),
        forall|path: PathKey| #[trigger] left_found.contains(path) <==> right_found.contains(path),
    ensures
        left == right,
    decreases left.len(),
{
    assert forall|path: PathKey| #[trigger] left.contains(path) <==> right.contains(path) by {
        assert(left.contains(path) <==> left_found.contains(path));
        assert(right.contains(path) <==> right_found.contains(path));
    }
    if left.len() == 0 {
        if right.len() > 0 {
            assert(right.contains(right[0]));
            assert(left.contains(right[0]));
        }
        assert(left =~= right);
    } else {
        let (x, y) = (left.last(), right.last());
        assert(left.contains(x));
        assert(right.contains(x));
        assert(right.contains(y));
        assert(left.contains(y));
        let k = right.index_of(x);
        let m = left.index_of(y);
        lemma_paths_less(x, y, x);
        if x != y {
            assert(path_less(right[k], right[right.len() - 1]));
            assert(path_less(left[m], left[left.len() - 1]));
        }
        assert(x == y);
        let (l, r) = (left.drop_last(), right.drop_last());
        assert forall|path: PathKey| #[trigger] l.contains(path) <==> r.contains(path) by {
            if l.contains(path) {
                let n = l.index_of(path);
                assert(left[n] == path);
                assert(path_less(left[n], left[left.len() - 1]));
                assert(left.contains(path));
                assert(right.contains(path));
                let o = right.index_of(path);
                assert(right[o] == path);
                assert(r[o] == path);
            }
            if r.contains(path) {
                let n = r.index_of(path);
                assert(right[n] == path);
                assert(path_less(right[n], right[right.len() - 1]));
                assert(right.contains(path));
                assert(left.contains(path));
                let o = left.index_of(path);
                assert(left[o] == path);
                assert(l[o] == path);
            }
        }
        lemma_discovery_order_does_not_matter(l, l, r, r);
        assert(left =~= l.push(x));
        assert(right =~= r.push(y));
    }
}

} // verus!
