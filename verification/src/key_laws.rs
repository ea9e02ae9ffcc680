//! Laws of the keys that caches are found by: what the history of a repository says, how a key is
//! made of it, and which bytes stand for the ignore rules.

use crate::artifact::failed_probe;
use crate::artifact::index_dir;
use crate::artifact::is_canonical;
use crate::artifact::is_hex_digit;
use crate::artifact::is_key_text;
use crate::artifact::key_of;
use crate::artifact::lemma_canonical_form_is_determined;
use crate::artifact::marker_error;
use crate::artifact::memo_key;
use crate::artifact::memo_usable;
use crate::artifact::probe_of_output;
use crate::artifact::probe_step;
use crate::artifact::project_key;
use crate::artifact::ArtifactCacheKeyMemoEntry;
use crate::artifact::GitMarkerState;
use crate::artifact::ProbeStep;
use crate::artifact::RootCommitProbe;
use crate::artifact::RootCommitResolution;
use crate::outside::lossy_chars;
use crate::outside::sha256;
use crate::path::absolute;
use crate::path::lemma_path_order;
use crate::path::normalized;
use crate::path::path_less;
use crate::path::PathKey;
use crate::path_laws::lemma_stored_names_lead_down;
use crate::path_text::path_parts;
use crate::path_text::shown_path;
use crate::text::decimal_text;
use crate::text::filled_lines;
use crate::text::first_chars;
use crate::text::is_white;
use crate::text::joined_texts;
use crate::text::signed_text;
use crate::text::text_contains;
use crate::text::trimmed;
use crate::text_laws::is_hex_of;
use crate::text_laws::lemma_bytes_are_written_in_hexadecimal;
use crate::text_laws::lemma_joined_texts_have_separators_between;
use crate::text_laws::lemma_space_around_a_text_is_taken_off;
use crate::text_laws::lemma_texts_contain_what_stands_in_them;
use crate::walk::is_path_list;
use crate::walk::is_skipped_name;
use crate::walk::rules_bytes;
use crate::walk::RuleFileView;
use vstd::prelude::*;
use vstd::utf8::encode_utf8;

verus! {

// ---------------------------------------------------------------------------------------------
// History
// ---------------------------------------------------------------------------------------------

/// Where the list of first commits has exactly one line, that line is the commit. Without a line
/// there is none.
pub proof fn lemma_one_first_commit_is_the_commit(
    output: Seq<u8>,
    probe: RootCommitProbe,
    line: Seq<char>,
)
    requires
        probe_of_output(output, probe),
    ensures
        filled_lines(lossy_chars(output)).len() == 0 ==> probe is NoCommit,
        filled_lines(lossy_chars(output)) == seq![line] ==> (probe matches RootCommitProbe::Commit(
            text,
        ) && text@ == line),
{
    let lines = filled_lines(lossy_chars(output));
    if lines == seq![line] {
        assert(lines.len() == 1);
        let roots = choose|roots: Seq<Seq<char>>| #[trigger]
            is_canonical(roots, lines) && (probe matches RootCommitProbe::Commit(
                text,
            ) && text@ == joined_texts(roots, '\n'));
        assert(lines[0] == seq![line][0]);
        assert(lines.contains(lines[0]));
        assert(is_canonical(seq![line], lines));
        lemma_canonical_form_is_determined(roots, lines, seq![line], lines);
        lemma_joined_texts_have_separators_between(Seq::empty(), line, '\n');
    }
}

/// A failed command tells that a place is no repository, or that the repository has no commit, by
/// words anywhere in what it wrote; any other failure may pass.
pub proof fn lemma_what_failures_tell(
    code: Option<i32>,
    before: Seq<char>,
    behind: Seq<char>,
    probe: RootCommitProbe,
)
    ensures
        failed_probe(code, before + "not a git repository"@ + behind, probe) ==> probe is NotARepo,
        failed_probe(code, before + "unknown revision"@ + behind, probe) ==> probe is NoCommit
            || probe is NotARepo,
        failed_probe(code, before + "bad revision"@ + behind, probe) ==> probe is NoCommit
            || probe is NotARepo,
        failed_probe(code, before + "ambiguous argument 'HEAD'"@ + behind, probe)
            ==> probe is NoCommit || probe is NotARepo,
        failed_probe(code, before, probe) && probe is NotARepo ==> text_contains(
            before,
            "not a git repository"@,
        ),
        failed_probe(code, before, probe) && probe is NoCommit ==> text_contains(
            before,
            "unknown revision"@,
        ) || text_contains(before, "bad revision"@) || text_contains(
            before,
            "ambiguous argument 'HEAD'"@,
        ),
        failed_probe(code, before, probe) ==> !(probe is Commit),
{
    lemma_texts_contain_what_stands_in_them(before, "not a git repository"@, behind);
    lemma_texts_contain_what_stands_in_them(before, "unknown revision"@, behind);
    lemma_texts_contain_what_stands_in_them(before, "bad revision"@, behind);
    lemma_texts_contain_what_stands_in_them(before, "ambiguous argument 'HEAD'"@, behind);
}

/// A commit ends the search with that commit, a place without one ends it too, and a failure that
/// may pass is tried again after 50 and then after 100 milliseconds, and reported the third time.
pub proof fn lemma_when_a_probe_is_tried_again(probe: RootCommitProbe, attempt: u32, step: ProbeStep)
    requires
        probe_step(attempt, false, probe, step),
    ensures
        probe is NotARepo || probe is NoCommit ==> step == ProbeStep::Done(
            RootCommitResolution::NotARepo,
        ),
        probe is Commit ==> (step matches ProbeStep::Done(RootCommitResolution::Commit(text))
            && text@ == probe->Commit_0@),
        probe is Transient && attempt == 0 ==> step == ProbeStep::Retry(50),
        probe is Transient && attempt == 1 ==> step == ProbeStep::Retry(100),
        probe is Transient && attempt >= 2 ==> (step matches ProbeStep::Done(
            RootCommitResolution::Failed(text),
        ) && text@ == probe->Transient_0@),
{
}

/// A search that was called off ends at once, whatever the last attempt gave.
pub proof fn lemma_a_search_called_off_ends(probe: RootCommitProbe, attempt: u32, step: ProbeStep)
    requires
        probe_step(attempt, true, probe, step),
    ensures
        step == ProbeStep::Done(RootCommitResolution::Cancelled),
{
}

// ---------------------------------------------------------------------------------------------
// Keys
// ---------------------------------------------------------------------------------------------

/// A key has 16 hexadecimal digits: those of the first eight bytes of the hash.
pub proof fn lemma_keys_are_the_front_of_a_hash(bytes: Seq<u8>, i: int)
    requires
        0 <= i < 8,
        sha256(bytes).len() >= 8,
    ensures
        key_of(bytes).len() == 16,
        is_hex_of(key_of(bytes)[2 * i], sha256(bytes)[i] as int / 16),
        is_hex_of(key_of(bytes)[2 * i + 1], sha256(bytes)[i] as int % 16),
        is_key_text(key_of(bytes)),
{
    let front = sha256(bytes).take(8);
    lemma_bytes_are_written_in_hexadecimal(front, i);
    assert forall|j: int| 0 <= j < 16 implies is_hex_digit(
        #[trigger] key_of(bytes)[j],
    ) by {
        lemma_bytes_are_written_in_hexadecimal(front, j / 2);
        assert(2 * (j / 2) == j || 2 * (j / 2) + 1 == j);
    }
}

/// A project with a commit has the same key wherever it stands: that of the commit. Without one the
/// key is that of its place: the path as the system resolved it, or else its normal form.
pub proof fn lemma_what_projects_are_known_by(
    resolution: RootCommitResolution,
    root: PathKey,
    canonical: PathKey,
    separator: u8,
)
    ensures
        resolution matches RootCommitResolution::Commit(commit) ==> project_key(
            resolution,
            root,
            Some(canonical),
            separator,
        ) == key_of(encode_utf8(commit@)) && project_key(resolution, root, None, separator)
            == key_of(encode_utf8(commit@)),
        !(resolution is Commit) ==> project_key(resolution, root, Some(canonical), separator)
            == key_of(encode_utf8(shown_path(canonical, separator))) && project_key(
            resolution,
            root,
            None,
            separator,
        ) == key_of(encode_utf8(shown_path(normalized(root), separator))),
{
}

/// Where the history could not be read, a remembered key is used, and without one the failure is
/// reported for the root that keys are remembered by. A place without a marker of a repository never
/// fails.
pub proof fn lemma_when_remembered_keys_are_used(
    probe_root: PathKey,
    canonical: Option<PathKey>,
    memo_root: PathKey,
    marker: GitMarkerState,
    resolution: RootCommitResolution,
    memo: Option<Seq<char>>,
    separator: u8,
)
    ensures
        ({
            let key = memo_key(
                probe_root,
                canonical,
                memo_root,
                marker,
                resolution,
                memo,
                separator,
            );
            let here = project_key(RootCommitResolution::NotARepo, probe_root, canonical, separator);
            &&& marker is Absent ==> key == Ok::<Seq<char>, (PathKey, Seq<char>)>(here)
            &&& !(marker is Absent) ==> {
                &&& resolution is Failed && memo is Some ==> key == Ok::<
                    Seq<char>,
                    (PathKey, Seq<char>),
                >(memo->0)
                &&& resolution is Failed && memo is None && marker is Present ==> key == Err::<
                    Seq<char>,
                    (PathKey, Seq<char>),
                >((memo_root, resolution->Failed_0@))
                &&& resolution is Failed && memo is None && marker is Unknown ==> key == Err::<
                    Seq<char>,
                    (PathKey, Seq<char>),
                >((memo_root, resolution->Failed_0@ + "; "@ + marker->Unknown_0@))
                &&& resolution is Cancelled ==> key is Err && key->Err_0.0 == memo_root
                &&& resolution is NotARepo ==> key == Ok::<Seq<char>, (PathKey, Seq<char>)>(here)
                &&& resolution matches RootCommitResolution::Commit(commit) ==> key == Ok::<
                    Seq<char>,
                    (PathKey, Seq<char>),
                >(project_key(resolution, probe_root, canonical, separator))
            }
        }),
{
}

/// A remembered entry is used where it has a root, sixteen hexadecimal digits of either case, and a
/// commit that is more than white space.
pub proof fn lemma_which_remembered_entries_are_used(
    root: Seq<char>,
    entry: ArtifactCacheKeyMemoEntry,
    i: int,
)
    ensures
        memo_usable(root, entry) && 0 <= i < 16 ==> {
            let c = entry.key@[i] as int;
            &&& entry.key@.len() == 16
            &&& 48 <= c <= 57 || 65 <= c <= 70 || 97 <= c <= 102
        },
        memo_usable(root, entry) ==> root.len() > 0 && exists|j: int|
            0 <= j < entry.git_root_commit@.len() && !is_white(
                #[trigger] entry.git_root_commit@[j],
            ),
        root.len() > 0 && entry.key@.len() == 16 && (forall|j: int|
            0 <= j < 16 ==> is_hex_digit(#[trigger] entry.key@[j]))
            && trimmed(entry.git_root_commit@).len() > 0 ==> memo_usable(root, entry),
{
    let commit = entry.git_root_commit@;
    if memo_usable(root, entry) {
        assert(0 <= i < 16 ==> is_hex_digit(entry.key@[i]));
        if forall|j: int| 0 <= j < commit.len() ==> is_white(#[trigger] commit[j]) {
            lemma_space_around_a_text_is_taken_off(commit, Seq::empty(), Seq::empty());
            assert(commit + Seq::<char>::empty() + Seq::<char>::empty() =~= commit);
        }
    }
}

/// An index lies below `index` in the base directory, under its key.
pub proof fn lemma_where_an_index_lies(base: PathKey, key: Seq<char>)
    requires
        !absolute(path_parts(encode_utf8("index"@))),
        !absolute(path_parts(encode_utf8(key))),
    ensures
        index_dir(base, key) == base + path_parts(encode_utf8("index"@))
            + path_parts(encode_utf8(key)),
{
}

// ---------------------------------------------------------------------------------------------
// Walks
// ---------------------------------------------------------------------------------------------

/// The directories that a walk leaves out are those with one of nine names.
pub proof fn lemma_which_directories_are_left_out(name: Seq<char>)
    ensures
        is_skipped_name(name) <==> seq![
            "node_modules"@,
            "target"@,
            "venv"@,
            ".venv"@,
            ".git"@,
            "__pycache__"@,
            ".tox"@,
            "dist"@,
            "build"@,
        ].contains(name),
{
    let names = seq![
        "node_modules"@,
        "target"@,
        "venv"@,
        ".venv"@,
        ".git"@,
        "__pycache__"@,
        ".tox"@,
        "dist"@,
        "build"@,
    ];
    assert(names[0] == "node_modules"@);
    assert(names[1] == "target"@);
    assert(names[2] == "venv"@);
    assert(names[3] == ".venv"@);
    assert(names[4] == ".git"@);
    assert(names[5] == "__pycache__"@);
    assert(names[6] == ".tox"@);
    assert(names[7] == "dist"@);
    assert(names[8] == "build"@);
    if names.contains(name) {
        let i = choose|i: int| 0 <= i < names.len() && names[i] == name;
        assert(i == 0 || i == 1 || i == 2 || i == 3 || i == 4 || i == 5 || i == 6 || i == 7 || i
            == 8);
    }
}

/// The bytes of ignore rules begin with a version. Each file adds its name below the root, a zero
/// byte, its content and a zero byte; a file that could not be read adds the error in place of its
/// content.
pub proof fn lemma_how_rules_are_put_together(
    root: PathKey,
    files: Seq<RuleFileView>,
    below: PathKey,
    content: Seq<u8>,
    error: Seq<char>,
    separator: u8,
)
    requires
        normalized(root) == root,
        normalized(root + below) == root + below,
        below.len() > 0,
        forall|i: int| 0 <= i < below.len() ==> #[trigger] below[i] is Normal,
    ensures
        rules_bytes(root, Seq::empty(), separator) == encode_utf8("aft-ignore-rules-v1"@) + seq![0u8],
        rules_bytes(
            root,
            files.push(RuleFileView { path: root + below, content: Ok(content) }),
            separator,
        ) == rules_bytes(root, files, separator) + encode_utf8(shown_path(below, separator))
            + seq![0u8] + content + seq![0u8],
        rules_bytes(
            root,
            files.push(RuleFileView { path: root + below, content: Err(error) }),
            separator,
        ) == rules_bytes(root, files, separator) + encode_utf8(shown_path(below, separator))
            + seq![0u8] + encode_utf8("read-error:"@) + encode_utf8(error) + seq![0u8],
{
    let read = RuleFileView { path: root + below, content: Ok(content) };
    let unread = RuleFileView { path: root + below, content: Err(error) };
    assert(files.push(read).drop_last() =~= files);
    assert(files.push(unread).drop_last() =~= files);
    assert((root + below).take(root.len() as int) =~= root);
    assert((root + below).skip(root.len() as int) =~= below);
    lemma_stored_names_lead_down(below);
    assert(rules_bytes(root, files.push(read), separator) =~= rules_bytes(root, files, separator)
        + encode_utf8(shown_path(below, separator)) + seq![0u8] + content + seq![0u8]);
    assert(rules_bytes(root, files.push(unread), separator) =~= rules_bytes(root, files, separator)
        + encode_utf8(shown_path(below, separator)) + seq![0u8] + encode_utf8("read-error:"@)
        + encode_utf8(error) + seq![0u8]);
}

// ---------------------------------------------------------------------------------------------
// Messages
// ---------------------------------------------------------------------------------------------

/// A failure that may pass tells the exit code and the first two hundred characters that were
/// written, without the space around them.
pub proof fn lemma_what_is_told_of_a_failure(code: i32, stderr: Seq<char>, probe: RootCommitProbe)
    requires
        probe is Transient,
    ensures
        failed_probe(Some(code), stderr, probe) ==> probe->Transient_0@ == "exit Some("@
            + signed_text(code) + "): "@ + first_chars(trimmed(stderr), 200),
        failed_probe(None, stderr, probe) ==> probe->Transient_0@ == "exit None: "@ + first_chars(
            trimmed(stderr),
            200,
        ),
{
    reveal_strlit("exit ");
    reveal_strlit("Some(");
    reveal_strlit(")");
    reveal_strlit(": ");
    reveal_strlit("None");
    reveal_strlit("exit Some(");
    reveal_strlit("): ");
    reveal_strlit("exit None: ");
    let front = first_chars(trimmed(stderr), 200);
    let number = signed_text(code);
    assert("exit "@ + ("Some("@ + number + ")"@) + ": "@ + front =~= "exit Some("@ + number + "): "@
        + front);
    assert("exit "@ + "None"@ + ": "@ + front =~= "exit None: "@ + front);
}

/// A marker that could not be looked at is told with its path and the error.
pub proof fn lemma_what_is_told_of_a_marker(marker: PathKey, error: Seq<char>, separator: u8)
    ensures
        marker_error(marker, error, separator) == "failed to inspect git marker "@ + shown_path(
            marker,
            separator,
        ) + ": "@ + error,
{
}

/// A number below zero is written with a dash in front of its digits.
pub proof fn lemma_how_codes_are_written(value: i32)
    ensures
        value >= 0 ==> signed_text(value) == decimal_text(value as nat),
        value < 0 ==> signed_text(value).len() > 0 && signed_text(value)[0] == '-' && signed_text(
            value,
        ).skip(1) == decimal_text((0 - value) as nat),
{
    if value < 0 {
        assert(signed_text(value).skip(1) =~= decimal_text((0 - value) as nat));
    }
}

/// A list of rule files names each file that was found once, in ascending order.
pub proof fn lemma_rule_files_are_listed_once(
    sorted: Seq<PathKey>,
    paths: Seq<PathKey>,
    i: int,
    j: int,
    path: PathKey,
)
    requires
        is_path_list(sorted, paths),
        0 <= i < j < sorted.len(),
    ensures
        sorted[i] != sorted[j],
        path_less(sorted[i], sorted[j]),
        sorted.contains(path) <==> paths.contains(path),
{
    lemma_path_order();
    let less = |a: PathKey, b: PathKey| path_less(a, b);
    assert(less(sorted[i], sorted[j]));
    assert(!less(sorted[i], sorted[i]));
}

} // verus!
