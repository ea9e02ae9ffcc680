//! The identity of a project: the key under which its cache is kept.

use crate::order::is_sorting_order;
use crate::order::sorting_order;
use crate::order::sorts_before;
use crate::outside::digest_bytes;
use crate::outside::lossy_chars;
use crate::outside::lossy_text;
use crate::outside::sha256;
use crate::outside::utf8_text;
use crate::path::bytes_less;
use crate::path::joined;
use crate::path::PathKey;
use crate::path::SearchPath;
use crate::path_text::canonicalize_or_normalize;
use crate::path_text::parse_path;
use crate::path_text::path_option;
use crate::path_text::path_parts;
use crate::path_text::resolved_root;
use crate::path_text::shown_path;
use crate::text::append_number;
use crate::text::append_text;
use crate::text::chars_of;
use crate::text::contains_text;
use crate::text::filled_lines;
use crate::text::first_chars;
use crate::text::hex_text;
use crate::text::join_texts;
use crate::text::joined_texts;
use crate::text::lemma_encoding_is_injective;
use crate::text::lemma_hex_text;
use crate::text::lemma_text_bytes;
use crate::text::read_filled_lines;
use crate::text::signed_text;
use crate::text::string_views;
use crate::text::take_chars;
use crate::text::text_contains;
use crate::text::to_hex;
use crate::text::trim_text;
use crate::text::trimmed;
use crate::text::TextKey;
use vstd::prelude::*;
use vstd::utf8::decode_utf8;
use vstd::utf8::encode_utf8;
use vstd::utf8::valid_utf8;

verus! {

// ---------------------------------------------------------------------------------------------
// Probing for root commits
// ---------------------------------------------------------------------------------------------

/// What asking for the root commits of a repository gave.
#[derive(Debug)]
pub enum RootCommitProbe {
    Commit(String),
    /// The place is no repository.
    NotARepo,
    /// A repository without a commit.
    NoCommit,
    /// A failure that may pass.
    Transient(String),
}

/// What is known of the root commits in the end.
#[derive(Debug)]
pub enum RootCommitResolution {
    Commit(String),
    NotARepo,
    Failed(String),
    Cancelled,
}

/// In ascending order of their bytes, each once.
pub open spec fn ascending_texts(texts: Seq<Seq<char>>) -> bool {
    forall|i: int, j: int|
        0 <= i < j < texts.len() ==> bytes_less(
            encode_utf8(#[trigger] texts[i]),
            encode_utf8(#[trigger] texts[j]),
        )
}

/// `roots` are the distinct members of `lines`, in ascending order.
pub open spec fn is_canonical(roots: Seq<Seq<char>>, lines: Seq<Seq<char>>) -> bool {
    &&& ascending_texts(roots)
    &&& forall|text: Seq<char>| #[trigger] roots.contains(text) <==> lines.contains(text)
}

/// What the probe says of the list of root commits that was printed.
pub open spec fn probe_of_output(output: Seq<u8>, probe: RootCommitProbe) -> bool {
    let lines = filled_lines(lossy_chars(output));
    match probe {
        RootCommitProbe::Commit(text) => lines.len() > 0 && exists|roots: Seq<Seq<char>>| #[trigger]
            is_canonical(roots, lines) && text@ == joined_texts(roots, '\n'),
        RootCommitProbe::NoCommit => lines.len() == 0,
        _ => false,
    }
}

/// The distinct texts in ascending order of their bytes.
fn sort_distinct(texts: &Vec<String>) -> (sorted: Vec<String>)
    ensures
        is_canonical(string_views(sorted@), string_views(texts@)),
        texts@.len() > 0 ==> sorted@.len() > 0,
{
    let ghost views = string_views(texts@);
    let mut keys: Vec<TextKey> = Vec::with_capacity(texts.len());
    let mut i: usize = 0;
    while i < texts.len()
        invariant
            i <= texts@.len(),
            keys@.len() == i,
            forall|k: int| 0 <= k < i ==> (#[trigger] keys@[k]).text@ == texts@[k]@,
        decreases texts@.len() - i,
    {
        keys.push(TextKey { text: texts[i].clone() });
        i += 1;
    }
    let order = sorting_order(keys.as_slice());
    let mut sorted: Vec<String> = Vec::new();
    let mut k: usize = 0;
    while k < order.len()
        invariant
            views == string_views(texts@),
            keys@.len() == texts@.len(),
            forall|m: int| 0 <= m < keys@.len() ==> (#[trigger] keys@[m]).text@ == texts@[m]@,
            is_sorting_order(keys@, order@),
            k <= order@.len(),
            ascending_texts(string_views(sorted@)),
            forall|m: int| 0 <= m < sorted@.len() ==> views.contains((#[trigger] sorted@[m])@),
            forall|m: int|
                0 <= m < k ==> string_views(sorted@).contains(views[#[trigger] order@[m] as int]),
            k > 0 ==> sorted@.len() > 0 && sorted@.last()@ == views[order@[k - 1] as int],
            k == 0 ==> sorted@.len() == 0,
        decreases order@.len() - k,
    {
        let at: usize = order[k];
        let text = texts[at].clone();
        let ghost view = text@;
        let ghost before = string_views(sorted@);
        assert(views[at as int] == view);
        assert(views.contains(view));
        let is_new: bool = sorted.len() == 0 || !(sorted[sorted.len() - 1] == text);
        proof {
            if k > 0 {
                let last = sorted@.last()@;
                assert(sorts_before(keys@, order@[k - 1], order@[k as int]));
                assert(keys@[order@[k - 1] as int].text@ == last);
                assert(keys@[order@[k as int] as int].text@ == view);
                lemma_text_bytes(encode_utf8(last), encode_utf8(view), encode_utf8(view));
                if last != view {
                    lemma_encoding_is_injective(last, view);
                    assert(bytes_less(encode_utf8(last), encode_utf8(view)));
                }
            }
        }
        if is_new {
            sorted.push(text);
        }
        k += 1;
        proof {
            let after = string_views(sorted@);
            if is_new {
                assert(after =~= before.push(view));
                assert forall|a: int, b: int| 0 <= a < b < after.len() implies bytes_less(
                    encode_utf8(#[trigger] after[a]),
                    encode_utf8(#[trigger] after[b]),
                ) by {
                    if b == before.len() {
                        assert(after[a] == before[a]);
                        let last = before[before.len() - 1];
                        if a < before.len() - 1 {
                            assert(bytes_less(encode_utf8(before[a]), encode_utf8(last)));
                            lemma_text_bytes(
                                encode_utf8(before[a]),
                                encode_utf8(last),
                                encode_utf8(view),
                            );
                        }
                    } else {
                        assert(after[a] == before[a] && after[b] == before[b]);
                    }
                }
                assert(after[before.len() as int] == view);
            } else {
                assert(after[after.len() - 1] == view);
            }
            assert(after.contains(view));
            assert forall|m: int| 0 <= m < k implies after.contains(
                views[#[trigger] order@[m] as int],
            ) by {
                if m < k - 1 {
                    assert(before.contains(views[order@[m] as int]));
                    let n = before.index_of(views[order@[m] as int]);
                    assert(after[n] == before[n]);
                }
            }
        }
    }
    proof {
        let all = string_views(sorted@);
        assert forall|text: Seq<char>| #[trigger] all.contains(text) <==> views.contains(text) by {
            if all.contains(text) {
                let m = all.index_of(text);
                assert(sorted@[m]@ == text);
            }
            if views.contains(text) {
                let p = views.index_of(text);
                assert(order@.contains(p as usize));
                let m = order@.index_of(p as usize);
                assert(all.contains(views[order@[m] as int]));
            }
        }
    }
    sorted
}

/// Puts a printed list of root commits into canonical form. A repository can have several root
/// commits, and the order in which they are printed may change.
pub fn canonicalize_root_commit_output(stdout: &[u8]) -> (probe: RootCommitProbe)
    ensures
        probe_of_output(stdout@, probe),
{
    let decoded = lossy_text(stdout);
    let lines = read_filled_lines(decoded.as_str());
    assert(string_views(lines@).len() == lines@.len());
    if lines.len() == 0 {
        return RootCommitProbe::NoCommit;
    }
    let roots = sort_distinct(&lines);
    let text = join_texts(&roots, '\n');
    assert(is_canonical(string_views(roots@), filled_lines(lossy_chars(stdout@))));
    RootCommitProbe::Commit(text)
}

/// Two lists with the same members have the same canonical form.
pub proof fn lemma_canonical_form_is_determined(
    left: Seq<Seq<char>>,
    left_lines: Seq<Seq<char>>,
    right: Seq<Seq<char>>,
    right_lines: Seq<Seq<char>>,
)
    requires
        is_canonical(left, left_lines),
        is_canonical(right, right_lines),
        forall|text: Seq<char>| #[trigger]
            left_lines.contains(text) <==> right_lines.contains(text),
    ensures
        left == right,
    decreases left.len(),
{
    assert forall|text: Seq<char>| #[trigger] left.contains(text) <==> right.contains(text) by {
        assert(left.contains(text) <==> left_lines.contains(text));
        assert(right.contains(text) <==> right_lines.contains(text));
    }
    if left.len() == 0 {
        if right.len() > 0 {
            assert(right.contains(right[0]));
            assert(left.contains(right[0]));
        }
        assert(left =~= right);
    } else {
        assert(left.contains(left.last()));
        assert(right.contains(left.last()));
        assert(right.contains(right.last()));
        assert(left.contains(right.last()));
        let k = right.index_of(left.last());
        let m = left.index_of(right.last());
        let (x, y) = (encode_utf8(left.last()), encode_utf8(right.last()));
        lemma_text_bytes(x, y, x);
        if left.last() != right.last() {
            assert(bytes_less(encode_utf8(right[k]), encode_utf8(right[right.len() - 1])));
            assert(bytes_less(encode_utf8(left[m]), encode_utf8(left[left.len() - 1])));
        }
        assert(left.last() == right.last());
        let (l, r) = (left.drop_last(), right.drop_last());
        assert forall|text: Seq<char>| #[trigger] l.contains(text) <==> r.contains(text) by {
            lemma_text_bytes(x, x, x);
            lemma_text_bytes(y, y, y);
            if l.contains(text) {
                let n = l.index_of(text);
                assert(left[n] == text);
                assert(bytes_less(encode_utf8(left[n]), encode_utf8(left[left.len() - 1])));
                assert(left.contains(text));
                let o = right.index_of(text);
                assert(o < right.len() - 1);
                assert(r[o] == text);
            }
            if r.contains(text) {
                let n = r.index_of(text);
                assert(right[n] == text);
                assert(bytes_less(encode_utf8(right[n]), encode_utf8(right[right.len() - 1])));
                assert(right.contains(text));
                assert(right_lines.contains(text) && left_lines.contains(text));
                assert(left.contains(text));
                let o = left.index_of(text);
                assert(left[o] == text);
                assert(o < left.len() - 1);
                assert(l[o] == text);
            }
        }
        lemma_canonical_form_is_determined(l, l, r, r);
        assert(left =~= l.push(left.last()));
        assert(right =~= r.push(right.last()));
    }
}

/// The order, repetition and spacing of a printed list of root commits do not matter: two outputs with
/// the same lines give the same probe.
pub proof fn lemma_root_order_does_not_matter(
    left: Seq<u8>,
    left_text: String,
    right: Seq<u8>,
    right_text: String,
)
    requires
        probe_of_output(left, RootCommitProbe::Commit(left_text)),
        probe_of_output(right, RootCommitProbe::Commit(right_text)),
        forall|line: Seq<char>| #[trigger]
            filled_lines(lossy_chars(left)).contains(line) <==> filled_lines(
                lossy_chars(right),
            ).contains(line),
    ensures
        left_text@ == right_text@,
{
    let left_lines = filled_lines(lossy_chars(left));
    let right_lines = filled_lines(lossy_chars(right));
    let a = choose|roots: Seq<Seq<char>>| #[trigger]
        is_canonical(roots, left_lines) && left_text@ == joined_texts(roots, '\n');
    let b = choose|roots: Seq<Seq<char>>| #[trigger]
        is_canonical(roots, right_lines) && right_text@ == joined_texts(roots, '\n');
    lemma_canonical_form_is_determined(a, left_lines, b, right_lines);
}

/// The exit code as it is reported: a number, or none.
pub open spec fn code_text(code: Option<i32>) -> Seq<char> {
    match code {
        Some(code) => "Some("@ + signed_text(code) + ")"@,
        None => "None"@,
    }
}

/// What a failed probe was about.
pub open spec fn failed_probe(code: Option<i32>, stderr: Seq<char>, probe: RootCommitProbe) -> bool {
    if text_contains(stderr, "not a git repository"@) {
        probe is NotARepo
    } else if text_contains(stderr, "unknown revision"@) || text_contains(
        stderr,
        "bad revision"@,
    ) || text_contains(stderr, "ambiguous argument 'HEAD'"@) {
        probe is NoCommit
    } else {
        probe matches RootCommitProbe::Transient(detail) && detail@ == "exit "@ + code_text(code)
            + ": "@ + first_chars(trimmed(stderr), 200)
    }
}

/// Tells what a failed probe was about from what it printed.
pub fn classify_failed_probe(code: Option<i32>, stderr: &[u8]) -> (probe: RootCommitProbe)
    ensures
        failed_probe(code, lossy_chars(stderr@), probe),
{
    let text = lossy_text(stderr);
    if contains_text(text.as_str(), "not a git repository") {
        return RootCommitProbe::NotARepo;
    }
    if contains_text(text.as_str(), "unknown revision") || contains_text(
        text.as_str(),
        "bad revision",
    ) || contains_text(text.as_str(), "ambiguous argument 'HEAD'") {
        return RootCommitProbe::NoCommit;
    }
    let mut detail: String = "exit ".to_owned();
    match code {
        Some(code) => {
            append_text(&mut detail, "Some(");
            append_number(&mut detail, code);
            append_text(&mut detail, ")");
        },
        None => {
            append_text(&mut detail, "None");
        },
    }
    append_text(&mut detail, ": ");
    let message = trim_text(text.as_str());
    let front = take_chars(message.as_str(), 200);
    append_text(&mut detail, front.as_str());
    proof {
        assert(detail@ =~= "exit "@ + code_text(code) + ": "@ + first_chars(
            trimmed(lossy_chars(stderr@)),
            200,
        ));
    }
    RootCommitProbe::Transient(detail)
}

/// What to do after a probe.
#[derive(Debug)]
pub enum ProbeStep {
    Done(RootCommitResolution),
    /// Wait so many milliseconds, and probe again.
    Retry(u64),
}

/// Three attempts are made; the wait grows from one to the next.
pub open spec fn probe_step(
    attempt: u32,
    cancelled: bool,
    probe: RootCommitProbe,
    step: ProbeStep,
) -> bool {
    if cancelled {
        step == ProbeStep::Done(RootCommitResolution::Cancelled)
    } else {
        match probe {
            RootCommitProbe::Commit(commit) => step matches ProbeStep::Done(
                RootCommitResolution::Commit(text),
            ) && text@ == commit@,
            RootCommitProbe::NotARepo => step == ProbeStep::Done(RootCommitResolution::NotARepo),
            RootCommitProbe::NoCommit => step == ProbeStep::Done(RootCommitResolution::NotARepo),
            RootCommitProbe::Transient(detail) => if attempt >= 2 {
                step matches ProbeStep::Done(RootCommitResolution::Failed(text)) && text@
                    == detail@
            } else {
                step == ProbeStep::Retry((50 * (attempt + 1)) as u64)
            },
        }
    }
}

/// What to do after attempt number `attempt` (counted from zero). `cancelled` says that the work was
/// called off meanwhile.
pub fn next_probe_step(attempt: u32, cancelled: bool, probe: RootCommitProbe) -> (step: ProbeStep)
    ensures
        probe_step(attempt, cancelled, probe, step),
{
    if cancelled {
        return ProbeStep::Done(RootCommitResolution::Cancelled);
    }
    match probe {
        RootCommitProbe::Commit(commit) => ProbeStep::Done(RootCommitResolution::Commit(commit)),
        RootCommitProbe::NotARepo => ProbeStep::Done(RootCommitResolution::NotARepo),
        RootCommitProbe::NoCommit => ProbeStep::Done(RootCommitResolution::NotARepo),
        RootCommitProbe::Transient(detail) => {
            if attempt >= 2 {
                ProbeStep::Done(RootCommitResolution::Failed(detail))
            } else {
                ProbeStep::Retry(50 * (attempt as u64 + 1))
            }
        },
    }
}

/// What a command printed, as text without the space around it; nothing where it printed no text.
pub fn git_answer(stdout: Vec<u8>) -> (answer: Option<String>)
    ensures
        match answer {
            Some(text) => valid_utf8(stdout@) && text@ == trimmed(decode_utf8(stdout@)) && text@.len()
                > 0,
            None => !valid_utf8(stdout@) || trimmed(decode_utf8(stdout@)).len() == 0,
        },
{
    match utf8_text(stdout) {
        Some(text) => {
            let answer = trim_text(text.as_str());
            let chars = chars_of(answer.as_str());
            if chars.len() == 0 {
                None
            } else {
                Some(answer)
            }
        },
        None => None,
    }
}

// ---------------------------------------------------------------------------------------------
// Keys
// ---------------------------------------------------------------------------------------------

/// The first sixteen hexadecimal digits of the digest.
pub open spec fn key_of(bytes: Seq<u8>) -> Seq<char> {
    hex_text(sha256(bytes).take(8))
}

/// The key of an identity.
pub fn artifact_hash16(bytes: &[u8]) -> (key: String)
    ensures
        key@ == key_of(bytes@),
        key@.len() == 16,
        is_key_text(key@),
{
    let digest = digest_bytes(bytes);
    let key = to_hex(&digest, 8);
    proof {
        lemma_hex_text(digest@.take(8));
    }
    key
}

/// Sixteen hexadecimal digits.
pub open spec fn is_key_text(text: Seq<char>) -> bool {
    text.len() == 16 && forall|i: int| 0 <= i < text.len() ==> is_hex_digit(#[trigger] text[i])
}

pub open spec fn is_hex_digit(c: char) -> bool {
    '0' <= c <= '9' || 'a' <= c <= 'f' || 'A' <= c <= 'F'
}

/// The key of a repository.
pub fn artifact_key_from_git_identity(root_commit: &str) -> (key: String)
    ensures
        key@ == key_of(encode_utf8(root_commit@)),
        is_key_text(key@),
{
    artifact_hash16(root_commit.as_bytes())
}

/// The bytes that a place is known by: those of its path as it is shown.
pub open spec fn path_identity(root: PathKey, canonical: Option<PathKey>, separator: u8) -> Seq<
    u8,
> {
    encode_utf8(shown_path(resolved_root(root, canonical), separator))
}

/// The key of a place. `canonical` is its canonical form, where there is one, and `separator` stands
/// between the components of a path that is shown.
pub fn artifact_key_from_path_identity(
    project_root: &SearchPath,
    canonical: Option<SearchPath>,
    separator: u8,
) -> (key: String)
    ensures
        key@ == key_of(path_identity(project_root@, path_option(canonical), separator)),
        is_key_text(key@),
{
    let root = canonicalize_or_normalize(project_root, canonical);
    let text = root.shown(separator);
    artifact_hash16(text.as_str().as_bytes())
}

/// The key of a project: that of its repository where that is known, else that of its place.
pub open spec fn project_key(
    resolution: RootCommitResolution,
    root: PathKey,
    canonical: Option<PathKey>,
    separator: u8,
) -> Seq<char> {
    match resolution {
        RootCommitResolution::Commit(commit) => key_of(encode_utf8(commit@)),
        _ => key_of(path_identity(root, canonical, separator)),
    }
}

/// The key of a project: that of its repository where that is known, else that of its place.
pub fn artifact_cache_key(
    project_root: &SearchPath,
    canonical: Option<SearchPath>,
    resolution: &RootCommitResolution,
    separator: u8,
) -> (key: String)
    ensures
        key@ == project_key(*resolution, project_root@, path_option(canonical), separator),
        is_key_text(key@),
{
    match resolution {
        RootCommitResolution::Commit(commit) => artifact_key_from_git_identity(commit.as_str()),
        _ => artifact_key_from_path_identity(project_root, canonical, separator),
    }
}

pub fn artifact_key_looks_valid(key: &str) -> (valid: bool)
    ensures
        valid == is_key_text(key@),
{
    let chars = chars_of(key);
    if chars.len() != 16 {
        return false;
    }
    let mut i: usize = 0;
    while i < chars.len()
        invariant
            chars@ == key@,
            i <= chars@.len(),
            forall|k: int| 0 <= k < i ==> is_hex_digit(#[trigger] key@[k]),
        decreases chars@.len() - i,
    {
        let c: char = chars[i];
        let digit: bool = ('0' <= c && c <= '9') || ('a' <= c && c <= 'f') || ('A' <= c && c
            <= 'F');
        if !digit {
            assert(!is_hex_digit(key@[i as int]));
            return false;
        }
        i += 1;
    }
    true
}

// ---------------------------------------------------------------------------------------------
// Keys with a memo
// ---------------------------------------------------------------------------------------------

/// Whether a place looks like a repository.
#[derive(Debug)]
pub enum GitMarkerState {
    Present,
    Absent,
    Unknown(String),
}

/// What looking for the marker of a repository gave.
#[derive(Debug)]
pub enum MarkerProbe {
    Found,
    NotFound,
    Error(String),
}

pub open spec fn marker_error(marker: PathKey, error: Seq<char>, separator: u8) -> Seq<char> {
    "failed to inspect git marker "@ + shown_path(marker, separator) + ": "@ + error
}

/// Whether a place looks like a repository. One whose repository directory is known does.
pub fn root_git_marker_state(
    git_marker: &SearchPath,
    has_common_dir: bool,
    probe: &MarkerProbe,
    separator: u8,
) -> (state: GitMarkerState)
    ensures
        match *probe {
            _ if has_common_dir => state is Present,
            MarkerProbe::Found => state is Present,
            MarkerProbe::NotFound => state is Absent,
            MarkerProbe::Error(error) => state matches GitMarkerState::Unknown(text) && text@
                == marker_error(git_marker@, error@, separator),
        },
{
    if has_common_dir {
        return GitMarkerState::Present;
    }
    match probe {
        MarkerProbe::Found => GitMarkerState::Present,
        MarkerProbe::NotFound => GitMarkerState::Absent,
        MarkerProbe::Error(error) => {
            let mut text: String = "failed to inspect git marker ".to_owned();
            let name = git_marker.shown(separator);
            append_text(&mut text, name.as_str());
            append_text(&mut text, ": ");
            append_text(&mut text, error.as_str());
            GitMarkerState::Unknown(text)
        },
    }
}

/// A key could not be had.
#[derive(Clone, Debug)]
pub struct ArtifactCacheKeyProbeError {
    pub root: SearchPath,
    pub detail: String,
}

impl ArtifactCacheKeyProbeError {
    pub fn root(&self) -> (root: &SearchPath)
        ensures
            root@ == self.root@,
    {
        &self.root
    }

    pub fn detail(&self) -> (detail: &str)
        ensures
            detail@ == self.detail@,
    {
        self.detail.as_str()
    }

    /// The error in words. `separator` stands between the components of a path that is shown.
    pub fn message(&self, separator: u8) -> (text: String)
        ensures
            text@ == "artifact cache key probe failed for "@ + shown_path(self.root@, separator)
                + ": "@ + self.detail@,
    {
        let mut text: String = "artifact cache key probe failed for ".to_owned();
        let name = self.root.shown(separator);
        append_text(&mut text, name.as_str());
        append_text(&mut text, ": ");
        append_text(&mut text, self.detail.as_str());
        text
    }
}

/// A key, and whether it came from root commits that are to be remembered.
#[derive(Debug)]
pub struct KeyDecision {
    pub key: Result<String, ArtifactCacheKeyProbeError>,
    pub remember: bool,
}

pub open spec fn key_result(result: Result<String, ArtifactCacheKeyProbeError>) -> Result<
    Seq<char>,
    (PathKey, Seq<char>),
> {
    match result {
        Ok(key) => Ok(key@),
        Err(error) => Err((error.root@, error.detail@)),
    }
}

/// Where a place is no repository it is its own identity. Else its root commits decide; while they
/// cannot be had the key that was remembered, and without one there is an error: a key by place would
/// give two checkouts of one repository different keys.
pub open spec fn memo_key(
    probe_root: PathKey,
    canonical: Option<PathKey>,
    memo_root: PathKey,
    marker: GitMarkerState,
    resolution: RootCommitResolution,
    memo: Option<Seq<char>>,
    separator: u8,
) -> Result<Seq<char>, (PathKey, Seq<char>)> {
    let by_place = Ok(key_of(path_identity(probe_root, canonical, separator)));
    if marker is Absent {
        by_place
    } else {
        match resolution {
            RootCommitResolution::Commit(commit) => Ok(key_of(encode_utf8(commit@))),
            RootCommitResolution::NotARepo => by_place,
            RootCommitResolution::Failed(detail) => match memo {
                Some(key) => Ok(key),
                None => match marker {
                    GitMarkerState::Unknown(marker_detail) => Err(
                        (memo_root, detail@ + "; "@ + marker_detail@),
                    ),
                    _ => Err((memo_root, detail@)),
                },
            },
            RootCommitResolution::Cancelled => Err(
                (memo_root, "artifact cache key probe cancelled"@),
            ),
        }
    }
}

/// The key of a project, with what was remembered of it. Where the marker says that the place is no
/// repository the resolution does not matter.
pub fn artifact_cache_key_with_memo(
    probe_root: &SearchPath,
    canonical: Option<SearchPath>,
    memo_root: &SearchPath,
    marker: &GitMarkerState,
    resolution: &RootCommitResolution,
    memo: Option<String>,
    separator: u8,
) -> (decision: KeyDecision)
    ensures
        key_result(decision.key) == memo_key(
            probe_root@,
            path_option(canonical),
            memo_root@,
            *marker,
            *resolution,
            match memo {
                Some(key) => Some(key@),
                None => None,
            },
            separator,
        ),
        decision.remember == (!(marker is Absent) && resolution is Commit),
{
    if matches!(marker, GitMarkerState::Absent) {
        return KeyDecision {
            key: Ok(artifact_key_from_path_identity(probe_root, canonical, separator)),
            remember: false,
        };
    }
    match resolution {
        RootCommitResolution::Commit(commit) => KeyDecision {
            key: Ok(artifact_key_from_git_identity(commit.as_str())),
            remember: true,
        },
        RootCommitResolution::NotARepo => KeyDecision {
            key: Ok(artifact_key_from_path_identity(probe_root, canonical, separator)),
            remember: false,
        },
        RootCommitResolution::Failed(detail) => {
            if let Some(key) = memo {
                return KeyDecision { key: Ok(key), remember: false };
            }
            let mut text = detail.clone();
            if let GitMarkerState::Unknown(marker_detail) = marker {
                append_text(&mut text, "; ");
                append_text(&mut text, marker_detail.as_str());
            }
            KeyDecision {
                key: Err(
                    ArtifactCacheKeyProbeError { root: memo_root.duplicate(), detail: text },
                ),
                remember: false,
            }
        },
        RootCommitResolution::Cancelled => KeyDecision {
            key: Err(
                ArtifactCacheKeyProbeError {
                    root: memo_root.duplicate(),
                    detail: "artifact cache key probe cancelled".to_owned(),
                },
            ),
            remember: false,
        },
    }
}

/// A remembered key.
#[derive(Clone, Debug)]
pub struct ArtifactCacheKeyMemoEntry {
    pub key: String,
    pub git_root_commit: String,
    pub recorded_at_ms: u64,
}

/// An entry that may be used.
pub open spec fn memo_usable(root: Seq<char>, entry: ArtifactCacheKeyMemoEntry) -> bool {
    root.len() > 0 && is_key_text(entry.key@) && trimmed(entry.git_root_commit@).len() > 0
}

pub fn memo_entry_usable(root: &str, entry: &ArtifactCacheKeyMemoEntry) -> (usable: bool)
    ensures
        usable == memo_usable(root@, *entry),
{
    let chars = chars_of(root);
    let commit = trim_text(entry.git_root_commit.as_str());
    let commit_chars = chars_of(commit.as_str());
    chars.len() > 0 && artifact_key_looks_valid(entry.key.as_str()) && commit_chars.len() > 0
}

/// A key has to be written down: it is not remembered as it is.
pub fn memo_needs_update(
    entry: Option<&ArtifactCacheKeyMemoEntry>,
    key: &String,
    git_root_commit: &String,
) -> (needed: bool)
    ensures
        needed == !(entry matches Some(entry) && entry.key@ == key@ && entry.git_root_commit@
            == git_root_commit@),
{
    match entry {
        Some(entry) => !(entry.key == *key && entry.git_root_commit == *git_root_commit),
        None => true,
    }
}

/// The text under which a root is remembered.
pub fn artifact_cache_key_memo_root_key(root: &SearchPath, separator: u8) -> (key: String)
    ensures
        key@ == shown_path(root@, separator),
{
    root.shown(separator)
}

/// A path with two more steps.
pub open spec fn index_dir(base: PathKey, key: Seq<char>) -> PathKey {
    joined(joined(base, path_parts(encode_utf8("index"@))), path_parts(encode_utf8(key)))
}

/// Where the cache of a project is kept: below the directory that the environment names, else below
/// the storage directory, else below the default one.
pub fn resolve_cache_dir_with_key(
    project_key: &str,
    override_dir: Option<SearchPath>,
    storage_dir: Option<SearchPath>,
    default_dir: SearchPath,
) -> (dir: SearchPath)
    ensures
        dir@ == index_dir(
            if override_dir is Some {
                override_dir->0@
            } else if storage_dir is Some {
                storage_dir->0@
            } else {
                default_dir@
            },
            project_key@,
        ),
{
    let base = match override_dir {
        Some(dir) => dir,
        None => match storage_dir {
            Some(dir) => dir,
            None => default_dir,
        },
    };
    let index = base.join(&parse_path("index".as_bytes()));
    index.join(&parse_path(project_key.as_bytes()))
}

} // verus!
