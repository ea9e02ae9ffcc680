//! Calls into other crates and into parts of the standard library, with what is relied on.

use crate::file_entry::ContentHash;
use crate::query::node_views;
use crate::query::NodeShape;
use crate::query::RegexNode;
use regex_syntax::hir::HirKind::Alternation;
use regex_syntax::hir::HirKind::Capture;
use regex_syntax::hir::HirKind::Class;
use regex_syntax::hir::HirKind::Concat;
use regex_syntax::hir::HirKind::Empty;
use regex_syntax::hir::HirKind::Literal;
use regex_syntax::hir::HirKind::Look;
use regex_syntax::hir::HirKind::Repetition;
use vstd::prelude::*;
use vstd::utf8::decode_utf8;
use vstd::utf8::valid_utf8;

verus! {

/// The syntax tree of a regular expression, or nothing where it is not one.
pub uninterp spec fn parsed_regex(pattern: Seq<char>) -> Option<Seq<NodeShape>>;

/// `regex_syntax::parse` on `pattern`, with the tree that it gives written node by node: the tree
/// depends on the pattern alone.
#[verifier::external_body]
pub(crate) fn parse_regex(pattern: &str) -> (nodes: Option<Vec<RegexNode>>)
    ensures
        match nodes {
            Some(nodes) => parsed_regex(pattern@) == Some(node_views(nodes@)),
            None => parsed_regex(pattern@) is None,
        },
{
    let hir = regex_syntax::parse(pattern).ok()?;
    let (mut open, mut nodes) = (vec![&hir], Vec::new());
    while let Some(node) = open.pop() {
        nodes.push(match node.kind() {
            Empty => RegexNode::Empty,
            Class(_) => RegexNode::Class,
            Look(_) => RegexNode::Look,
            Literal(literal) => RegexNode::Literal(literal.0.to_vec()),
            Capture(_) => RegexNode::Capture,
            Repetition(repetition) => RegexNode::Repetition { min: repetition.min },
            Concat(parts) => RegexNode::Concat { parts: parts.len() },
            Alternation(parts) => RegexNode::Alternation { parts: parts.len() }});
        open.extend(node.kind().subs());
    }
    Some(nodes)
}

/// What `String::from_utf8_lossy` makes of bytes that are not valid UTF-8.
pub uninterp spec fn utf8_lossy(bytes: Seq<u8>) -> Seq<char>;

/// Bytes as text: decoded where they are valid UTF-8, with replacement characters else.
pub open spec fn lossy_chars(bytes: Seq<u8>) -> Seq<char> {
    if valid_utf8(bytes) {
        decode_utf8(bytes)
    } else {
        utf8_lossy(bytes)
    }
}

/// `String::from_utf8_lossy`: valid UTF-8 is decoded as it is; what replaces invalid bytes depends
/// on the bytes alone.
#[verifier::external_body]
pub(crate) fn lossy_text(bytes: &[u8]) -> (text: String)
    ensures
        text@ == (if valid_utf8(bytes@) {
            decode_utf8(bytes@)
        } else {
            utf8_lossy(bytes@)
        }),
{
    String::from_utf8_lossy(bytes).into_owned()
}

/// `String::from_utf8`: the text, exactly where the bytes are valid UTF-8.
#[verifier::external_body]
pub(crate) fn utf8_text(bytes: Vec<u8>) -> (text: Option<String>)
    ensures
        match text {
            Some(text) => valid_utf8(bytes@) && text@ == decode_utf8(bytes@),
            None => !valid_utf8(bytes@),
        },
{
    String::from_utf8(bytes).ok()
}

/// `bytes` begin with `prefix`.
pub open spec fn begins_with(bytes: Seq<u8>, prefix: Seq<u8>) -> bool {
    prefix.len() <= bytes.len() && bytes.take(prefix.len() as int) == prefix
}

/// A byte order mark stands in front.
pub open spec fn has_byte_order_mark(content: Seq<u8>) -> bool {
    ||| begins_with(content, seq![0xEFu8, 0xBB, 0xBF])
    ||| begins_with(content, seq![0x00u8, 0x00, 0xFE, 0xFF])
    ||| begins_with(content, seq![0xFFu8, 0xFE, 0x00, 0x00])
    ||| begins_with(content, seq![0xFEu8, 0xFF])
    ||| begins_with(content, seq![0xFFu8, 0xFE])
}

/// Content that is no text: without a byte order mark, and with a zero among its first 1024 bytes
/// or the first bytes of a PDF or PNG file.
pub open spec fn looks_binary(content: Seq<u8>) -> bool {
    !has_byte_order_mark(content) && {
        ||| exists|i: int| 0 <= i < content.len() && i < 1024 && #[trigger] content[i] == 0
        ||| begins_with(content, seq![0x25u8, 0x50, 0x44, 0x46])
        ||| begins_with(content, seq![0x89u8, 0x50, 0x4E, 0x47])
    }
}

/// `content_inspector::inspect` calls the content binary.
#[verifier::external_body]
pub(crate) fn inspect_is_binary(content: &[u8]) -> (binary: bool)
    ensures
        binary == looks_binary(content@),
{
    content_inspector::inspect(content).is_binary()
}

/// `needle` stands in `haystack` at `at`.
pub open spec fn occurs_at(haystack: Seq<u8>, needle: Seq<u8>, at: int) -> bool {
    0 <= at && at + needle.len() <= haystack.len() && haystack.subrange(at, at + needle.len())
        == needle
}

/// `memchr::memmem::find`: where `needle` first stands in `haystack`.
#[verifier::external_body]
pub(crate) fn find_bytes(haystack: &[u8], needle: &[u8]) -> (found: Option<usize>)
    requires
        needle@.len() > 0,
    ensures
        match found {
            Some(at) => occurs_at(haystack@, needle@, at as int) && forall|i: int|
                0 <= i < at ==> !#[trigger] occurs_at(haystack@, needle@, i),
            None => forall|i: int| !#[trigger] occurs_at(haystack@, needle@, i),
        },
{
    memchr::memmem::find(haystack, needle)
}

/// The CRC-32 checksum of bytes.
pub uninterp spec fn crc32(bytes: Seq<u8>) -> u32;

/// `crc32fast::hash`: the checksum depends on the bytes alone.
#[verifier::external_body]
pub(crate) fn checksum(bytes: &[u8]) -> (sum: u32)
    ensures
        sum == crc32(bytes@),
{
    crc32fast::hash(bytes)
}

/// `crc32fast::Hasher`: a checksum of bytes that come piece by piece.
#[verifier::external_type_specification]
#[verifier::external_body]
pub struct ExHasher(crc32fast::Hasher);

/// The bytes that a hasher was given, from the first on.
pub uninterp spec fn crc_fed(hasher: crc32fast::Hasher) -> Seq<u8>;

/// `crc32fast::Hasher::new`: a hasher without bytes.
#[verifier::external_body]
pub(crate) fn crc_hasher() -> (hasher: crc32fast::Hasher)
    ensures
        crc_fed(hasher) == Seq::<u8>::empty(),
{
    crc32fast::Hasher::new()
}

/// `crc32fast::Hasher::update`: the bytes come behind those that were given. A hasher counts its
/// bytes in 64 bits.
#[verifier::external_body]
pub(crate) fn feed_crc(hasher: &mut crc32fast::Hasher, bytes: &[u8])
    requires
        crc_fed(*old(hasher)).len() + bytes@.len() <= u64::MAX,
    ensures
        crc_fed(*final(hasher)) == crc_fed(*old(hasher)) + bytes@,
{
    hasher.update(bytes)
}

/// `crc32fast::Hasher::finalize`: the checksum of the bytes that were given, which is that of
/// `crc32fast::hash` on all of them.
#[verifier::external_body]
pub(crate) fn crc_sum(hasher: &crc32fast::Hasher) -> (sum: u32)
    ensures
        sum == crc32(crc_fed(*hasher)),
{
    hasher.clone().finalize()
}

/// The BLAKE3 hash of bytes.
pub uninterp spec fn blake3_hash(bytes: Seq<u8>) -> Seq<u8>;

/// `blake3::hash`: 32 bytes that depend on the content alone.
#[verifier::external_body]
pub(crate) fn hash_bytes(content: &[u8]) -> (hash: ContentHash)
    ensures
        hash@ == blake3_hash(content@),
{
    ContentHash { bytes: *blake3::hash(content).as_bytes() }
}

// ---------------------------------------------------------------------------------------------
// Globs
// ---------------------------------------------------------------------------------------------

/// `globset::GlobSetBuilder`: globs that were added one by one.
#[verifier::external_type_specification]
#[verifier::external_body]
pub struct ExGlobSetBuilder(globset::GlobSetBuilder);

/// `globset::GlobSet`: globs that are matched together.
#[verifier::external_type_specification]
#[verifier::external_body]
pub struct ExGlobSet(globset::GlobSet);

/// The globs that a builder holds.
pub uninterp spec fn globs_added(builder: globset::GlobSetBuilder) -> Seq<Seq<char>>;

/// The globs that a set holds.
pub uninterp spec fn globs_held(set: globset::GlobSet) -> Seq<Seq<char>>;

/// The paths without a backslash that a set matches.
pub uninterp spec fn paths_matched(set: globset::GlobSet) -> Set<Seq<char>>;

/// What is wrong with a glob, if anything.
pub uninterp spec fn glob_error(pattern: Seq<char>) -> Option<Seq<char>>;

/// The glob matches the path.
pub uninterp spec fn glob_accepts(pattern: Seq<char>, path: Seq<char>) -> bool;

/// No backslash in the text. What a backslash means to a glob differs between platforms.
pub open spec fn no_backslash(text: Seq<char>) -> bool {
    !text.contains('\\')
}

pub open spec fn no_backslashes(texts: Seq<Seq<char>>) -> bool {
    forall|i: int| 0 <= i < texts.len() ==> no_backslash(#[trigger] texts[i])
}

/// `globset::GlobSetBuilder::new`: a builder without globs.
#[verifier::external_body]
pub(crate) fn glob_builder() -> (builder: globset::GlobSetBuilder)
    ensures
        globs_added(builder) == Seq::<Seq<char>>::empty(),
{
    globset::GlobSetBuilder::new()
}

/// `globset::Glob::new` and `globset::GlobSetBuilder::add`: a valid glob is added behind the others;
/// of any other the error's text is given. Whether a glob without a backslash is valid depends on
/// its text alone; of one with a backslash nothing more is said.
#[verifier::external_body]
pub(crate) fn add_glob(builder: &mut globset::GlobSetBuilder, pattern: &str) -> (result: Result<
    (),
    String,
>)
    ensures
        match result {
            Ok(()) => globs_added(*final(builder)) == globs_added(*old(builder)).push(pattern@)
                && (no_backslash(pattern@) ==> glob_error(pattern@) is None),
            Err(text) => globs_added(*final(builder)) == globs_added(*old(builder)) && (
            no_backslash(pattern@) ==> glob_error(pattern@) == Some(text@)),
        },
{
    builder.add(globset::Glob::new(pattern).map_err(|error| error.to_string())?);
    Ok(())
}

/// `globset::GlobSetBuilder::build`: the set of the globs that were added. Whether they can be put
/// together is left open, and so is the error's text: a limit on the size in memory has a say, and
/// that size differs between machines.
#[verifier::external_body]
pub(crate) fn build_glob_set(builder: &globset::GlobSetBuilder) -> (result: Result<
    globset::GlobSet,
    String,
>)
    ensures
        result matches Ok(set) ==> globs_held(set) == globs_added(*builder),
{
    builder.build().map_err(|error| error.to_string())
}

/// `globset::GlobSet::is_match`: a path without a backslash is matched or not, by the set alone. Where
/// no glob of the set holds a backslash, it is matched where some glob of the set matches it. Nothing
/// is said of a path with a backslash.
#[verifier::external_body]
pub(crate) fn glob_set_matches(set: &globset::GlobSet, path: &str) -> (found: bool)
    ensures
        no_backslash(path@) ==> found == paths_matched(*set).contains(path@),
        (no_backslashes(globs_held(*set)) && no_backslash(path@)) ==> found == (exists|i: int|
            0 <= i && i < globs_held(*set).len() && glob_accepts(
                #[trigger] globs_held(*set)[i],
                path@,
            )),
{
    set.is_match(path)
}

// ---------------------------------------------------------------------------------------------
// Regular expressions
// ---------------------------------------------------------------------------------------------

/// Where a regular expression matches, one match after the other without overlap.
pub uninterp spec fn regex_ranges(
    pattern: Seq<char>,
    case_insensitive: bool,
    content: Seq<u8>,
) -> Seq<(usize, usize)>;

/// `regex::bytes::Regex`: a regular expression that was compiled.
#[verifier::external_type_specification]
#[verifier::external_body]
pub struct ExRegex(regex::bytes::Regex);

/// The pattern and the case flag that a regular expression was compiled from. Any other flag counts as
/// written in front of the pattern, where the syntax has a place for it.
pub uninterp spec fn regex_source(regex: regex::bytes::Regex) -> (Seq<char>, bool);

/// `regex::bytes::RegexBuilder::build`: the regular expression of the pattern and the flag. Whether
/// it can be compiled is left open: a limit on its size in memory has a say, and that size differs
/// between machines.
#[verifier::external_body]
pub(crate) fn compile_regex(pattern: &str, case_insensitive: bool) -> (compiled: Option<
    regex::bytes::Regex,
>)
    ensures
        compiled is Some ==> regex_source(compiled->0) == (pattern@, case_insensitive),
{
    regex::bytes::RegexBuilder::new(pattern).case_insensitive(case_insensitive).build().ok()
}

/// `regex::bytes::Regex::find_iter`: start and end of each match. They depend on the regular
/// expression and the content alone, lie within the content, and come from left to right: no match
/// begins before the end of an earlier one, or where an earlier one began.
#[verifier::external_body]
pub(crate) fn find_regex(compiled: &regex::bytes::Regex, content: &[u8]) -> (found: Vec<
    (usize, usize),
>)
    ensures
        found@ == regex_ranges(
            regex_source(*compiled).0,
            regex_source(*compiled).1,
            content@,
        ),
        forall|i: int|
            0 <= i && i < found@.len() ==> {
                let range = #[trigger] found@[i];
                range.0 <= range.1 && range.1 <= content@.len()
            },
        forall|i: int, j: int|
            0 <= i && i < j && j < found@.len() ==> {
                let (left, right) = (#[trigger] found@[i], #[trigger] found@[j]);
                left.1 <= right.0 && left.0 < right.0
            },
{
    compiled.find_iter(content).map(|found| (found.start(), found.end())).collect()
}

// ---------------------------------------------------------------------------------------------
// Texts and digests
// ---------------------------------------------------------------------------------------------

/// `String::push`: the character behind the text.
#[verifier::external_body]
pub(crate) fn push_char(text: &mut String, c: char)
    ensures
        final(text)@ == old(text)@.push(c),
{
    text.push(c)
}

/// The SHA-256 digest of bytes.
pub uninterp spec fn sha256(bytes: Seq<u8>) -> Seq<u8>;

/// `sha2::Sha256::digest`: 32 bytes that depend on the input alone.
#[verifier::external_body]
pub(crate) fn digest_bytes(bytes: &[u8]) -> (digest: Vec<u8>)
    ensures
        digest@ == sha256(bytes@),
        digest@.len() == 32,
{
    <sha2::Sha256 as sha2::Digest>::digest(bytes).to_vec()
}

} // verus!
