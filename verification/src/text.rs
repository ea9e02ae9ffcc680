//! Operations on texts as sequences of characters.

use crate::order::TotalOrder;
use crate::outside::push_char;
use crate::path::bytes_less;
use crate::path::lemma_bytes_order;
use crate::path::relate_bytes;
use crate::path::Relation;
use vstd::prelude::*;
use vstd::std_specs::iter::IteratorSpec;
use vstd::utf8::encode_utf8;

verus! {

/// White space in the sense of Unicode.
pub open spec fn is_white(c: char) -> bool {
    ||| '\u{9}' <= c <= '\u{d}'
    ||| c == ' '
    ||| c == '\u{85}'
    ||| c == '\u{a0}'
    ||| c == '\u{1680}'
    ||| '\u{2000}' <= c <= '\u{200a}'
    ||| c == '\u{2028}'
    ||| c == '\u{2029}'
    ||| c == '\u{202f}'
    ||| c == '\u{205f}'
    ||| c == '\u{3000}'
}

pub fn is_white_space(c: char) -> (white: bool)
    ensures
        white == is_white(c),
{
    ('\u{9}' <= c && c <= '\u{d}') || c == ' ' || c == '\u{85}' || c == '\u{a0}' || c == '\u{1680}'
        || ('\u{2000}' <= c && c <= '\u{200a}') || c == '\u{2028}' || c == '\u{2029}' || c
        == '\u{202f}' || c == '\u{205f}' || c == '\u{3000}'
}

/// The characters of a text.
pub fn chars_of(text: &str) -> (chars: Vec<char>)
    ensures
        chars@ == text@,
{
    broadcast use vstd::string::axiom_spec_iter;

    let mut chars: Vec<char> = Vec::new();
    let iter = text.chars();
    let ghost all = iter.remaining();
    for c in it: iter
        invariant
            it.seq() == all,
            chars@ == all.take(it.index() as int),
    {
        chars.push(c);
        assert(chars@ =~= all.take(it.index() + 1));
    }
    assert(chars@ =~= all);
    chars
}

/// The text of characters `start` to `end`.
pub fn text_of(chars: &Vec<char>, start: usize, end: usize) -> (text: String)
    requires
        start <= end <= chars@.len(),
    ensures
        text@ == chars@.subrange(start as int, end as int),
{
    let mut text = String::new();
    let mut i: usize = start;
    assert(text@ =~= chars@.subrange(start as int, start as int));
    while i < end
        invariant
            start <= i <= end <= chars@.len(),
            text@ == chars@.subrange(start as int, i as int),
        decreases end - i,
    {
        push_char(&mut text, chars[i]);
        i += 1;
        assert(text@ =~= chars@.subrange(start as int, i as int));
    }
    text
}

// ---------------------------------------------------------------------------------------------
// Trimming
// ---------------------------------------------------------------------------------------------

pub open spec fn trimmed_front(text: Seq<char>) -> Seq<char>
    decreases text.len(),
{
    if text.len() > 0 && is_white(text[0]) {
        trimmed_front(text.skip(1))
    } else {
        text
    }
}

pub open spec fn trimmed_back(text: Seq<char>) -> Seq<char>
    decreases text.len(),
{
    if text.len() > 0 && is_white(text.last()) {
        trimmed_back(text.drop_last())
    } else {
        text
    }
}

/// The text without white space at its ends.
pub open spec fn trimmed(text: Seq<char>) -> Seq<char> {
    trimmed_back(trimmed_front(text))
}

/// Where the trimmed text of characters `start` to `end` starts and ends.
fn trim_range(chars: &Vec<char>, start: usize, end: usize) -> (range: (usize, usize))
    requires
        start <= end <= chars@.len(),
    ensures
        start <= range.0 <= range.1 <= end,
        chars@.subrange(range.0 as int, range.1 as int) == trimmed(
            chars@.subrange(start as int, end as int),
        ),
{
    let ghost whole = chars@.subrange(start as int, end as int);
    let mut from: usize = start;
    while from < end && is_white_space(chars[from])
        invariant
            start <= from <= end <= chars@.len(),
            trimmed_front(whole) == trimmed_front(chars@.subrange(from as int, end as int)),
        decreases end - from,
    {
        proof {
            let rest = chars@.subrange(from as int, end as int);
            assert(rest[0] == chars@[from as int]);
            assert(rest.skip(1) =~= chars@.subrange(from + 1, end as int));
        }
        from += 1;
    }
    let ghost front = chars@.subrange(from as int, end as int);
    assert(front.len() > 0 ==> front[0] == chars@[from as int]);
    assert(trimmed_front(whole) == front);
    let mut to: usize = end;
    while to > from && is_white_space(chars[to - 1])
        invariant
            start <= from <= to <= end <= chars@.len(),
            trimmed_back(front) == trimmed_back(chars@.subrange(from as int, to as int)),
        decreases to - from,
    {
        proof {
            let rest = chars@.subrange(from as int, to as int);
            assert(rest.last() == chars@[to - 1]);
            assert(rest.drop_last() =~= chars@.subrange(from as int, to - 1));
        }
        to -= 1;
    }
    let ghost back = chars@.subrange(from as int, to as int);
    assert(back.len() > 0 ==> back.last() == chars@[to - 1]);
    (from, to)
}

/// The text without white space at its ends.
pub fn trim_text(text: &str) -> (result: String)
    ensures
        result@ == trimmed(text@),
{
    let chars = chars_of(text);
    let (from, to) = trim_range(&chars, 0, chars.len());
    assert(chars@.subrange(0, chars@.len() as int) =~= chars@);
    text_of(&chars, from, to)
}

// ---------------------------------------------------------------------------------------------
// Splitting
// ---------------------------------------------------------------------------------------------

/// Where the piece that goes on at `from` ends: at the next separator, or at the end of the text.
pub open spec fn piece_end(text: Seq<char>, separator: char, from: int) -> int
    decreases text.len() - from,
{
    if from >= text.len() {
        text.len() as int
    } else if text[from] == separator {
        from
    } else {
        piece_end(text, separator, from + 1)
    }
}

proof fn lemma_piece_end(text: Seq<char>, separator: char, from: int)
    requires
        0 <= from <= text.len(),
    ensures
        from <= piece_end(text, separator, from) <= text.len(),
    decreases text.len() - from,
{
    if from < text.len() && text[from] != separator {
        lemma_piece_end(text, separator, from + 1);
    }
}

/// The pieces of the text from `from` on, cut at every separator.
pub open spec fn pieces_from(text: Seq<char>, separator: char, from: int) -> Seq<Seq<char>>
    decreases text.len() + 1 - from,
    via pieces_from_decreases
{
    if from < 0 || from > text.len() {
        Seq::empty()
    } else {
        let end = piece_end(text, separator, from);
        seq![text.subrange(from, end)] + pieces_from(text, separator, end + 1)
    }
}

#[via_fn]
proof fn pieces_from_decreases(text: Seq<char>, separator: char, from: int) {
    if 0 <= from <= text.len() {
        lemma_piece_end(text, separator, from);
    }
}

/// The pieces of a text, cut at every separator.
pub open spec fn pieces(text: Seq<char>, separator: char) -> Seq<Seq<char>> {
    pieces_from(text, separator, 0)
}

pub open spec fn string_views(texts: Seq<String>) -> Seq<Seq<char>> {
    texts.map_values(|text: String| text@)
}

fn find_piece_end(chars: &Vec<char>, separator: char, from: usize) -> (end: usize)
    requires
        from <= chars@.len(),
    ensures
        end == piece_end(chars@, separator, from as int),
        from <= end <= chars@.len(),
{
    let mut end: usize = from;
    while end < chars.len() && chars[end] != separator
        invariant
            from <= end <= chars@.len(),
            piece_end(chars@, separator, from as int) == piece_end(chars@, separator, end as int),
        decreases chars@.len() - end,
    {
        end += 1;
    }
    end
}

/// The pieces of a text, cut at every separator.
pub fn split_text(text: &str, separator: char) -> (result: Vec<String>)
    ensures
        string_views(result@) == pieces(text@, separator),
{
    let chars = chars_of(text);
    let mut result: Vec<String> = Vec::new();
    let mut at: usize = 0;
    let mut done: bool = false;
    assert(string_views(result@) + pieces_from(chars@, separator, 0) =~= pieces(text@, separator));
    while !done
        invariant
            chars@ == text@,
            done || at <= chars@.len(),
            string_views(result@) + (if done {
                Seq::empty()
            } else {
                pieces_from(chars@, separator, at as int)
            }) == pieces(text@, separator),
        decreases chars@.len() - at + (if done {
                0int
            } else {
                1int
            }),
    {
        let end: usize = find_piece_end(&chars, separator, at);
        let ghost before = string_views(result@);
        let piece = text_of(&chars, at, end);
        let ghost view = piece@;
        result.push(piece);
        proof {
            let rest = pieces_from(chars@, separator, end + 1);
            assert(string_views(result@) =~= before.push(view));
            assert(before + (seq![view] + rest) =~= string_views(result@) + rest);
        }
        if end < chars.len() {
            at = end + 1;
        } else {
            done = true;
            assert(pieces_from(chars@, separator, end + 1) =~= Seq::<Seq<char>>::empty());
        }
    }
    assert(string_views(result@) + Seq::<Seq<char>>::empty() =~= string_views(result@));
    result
}

/// The first `count` pieces, trimmed, as far as anything is left of them.
pub open spec fn kept_pieces(pieces: Seq<Seq<char>>, count: int) -> Seq<Seq<char>>
    decreases count,
{
    if count <= 0 {
        Seq::empty()
    } else {
        let earlier = kept_pieces(pieces, count - 1);
        let piece = trimmed(pieces[count - 1]);
        if piece.len() > 0 {
            earlier.push(piece)
        } else {
            earlier
        }
    }
}

/// The lines of a text, trimmed, without those that are blank.
pub open spec fn filled_lines(text: Seq<char>) -> Seq<Seq<char>> {
    kept_pieces(pieces(text, '\n'), pieces(text, '\n').len() as int)
}

/// The lines of a text, trimmed, without those that are blank.
pub fn read_filled_lines(text: &str) -> (lines: Vec<String>)
    ensures
        string_views(lines@) == filled_lines(text@),
{
    let all = split_text(text, '\n');
    let ghost views = string_views(all@);
    let mut lines: Vec<String> = Vec::new();
    let mut i: usize = 0;
    assert(string_views(lines@) =~= Seq::<Seq<char>>::empty());
    while i < all.len()
        invariant
            views == string_views(all@),
            i <= all@.len(),
            string_views(lines@) == kept_pieces(views, i as int),
        decreases all@.len() - i,
    {
        let line = trim_text(all[i].as_str());
        assert(line@ == trimmed(views[i as int]));
        let chars = chars_of(line.as_str());
        if chars.len() > 0 {
            let ghost before = string_views(lines@);
            let ghost view = line@;
            lines.push(line);
            assert(string_views(lines@) =~= before.push(view));
        }
        i += 1;
    }
    lines
}

/// Texts with a separator between each two.
pub open spec fn joined_texts(texts: Seq<Seq<char>>, separator: char) -> Seq<char>
    decreases texts.len(),
{
    if texts.len() == 0 {
        Seq::empty()
    } else if texts.len() == 1 {
        texts[0]
    } else {
        joined_texts(texts.drop_last(), separator).push(separator) + texts.last()
    }
}

/// Texts with a separator between each two.
pub fn join_texts(texts: &Vec<String>, separator: char) -> (text: String)
    ensures
        text@ == joined_texts(string_views(texts@), separator),
{
    let ghost views = string_views(texts@);
    let mut text = String::new();
    let mut i: usize = 0;
    assert(text@ =~= joined_texts(views.take(0), separator));
    while i < texts.len()
        invariant
            views == string_views(texts@),
            i <= texts@.len(),
            text@ == joined_texts(views.take(i as int), separator),
        decreases texts@.len() - i,
    {
        let ghost before = text@;
        if i > 0 {
            push_char(&mut text, separator);
        }
        append_text(&mut text, texts[i].as_str());
        proof {
            let next = views.take(i + 1);
            assert(next.drop_last() =~= views.take(i as int));
            assert(next.last() == texts@[i as int]@);
            if i == 0 {
                assert(text@ =~= next[0]);
            } else {
                assert(text@ =~= before.push(separator) + next.last());
            }
        }
        i += 1;
    }
    assert(views.take(i as int) =~= views);
    text
}

/// One text behind another.
pub fn append_text(text: &mut String, more: &str)
    ensures
        final(text)@ == old(text)@ + more@,
{
    let chars = chars_of(more);
    let ghost before = text@;
    let mut i: usize = 0;
    assert(before + chars@.take(0) =~= before);
    while i < chars.len()
        invariant
            before == old(text)@,
            chars@ == more@,
            i <= chars@.len(),
            text@ == before + chars@.take(i as int),
        decreases chars@.len() - i,
    {
        push_char(text, chars[i]);
        i += 1;
        assert(text@ =~= before + chars@.take(i as int));
    }
    assert(chars@.take(i as int) =~= chars@);
}

// ---------------------------------------------------------------------------------------------
// Searching and comparing
// ---------------------------------------------------------------------------------------------

/// `part` stands somewhere in `text`.
pub open spec fn text_contains(text: Seq<char>, part: Seq<char>) -> bool {
    exists|at: int|
        0 <= at && at + part.len() <= text.len() && #[trigger] text.subrange(at, at + part.len())
            == part
}

pub fn contains_text(text: &str, part: &str) -> (found: bool)
    ensures
        found == text_contains(text@, part@),
{
    let haystack = chars_of(text);
    let needle = chars_of(part);
    if needle.len() > haystack.len() {
        return false;
    }
    let last: usize = haystack.len() - needle.len();
    let mut at: usize = 0;
    while at <= last
        invariant
            haystack@ == text@,
            needle@ == part@,
            last == haystack@.len() - needle@.len(),
            haystack@.len() == haystack.len(),
            at <= last + 1,
            forall|k: int|
                0 <= k < at ==> #[trigger] text@.subrange(k, k + part@.len()) != part@,
        decreases last + 1 - at,
    {
        let mut i: usize = 0;
        while i < needle.len() && haystack[at + i] == needle[i]
            invariant
                haystack@ == text@,
                needle@ == part@,
                at + needle@.len() <= haystack@.len(),
                haystack@.len() == haystack.len(),
                i <= needle@.len(),
                forall|k: int| 0 <= k < i ==> haystack@[at + k] == #[trigger] needle@[k],
            decreases needle@.len() - i,
        {
            i += 1;
        }
        if i == needle.len() {
            assert(text@.subrange(at as int, at + part@.len()) =~= part@);
            return true;
        }
        assert(text@.subrange(at as int, at + part@.len())[i as int] != part@[i as int]);
        if at == last {
            return false;
        }
        at += 1;
    }
    false
}

/// The first `count` characters of a text, or all of it.
pub open spec fn first_chars(text: Seq<char>, count: int) -> Seq<char> {
    if text.len() <= count {
        text
    } else {
        text.take(count)
    }
}

pub fn take_chars(text: &str, count: usize) -> (front: String)
    ensures
        front@ == first_chars(text@, count as int),
{
    let chars = chars_of(text);
    let end: usize = if chars.len() <= count {
        chars.len()
    } else {
        count
    };
    let front = text_of(&chars, 0, end);
    assert(front@ =~= first_chars(text@, count as int));
    front
}

pub fn starts_with_char(text: &str, c: char) -> (starts: bool)
    ensures
        starts == (text@.len() > 0 && text@[0] == c),
{
    let chars = chars_of(text);
    chars.len() > 0 && chars[0] == c
}

/// A text that is ordered by its bytes.
pub struct TextKey {
    pub text: String,
}

impl TotalOrder for TextKey {
    open spec fn at_most(&self, other: &Self) -> bool {
        !bytes_less(encode_utf8(other.text@), encode_utf8(self.text@))
    }

    proof fn lemma_total(a: &Self, b: &Self) {
        lemma_text_bytes(encode_utf8(a.text@), encode_utf8(b.text@), encode_utf8(b.text@));
    }

    proof fn lemma_transitive(a: &Self, b: &Self, c: &Self) {
        let (x, y, z) = (encode_utf8(a.text@), encode_utf8(b.text@), encode_utf8(c.text@));
        lemma_text_bytes(x, y, z);
        lemma_text_bytes(y, z, x);
        lemma_text_bytes(z, x, y);
    }

    fn is_at_most(&self, other: &Self) -> (result: bool) {
        proof {
            let (x, y) = (encode_utf8(self.text@), encode_utf8(other.text@));
            lemma_text_bytes(x, y, x);
        }
        !matches!(
            relate_bytes(self.text.as_str().as_bytes(), other.text.as_str().as_bytes()),
            Relation::After
        )
    }
}

pub proof fn lemma_text_bytes(a: Seq<u8>, b: Seq<u8>, c: Seq<u8>)
    ensures
        !bytes_less(a, a),
        bytes_less(a, b) || a == b || bytes_less(b, a),
        !(bytes_less(a, b) && bytes_less(b, a)),
        bytes_less(a, b) && bytes_less(b, c) ==> bytes_less(a, c),
{
    lemma_bytes_order();
    let less = |x: Seq<u8>, y: Seq<u8>| bytes_less(x, y);
    assert(!less(a, a));
    assert(less(a, b) || a == b || less(b, a));
    assert(less(a, b) && less(b, a) ==> less(a, a));
    assert(less(a, b) && less(b, c) ==> less(a, c));
}

// ---------------------------------------------------------------------------------------------
// Numbers
// ---------------------------------------------------------------------------------------------

pub open spec fn digit_char(digit: int) -> char {
    if digit == 0 {
        '0'
    } else if digit == 1 {
        '1'
    } else if digit == 2 {
        '2'
    } else if digit == 3 {
        '3'
    } else if digit == 4 {
        '4'
    } else if digit == 5 {
        '5'
    } else if digit == 6 {
        '6'
    } else if digit == 7 {
        '7'
    } else if digit == 8 {
        '8'
    } else if digit == 9 {
        '9'
    } else if digit == 10 {
        'a'
    } else if digit == 11 {
        'b'
    } else if digit == 12 {
        'c'
    } else if digit == 13 {
        'd'
    } else if digit == 14 {
        'e'
    } else {
        'f'
    }
}

pub fn to_digit(digit: u8) -> (c: char)
    requires
        digit < 16,
    ensures
        c == digit_char(digit as int),
{
    match digit {
        0 => '0',
        1 => '1',
        2 => '2',
        3 => '3',
        4 => '4',
        5 => '5',
        6 => '6',
        7 => '7',
        8 => '8',
        9 => '9',
        10 => 'a',
        11 => 'b',
        12 => 'c',
        13 => 'd',
        14 => 'e',
        _ => 'f',
    }
}

/// Bytes in lower-case hexadecimal digits.
pub open spec fn hex_text(bytes: Seq<u8>) -> Seq<char>
    decreases bytes.len(),
{
    if bytes.len() == 0 {
        Seq::empty()
    } else {
        let last = bytes.last() as int;
        hex_text(bytes.drop_last()).push(digit_char(last / 16)).push(digit_char(last % 16))
    }
}

pub open spec fn is_lower_hex_digit(c: char) -> bool {
    '0' <= c <= '9' || 'a' <= c <= 'f'
}

/// Two digits stand for each byte.
pub proof fn lemma_hex_text(bytes: Seq<u8>)
    ensures
        hex_text(bytes).len() == 2 * bytes.len(),
        forall|i: int|
            0 <= i < hex_text(bytes).len() ==> is_lower_hex_digit(#[trigger] hex_text(bytes)[i]),
    decreases bytes.len(),
{
    if bytes.len() > 0 {
        lemma_hex_text(bytes.drop_last());
        let earlier = hex_text(bytes.drop_last());
        let all = hex_text(bytes);
        assert forall|i: int| 0 <= i < all.len() implies is_lower_hex_digit(
            #[trigger] all[i],
        ) by {
            if i < earlier.len() {
                assert(all[i] == earlier[i]);
            }
        }
    }
}

/// The first `count` bytes in lower-case hexadecimal digits.
pub fn to_hex(bytes: &Vec<u8>, count: usize) -> (text: String)
    requires
        count <= bytes@.len(),
    ensures
        text@ == hex_text(bytes@.take(count as int)),
{
    let mut text = String::new();
    let mut i: usize = 0;
    assert(text@ =~= hex_text(bytes@.take(0)));
    while i < count
        invariant
            i <= count <= bytes@.len(),
            text@ == hex_text(bytes@.take(i as int)),
        decreases count - i,
    {
        let byte: u8 = bytes[i];
        push_char(&mut text, to_digit(byte / 16));
        push_char(&mut text, to_digit(byte % 16));
        proof {
            let next = bytes@.take(i + 1);
            assert(next.drop_last() =~= bytes@.take(i as int));
            assert(next.last() == byte);
        }
        i += 1;
    }
    text
}

/// A number in decimal digits.
pub open spec fn decimal_text(value: nat) -> Seq<char>
    decreases value,
{
    if value < 10 {
        seq![digit_char(value as int)]
    } else {
        decimal_text(value / 10).push(digit_char((value % 10) as int))
    }
}

fn push_decimal(text: &mut String, value: u32)
    ensures
        final(text)@ == old(text)@ + decimal_text(value as nat),
    decreases value,
{
    if value >= 10 {
        push_decimal(text, value / 10);
        push_char(text, to_digit((value % 10) as u8));
        assert(text@ =~= old(text)@ + decimal_text(value as nat));
    } else {
        push_char(text, to_digit(value as u8));
        assert(text@ =~= old(text)@ + decimal_text(value as nat));
    }
}

/// A number with its sign.
pub open spec fn signed_text(value: i32) -> Seq<char> {
    if value < 0 {
        seq!['-'] + decimal_text((-(value as int)) as nat)
    } else {
        decimal_text(value as nat)
    }
}

pub fn append_number(text: &mut String, value: i32)
    ensures
        final(text)@ == old(text)@ + signed_text(value),
{
    if value < 0 {
        push_char(text, '-');
        let magnitude: u32 = (-(value as i64)) as u32;
        push_decimal(text, magnitude);
        assert(text@ =~= old(text)@ + signed_text(value));
    } else {
        push_decimal(text, value as u32);
    }
}

/// Texts with the same bytes are the same.
pub proof fn lemma_encoding_is_injective(a: Seq<char>, b: Seq<char>)
    ensures
        encode_utf8(a) == encode_utf8(b) ==> a == b,
{
    broadcast use vstd::utf8::encode_utf8_decode_utf8;

    assert(vstd::utf8::decode_utf8(encode_utf8(a)) == a);
    assert(vstd::utf8::decode_utf8(encode_utf8(b)) == b);
}

pub fn same_text(left: &str, right: &str) -> (same: bool)
    ensures
        same == (left@ == right@),
{
    proof {
        lemma_encoding_is_injective(left@, right@);
    }
    relate_bytes(left.as_bytes(), right.as_bytes()) == Relation::Same
}

/// `text` with every backslash turned into a slash.
pub open spec fn with_slashes(text: Seq<char>) -> Seq<char> {
    text.map_values(
        |c: char|
            if c == '\\' {
                '/'
            } else {
                c
            },
    )
}

pub fn replace_backslashes(text: &str) -> (replaced: String)
    ensures
        replaced@ == with_slashes(text@),
{
    let chars = chars_of(text);
    let mut replaced = String::new();
    let mut i: usize = 0;
    assert(replaced@ =~= with_slashes(text@).take(0));
    while i < chars.len()
        invariant
            chars@ == text@,
            i <= chars@.len(),
            replaced@ == with_slashes(text@).take(i as int),
        decreases chars@.len() - i,
    {
        let c: char = chars[i];
        if c == '\\' {
            push_char(&mut replaced, '/');
        } else {
            push_char(&mut replaced, c);
        }
        i += 1;
        assert(replaced@ =~= with_slashes(text@).take(i as int));
    }
    assert(with_slashes(text@).take(i as int) =~= with_slashes(text@));
    replaced
}

} // verus!
