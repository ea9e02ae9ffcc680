//! Laws of texts: pieces, lines, the space around a text, numbers and digits.

use crate::text::decimal_text;
use crate::text::filled_lines;
use crate::text::first_chars;
use crate::text::hex_text;
use crate::text::is_white;
use crate::text::joined_texts;
use crate::text::kept_pieces;
use crate::text::piece_end;
use crate::text::pieces;
use crate::text::pieces_from;
use crate::text::signed_text;
use crate::text::text_contains;
use crate::text::trimmed;
use crate::text::trimmed_back;
use crate::text::trimmed_front;
use crate::text::with_slashes;
use vstd::prelude::*;

verus! {

proof fn lemma_piece_ends_at_separator(text: Seq<char>, separator: char, from: int, end: int)
    requires
        0 <= from <= end <= text.len(),
        end == text.len() || text[end] == separator,
        forall|i: int| from <= i < end ==> #[trigger] text[i] != separator,
    ensures
        piece_end(text, separator, from) == end,
    decreases end - from,
{
    if from < end {
        assert(text[from] != separator);
        lemma_piece_ends_at_separator(text, separator, from + 1, end);
    }
}

proof fn lemma_pieces_behind(head: Seq<char>, rest: Seq<char>, separator: char, from: int)
    requires
        0 <= from,
    ensures
        pieces_from(head + rest, separator, head.len() + from) == pieces_from(
            rest,
            separator,
            from,
        ),
    decreases rest.len() + 1 - from,
{
    let text = head + rest;
    if from <= rest.len() {
        lemma_piece_end_behind(head, rest, separator, from);
        let end = piece_end(rest, separator, from);
        assert(from <= end <= rest.len()) by {
            lemma_piece_end_bounds(rest, separator, from);
        }
        lemma_pieces_behind(head, rest, separator, end + 1);
        assert(text.subrange(head.len() + from, head.len() + end) =~= rest.subrange(from, end));
    }
}

proof fn lemma_piece_end_bounds(text: Seq<char>, separator: char, from: int)
    requires
        0 <= from <= text.len(),
    ensures
        from <= piece_end(text, separator, from) <= text.len(),
    decreases text.len() - from,
{
    if from < text.len() && text[from] != separator {
        lemma_piece_end_bounds(text, separator, from + 1);
    }
}

proof fn lemma_piece_end_behind(head: Seq<char>, rest: Seq<char>, separator: char, from: int)
    requires
        0 <= from <= rest.len(),
    ensures
        piece_end(head + rest, separator, head.len() + from) == head.len() + piece_end(
            rest,
            separator,
            from,
        ),
    decreases rest.len() - from,
{
    if from < rest.len() {
        assert((head + rest)[head.len() + from] == rest[from]);
        if rest[from] != separator {
            lemma_piece_end_behind(head, rest, separator, from + 1);
        }
    }
}

/// A text without the separator is one piece. Where it goes on behind a separator, what stands before
/// it is the first piece, and the pieces of the rest come behind.
pub proof fn lemma_texts_are_split_at_separators(
    first: Seq<char>,
    rest: Seq<char>,
    separator: char,
)
    requires
        forall|i: int| 0 <= i < first.len() ==> #[trigger] first[i] != separator,
    ensures
        pieces(first, separator) == seq![first],
        pieces(first + seq![separator] + rest, separator) == seq![first] + pieces(rest, separator),
{
    lemma_piece_ends_at_separator(first, separator, 0, first.len() as int);
    assert(first.subrange(0, first.len() as int) =~= first);
    assert(pieces_from(first, separator, first.len() + 1int) =~= Seq::empty());
    assert(pieces(first, separator) =~= seq![first]);
    let head = first + seq![separator];
    let text = head + rest;
    assert forall|i: int| 0 <= i < first.len() implies #[trigger] text[i] != separator by {
        assert(text[i] == first[i]);
    }
    assert(text[first.len() as int] == separator);
    lemma_piece_ends_at_separator(text, separator, 0, first.len() as int);
    assert(text.subrange(0, first.len() as int) =~= first);
    lemma_pieces_behind(head, rest, separator, 0);
}

/// The space around a text is taken off, and nothing else: a text that neither begins nor ends with
/// white space is what is left of it.
pub proof fn lemma_space_around_a_text_is_taken_off(
    before: Seq<char>,
    text: Seq<char>,
    behind: Seq<char>,
)
    requires
        forall|i: int| 0 <= i < before.len() ==> is_white(#[trigger] before[i]),
        forall|i: int| 0 <= i < behind.len() ==> is_white(#[trigger] behind[i]),
        text.len() > 0 ==> !is_white(text[0]) && !is_white(text.last()),
    ensures
        trimmed(before + text + behind) == text,
{
    lemma_front_is_taken_off(before, text + behind);
    assert(before + text + behind =~= before + (text + behind));
    if text.len() == 0 {
        assert(text + behind =~= behind);
        lemma_front_is_taken_off(behind, Seq::empty());
        assert(behind + Seq::<char>::empty() =~= behind);
        assert(trimmed_front(Seq::<char>::empty()) =~= Seq::empty());
        assert(trimmed_back(Seq::<char>::empty()) =~= text);
    } else {
        assert((text + behind)[0] == text[0]);
        assert(trimmed_front(text + behind) == text + behind);
        lemma_back_is_taken_off(text, behind);
    }
}

proof fn lemma_front_is_taken_off(before: Seq<char>, text: Seq<char>)
    requires
        forall|i: int| 0 <= i < before.len() ==> is_white(#[trigger] before[i]),
    ensures
        trimmed_front(before + text) == trimmed_front(text),
    decreases before.len(),
{
    if before.len() == 0 {
        assert(before + text =~= text);
    } else {
        assert((before + text)[0] == before[0]);
        assert((before + text).skip(1) =~= before.skip(1) + text);
        assert forall|i: int| 0 <= i < before.skip(1).len() implies is_white(
            #[trigger] before.skip(1)[i],
        ) by {
            assert(before.skip(1)[i] == before[i + 1]);
        }
        lemma_front_is_taken_off(before.skip(1), text);
    }
}

proof fn lemma_back_is_taken_off(text: Seq<char>, behind: Seq<char>)
    requires
        forall|i: int| 0 <= i < behind.len() ==> is_white(#[trigger] behind[i]),
        text.len() > 0,
        !is_white(text.last()),
    ensures
        trimmed_back(text + behind) == text,
    decreases behind.len(),
{
    let all = text + behind;
    if behind.len() == 0 {
        assert(all =~= text);
    } else {
        assert(all.last() == behind.last());
        assert(behind.last() == behind[behind.len() - 1]);
        assert(all.drop_last() =~= text + behind.drop_last());
        assert forall|i: int| 0 <= i < behind.drop_last().len() implies is_white(
            #[trigger] behind.drop_last()[i],
        ) by {
            assert(behind.drop_last()[i] == behind[i]);
        }
        lemma_back_is_taken_off(text, behind.drop_last());
    }
}

/// Spaces, tabs and the ends of lines are white space; letters, digits and other ASCII characters
/// are not. Beyond ASCII, white space is what Unicode counts as such.
pub proof fn lemma_what_white_space_is(c: char)
    ensures
        c == ' ' || c == '\t' || c == '\n' || c == '\r' ==> is_white(c),
        '!' <= c <= '~' ==> !is_white(c),
        ({
            let code = c as int;
            is_white(c) <==> 0x9 <= code <= 0xd || 0x2000 <= code <= 0x200a || seq![
                0x20int,
                0x85,
                0xa0,
                0x1680,
                0x2028,
                0x2029,
                0x202f,
                0x205f,
                0x3000,
            ].contains(code)
        }),
{
    let code = c as int;
    let others = seq![0x20int, 0x85, 0xa0, 0x1680, 0x2028, 0x2029, 0x202f, 0x205f, 0x3000];
    assert(others[0] == 0x20 && others[1] == 0x85 && others[2] == 0xa0 && others[3] == 0x1680);
    assert(others[4] == 0x2028 && others[5] == 0x2029 && others[6] == 0x202f);
    assert(others[7] == 0x205f && others[8] == 0x3000);
    if others.contains(code) {
        let i = choose|i: int| 0 <= i < others.len() && others[i] == code;
        assert(i == 0 || i == 1 || i == 2 || i == 3 || i == 4 || i == 5 || i == 6 || i == 7 || i
            == 8);
    }
}

proof fn lemma_kept_pieces_split(first: Seq<char>, more: Seq<Seq<char>>, count: int)
    requires
        0 <= count <= more.len(),
    ensures
        kept_pieces(seq![first] + more, count + 1) == (if trimmed(first).len() > 0 {
            seq![trimmed(first)]
        } else {
            Seq::empty()
        }) + kept_pieces(more, count),
    decreases count,
{
    let all = seq![first] + more;
    let head = if trimmed(first).len() > 0 {
        seq![trimmed(first)]
    } else {
        Seq::empty()
    };
    if count > 0 {
        lemma_kept_pieces_split(first, more, count - 1);
        assert(all[count] == more[count - 1]);
        let earlier = kept_pieces(more, count - 1);
        let piece = trimmed(more[count - 1]);
        if piece.len() > 0 {
            assert((head + earlier).push(piece) =~= head + earlier.push(piece));
        }
    } else {
        assert(all[0] == first);
        assert(kept_pieces(all, 0) =~= Seq::empty());
        assert(kept_pieces(all, 1) =~= head + kept_pieces(more, 0));
    }
}

/// The lines of a text come without the space around them, one after the other, and lines of space
/// alone are left out.
pub proof fn lemma_filled_lines_come_one_by_one(line: Seq<char>, rest: Seq<char>)
    requires
        forall|i: int| 0 <= i < line.len() ==> #[trigger] line[i] != '\n',
    ensures
        filled_lines(line) == (if trimmed(line).len() > 0 {
            seq![trimmed(line)]
        } else {
            Seq::empty()
        }),
        filled_lines(line + seq!['\n'] + rest) == (if trimmed(line).len() > 0 {
            seq![trimmed(line)]
        } else {
            Seq::empty()
        }) + filled_lines(rest),
{
    lemma_texts_are_split_at_separators(line, rest, '\n');
    let none = Seq::<Seq<char>>::empty();
    lemma_kept_pieces_split(line, none, 0);
    assert(seq![line] + none =~= seq![line]);
    assert(kept_pieces(none, 0) =~= none);
    assert(filled_lines(line) =~= (if trimmed(line).len() > 0 {
        seq![trimmed(line)]
    } else {
        Seq::empty()
    }) + none);
    let more = pieces(rest, '\n');
    lemma_kept_pieces_split(line, more, more.len() as int);
}

/// Texts are joined with one separator between each two of them.
pub proof fn lemma_joined_texts_have_separators_between(
    texts: Seq<Seq<char>>,
    last: Seq<char>,
    separator: char,
)
    ensures
        joined_texts(Seq::empty(), separator) == Seq::<char>::empty(),
        joined_texts(seq![last], separator) == last,
        texts.len() > 0 ==> joined_texts(texts.push(last), separator) == joined_texts(
            texts,
            separator,
        ) + seq![separator] + last,
{
    if texts.len() > 0 {
        assert(texts.push(last).drop_last() =~= texts);
        assert(joined_texts(texts, separator).push(separator) + last =~= joined_texts(
            texts,
            separator,
        ) + seq![separator] + last);
    }
}

/// A text contains another where its characters stand in it one after the other.
pub proof fn lemma_texts_contain_what_stands_in_them(
    before: Seq<char>,
    part: Seq<char>,
    behind: Seq<char>,
)
    ensures
        text_contains(before + part + behind, part),
        part.len() > before.len() ==> !text_contains(before, part),
{
    let text = before + part + behind;
    assert(text.subrange(before.len() as int, (before.len() + part.len()) as int) =~= part);
}

/// The front of a text is the whole of a short one, and else its first characters.
pub proof fn lemma_fronts_of_texts(text: Seq<char>, count: int)
    requires
        0 <= count,
    ensures
        text.len() <= count ==> first_chars(text, count) == text,
        text.len() > count ==> first_chars(text, count).len() == count && forall|i: int|
            0 <= i < count ==> #[trigger] first_chars(text, count)[i] == text[i],
{
}

/// Each byte is written with two hexadecimal digits, the higher one first, in small letters.
pub proof fn lemma_bytes_are_written_in_hexadecimal(bytes: Seq<u8>, i: int)
    requires
        0 <= i < bytes.len(),
    ensures
        hex_text(bytes).len() == 2 * bytes.len(),
        is_hex_of(hex_text(bytes)[2 * i], bytes[i] as int / 16),
        is_hex_of(hex_text(bytes)[2 * i + 1], bytes[i] as int % 16),
    decreases bytes.len(),
{
    lemma_hex_len(bytes);
    let front = bytes.drop_last();
    lemma_hex_len(front);
    if i < front.len() {
        lemma_bytes_are_written_in_hexadecimal(front, i);
        assert(front[i] == bytes[i]);
    }
}

/// The character stands for the hexadecimal digit.
pub open spec fn is_hex_of(c: char, digit: int) -> bool {
    if digit < 10 {
        c as int == '0' as int + digit
    } else {
        c as int == 'a' as int + digit - 10
    }
}

proof fn lemma_hex_len(bytes: Seq<u8>)
    ensures
        hex_text(bytes).len() == 2 * bytes.len(),
    decreases bytes.len(),
{
    if bytes.len() > 0 {
        lemma_hex_len(bytes.drop_last());
    }
}

/// The number that decimal digits stand for.
pub open spec fn decimal_value(text: Seq<char>) -> int
    decreases text.len(),
{
    if text.len() == 0 {
        0
    } else {
        10 * decimal_value(text.drop_last()) + (text.last() as int - '0' as int)
    }
}

/// A number is written in decimal digits that stand for it, without zeros in front; a negative one
/// has a sign.
pub proof fn lemma_numbers_are_written_in_decimal(value: nat)
    ensures
        decimal_value(decimal_text(value)) == value,
        decimal_text(value).len() > 0,
        value > 0 ==> decimal_text(value)[0] != '0',
        forall|i: int| 0 <= i < decimal_text(value).len() ==> '0' <= #[trigger] decimal_text(
            value,
        )[i] <= '9',
        forall|number: i32|
            number >= 0 ==> #[trigger] signed_text(number) == decimal_text(number as nat),
        forall|number: i32|
            number < 0 ==> #[trigger] signed_text(number) == seq!['-'] + decimal_text(
                (-(number as int)) as nat,
            ),
    decreases value,
{
    let text = decimal_text(value);
    if value < 10 {
        assert(text.drop_last() =~= Seq::empty());
        reveal_with_fuel(decimal_value, 2);
    } else {
        lemma_numbers_are_written_in_decimal(value / 10);
        let front = decimal_text(value / 10);
        assert(text.drop_last() =~= front);
        assert(text[0] == front[0]);
        assert forall|i: int| 0 <= i < text.len() implies '0' <= #[trigger] text[i] <= '9' by {
            if i < front.len() {
                assert(text[i] == front[i]);
            }
        }
    }
}

/// Backslashes become slashes, and all other characters stay.
pub proof fn lemma_backslashes_become_slashes(text: Seq<char>, i: int)
    requires
        0 <= i < text.len(),
    ensures
        with_slashes(text).len() == text.len(),
        text[i] == '\\' ==> with_slashes(text)[i] == '/',
        text[i] != '\\' ==> with_slashes(text)[i] == text[i],
{
}

} // verus!
