//! A search misses nothing: every file that holds a match is among the candidates.

use crate::file_entry::SearchFileMetadata;
use crate::index::with_file;
use crate::order::strictly_ascending;
use crate::outside::occurs_at;
use crate::path::PathKey;
use crate::postings::passes_filter;
use crate::postings::Posting;
use crate::postings::PostingReads;
use crate::query::all_run_trigrams;
use crate::query::append_new;
use crate::query::choices_of_all;
use crate::query::choices_of_some;
use crate::query::lists_group;
use crate::query::merged_filter;
use crate::query::no_runs;
use crate::query::pattern_runs;
use crate::query::query_runs;
use crate::query::run_choices;
use crate::query::run_trigrams;
use crate::query::runs_hold;
use crate::query::runs_of_parts;
use crate::query::useful_groups;
use crate::query::QueryRuns;
use crate::query::RegexQuery;
use crate::query::RegexShape;
use crate::snapshot::filter_for;
use crate::snapshot::group_filter;
use crate::snapshot::list_matches;
use crate::snapshot::SnapshotView;
use crate::trigram::filter_map;
use crate::trigram::filter_of;
use crate::trigram::has_trigram;
use crate::trigram::next_at;
use crate::trigram::next_mask_at;
use crate::trigram::next_mask_upto;
use crate::trigram::trigram_at;
use crate::trigram::trigram_positions;
use crate::trigram::PostingFilter;
use vstd::prelude::*;

verus! {

// ---------------------------------------------------------------------------------------------
// What a regular expression matches
// ---------------------------------------------------------------------------------------------

/// `text` may be a match of `shape`. Which characters a class holds is left open: here it may match
/// any text.
pub open spec fn may_match(shape: RegexShape, text: Seq<u8>) -> bool
    decreases shape,
{
    match shape {
        RegexShape::Empty => text.len() == 0,
        RegexShape::Look => text.len() == 0,
        RegexShape::Class => true,
        RegexShape::Literal(bytes) => text == bytes,
        RegexShape::Capture(sub) => may_match(*sub, text),
        RegexShape::Concat(parts) => exists|pieces: Seq<Seq<u8>>| #[trigger]
            pieces.flatten() == text && pieces.len() == parts.len() && forall|i: int|
                0 <= i < parts.len() ==> may_match(#[trigger] parts[i], pieces[i]),
        RegexShape::Alternation(parts) => exists|i: int|
            0 <= i < parts.len() && may_match(#[trigger] parts[i], text),
        RegexShape::Repetition { min, sub } => exists|pieces: Seq<Seq<u8>>| #[trigger]
            pieces.flatten() == text && pieces.len() >= min && forall|i: int|
                0 <= i < pieces.len() ==> may_match(*sub, #[trigger] pieces[i]),
    }
}

/// `run` stands somewhere in `text`.
pub open spec fn occurs(text: Seq<u8>, run: Seq<u8>) -> bool {
    exists|at: int| #[trigger] occurs_at(text, run, at)
}

pub open spec fn one_occurs(text: Seq<u8>, runs: Seq<Seq<u8>>) -> bool {
    exists|i: int| 0 <= i < runs.len() && occurs(text, #[trigger] runs[i])
}

/// `text` holds what `runs` say.
pub open spec fn holds_runs(text: Seq<u8>, runs: QueryRuns) -> bool {
    &&& forall|i: int|
        0 <= i < runs.and_runs.len() ==> occurs(text, #[trigger] runs.and_runs[i])
    &&& forall|i: int|
        0 <= i < runs.or_groups.len() ==> one_occurs(text, #[trigger] runs.or_groups[i])
}

/// What stands in a piece of the text stands in the text.
pub proof fn lemma_occurs_in_whole(text: Seq<u8>, from: int, to: int, run: Seq<u8>)
    requires
        0 <= from <= to <= text.len(),
        occurs(text.subrange(from, to), run),
    ensures
        occurs(text, run),
{
    let piece = text.subrange(from, to);
    let at = choose|at: int| #[trigger] occurs_at(piece, run, at);
    assert(text.subrange(from + at, from + at + run.len()) =~= piece.subrange(at, at + run.len()));
    assert(occurs_at(text, run, from + at));
}

proof fn lemma_one_occurs_in_whole(text: Seq<u8>, from: int, to: int, runs: Seq<Seq<u8>>)
    requires
        0 <= from <= to <= text.len(),
        one_occurs(text.subrange(from, to), runs),
    ensures
        one_occurs(text, runs),
{
    let i = choose|i: int|
        0 <= i < runs.len() && occurs(text.subrange(from, to), #[trigger] runs[i]);
    lemma_occurs_in_whole(text, from, to, runs[i]);
}

pub(crate) proof fn lemma_holds_runs_in_whole(text: Seq<u8>, from: int, to: int, runs: QueryRuns)
    requires
        0 <= from <= to <= text.len(),
        holds_runs(text.subrange(from, to), runs),
    ensures
        holds_runs(text, runs),
{
    assert forall|i: int| 0 <= i < runs.and_runs.len() implies occurs(
        text,
        #[trigger] runs.and_runs[i],
    ) by {
        lemma_occurs_in_whole(text, from, to, runs.and_runs[i]);
    }
    assert forall|i: int| 0 <= i < runs.or_groups.len() implies one_occurs(
        text,
        #[trigger] runs.or_groups[i],
    ) by {
        lemma_one_occurs_in_whole(text, from, to, runs.or_groups[i]);
    }
}

proof fn lemma_occurs_in_itself(text: Seq<u8>)
    ensures
        occurs(text, text),
{
    assert(text.subrange(0, text.len() as int) =~= text);
    assert(occurs_at(text, text, 0));
}

proof fn lemma_one_occurs_left(text: Seq<u8>, left: Seq<Seq<u8>>, right: Seq<Seq<u8>>)
    requires
        one_occurs(text, left) || one_occurs(text, right),
    ensures
        one_occurs(text, left + right),
{
    if one_occurs(text, left) {
        let i = choose|i: int| 0 <= i < left.len() && occurs(text, #[trigger] left[i]);
        assert((left + right)[i] == left[i]);
    } else {
        let i = choose|i: int| 0 <= i < right.len() && occurs(text, #[trigger] right[i]);
        assert((left + right)[left.len() + i] == right[i]);
    }
}

/// Each piece stands somewhere in the whole.
proof fn lemma_piece_in_whole(pieces: Seq<Seq<u8>>, i: int) -> (from: int)
    requires
        0 <= i < pieces.len(),
    ensures
        0 <= from,
        from + pieces[i].len() <= pieces.flatten().len(),
        pieces.flatten().subrange(from, from + pieces[i].len()) == pieces[i],
    decreases pieces.len(),
{
    let first = pieces.first();
    let rest = pieces.drop_first();
    assert(pieces.flatten() == first + rest.flatten());
    if i == 0 {
        assert(pieces.flatten().subrange(0, first.len() as int) =~= first);
        0
    } else {
        let inner = lemma_piece_in_whole(rest, i - 1);
        assert(rest[i - 1] == pieces[i]);
        let from = first.len() + inner;
        assert(pieces.flatten().subrange(from, from + pieces[i].len()) =~= rest.flatten().subrange(
            inner,
            inner + pieces[i].len(),
        ));
        from
    }
}

/// Every match holds one of the run choices.
pub proof fn lemma_matches_hold_a_choice(shape: RegexShape, text: Seq<u8>)
    requires
        may_match(shape, text),
        run_choices(shape) is Some,
    ensures
        one_occurs(text, run_choices(shape)->0),
    decreases shape, 0nat,
{
    match shape {
        RegexShape::Empty => {},
        RegexShape::Look => {},
        RegexShape::Class => {},
        RegexShape::Literal(bytes) => {
            lemma_occurs_in_itself(text);
            assert(run_choices(shape)->0[0] == bytes);
        },
        RegexShape::Capture(sub) => {
            lemma_matches_hold_a_choice(*sub, text);
        },
        RegexShape::Concat(parts) => {
            let pieces = choose|pieces: Seq<Seq<u8>>| #[trigger]
                pieces.flatten() == text && pieces.len() == parts.len() && forall|i: int|
                    0 <= i < parts.len() ==> may_match(#[trigger] parts[i], pieces[i]);
            lemma_parts_hold_a_choice(parts, pieces, parts.len());
        },
        RegexShape::Alternation(parts) => {
            let i = choose|i: int| 0 <= i < parts.len() && may_match(#[trigger] parts[i], text);
            lemma_alternatives_hold_a_choice(parts, i, parts.len(), text);
        },
        RegexShape::Repetition { min, sub } => {
            let pieces = choose|pieces: Seq<Seq<u8>>| #[trigger]
                pieces.flatten() == text && pieces.len() >= min && forall|i: int|
                    0 <= i < pieces.len() ==> may_match(*sub, #[trigger] pieces[i]);
            lemma_matches_hold_a_choice(*sub, pieces[0]);
            let from = lemma_piece_in_whole(pieces, 0);
            lemma_one_occurs_in_whole(
                text,
                from,
                from + pieces[0].len(),
                run_choices(*sub)->0,
            );
        },
    }
}

proof fn lemma_parts_hold_a_choice(parts: Seq<RegexShape>, pieces: Seq<Seq<u8>>, count: nat)
    requires
        count <= parts.len(),
        pieces.len() == parts.len(),
        forall|i: int| 0 <= i < parts.len() ==> may_match(#[trigger] parts[i], pieces[i]),
        choices_of_some(parts, count).len() > 0,
    ensures
        one_occurs(pieces.flatten(), choices_of_some(parts, count)),
    decreases parts, count,
{
    if count > 0 {
        let text = pieces.flatten();
        let earlier = choices_of_some(parts, (count - 1) as nat);
        assert(may_match(parts[count - 1], pieces[count - 1]));
        match run_choices(parts[count - 1]) {
            Some(runs) => {
                lemma_matches_hold_a_choice(parts[count - 1], pieces[count - 1]);
                let from = lemma_piece_in_whole(pieces, count - 1);
                lemma_one_occurs_in_whole(text, from, from + pieces[count - 1].len(), runs);
                lemma_one_occurs_left(text, earlier, runs);
            },
            None => {
                lemma_parts_hold_a_choice(parts, pieces, (count - 1) as nat);
            },
        }
    }
}

proof fn lemma_alternatives_hold_a_choice(
    parts: Seq<RegexShape>,
    chosen: int,
    count: nat,
    text: Seq<u8>,
)
    requires
        0 <= chosen < count <= parts.len(),
        may_match(parts[chosen], text),
        choices_of_all(parts, count) is Some,
    ensures
        one_occurs(text, choices_of_all(parts, count)->0),
    decreases parts, count,
{
    let earlier = choices_of_all(parts, (count - 1) as nat)->0;
    let runs = run_choices(parts[count - 1])->0;
    if chosen < count - 1 {
        lemma_alternatives_hold_a_choice(parts, chosen, (count - 1) as nat, text);
    } else {
        lemma_matches_hold_a_choice(parts[count - 1], text);
    }
    lemma_one_occurs_left(text, earlier, runs);
}

/// Every match holds what the query asks for.
pub proof fn lemma_matches_hold_runs(shape: RegexShape, text: Seq<u8>)
    requires
        may_match(shape, text),
    ensures
        holds_runs(text, query_runs(shape)),
    decreases shape, 0nat,
{
    match shape {
        RegexShape::Empty => {},
        RegexShape::Look => {},
        RegexShape::Class => {},
        RegexShape::Literal(bytes) => {
            lemma_occurs_in_itself(text);
        },
        RegexShape::Capture(sub) => {
            lemma_matches_hold_runs(*sub, text);
        },
        RegexShape::Concat(parts) => {
            let pieces = choose|pieces: Seq<Seq<u8>>| #[trigger]
                pieces.flatten() == text && pieces.len() == parts.len() && forall|i: int|
                    0 <= i < parts.len() ==> may_match(#[trigger] parts[i], pieces[i]);
            lemma_parts_hold_runs(parts, pieces, parts.len());
        },
        RegexShape::Alternation(parts) => {
            if choices_of_all(parts, parts.len()) is Some {
                let i = choose|i: int|
                    0 <= i < parts.len() && may_match(#[trigger] parts[i], text);
                lemma_alternatives_hold_a_choice(parts, i, parts.len(), text);
            }
        },
        RegexShape::Repetition { min, sub } => {
            if min > 0 {
                let pieces = choose|pieces: Seq<Seq<u8>>| #[trigger]
                    pieces.flatten() == text && pieces.len() >= min && forall|i: int|
                        0 <= i < pieces.len() ==> may_match(*sub, #[trigger] pieces[i]);
                lemma_matches_hold_runs(*sub, pieces[0]);
                let from = lemma_piece_in_whole(pieces, 0);
                lemma_holds_runs_in_whole(text, from, from + pieces[0].len(), query_runs(*sub));
            }
        },
    }
}

proof fn lemma_parts_hold_runs(parts: Seq<RegexShape>, pieces: Seq<Seq<u8>>, count: nat)
    requires
        count <= parts.len(),
        pieces.len() == parts.len(),
        forall|i: int| 0 <= i < parts.len() ==> may_match(#[trigger] parts[i], pieces[i]),
    ensures
        holds_runs(pieces.flatten(), runs_of_parts(parts, count)),
    decreases parts, count,
{
    if count > 0 {
        let text = pieces.flatten();
        let part = query_runs(parts[count - 1]);
        assert(may_match(parts[count - 1], pieces[count - 1]));
        lemma_parts_hold_runs(parts, pieces, (count - 1) as nat);
        lemma_matches_hold_runs(parts[count - 1], pieces[count - 1]);
        let from = lemma_piece_in_whole(pieces, count - 1);
        lemma_holds_runs_in_whole(text, from, from + pieces[count - 1].len(), part);
    }
}

// ---------------------------------------------------------------------------------------------
// Masks
// ---------------------------------------------------------------------------------------------

/// Every bit of `small` is a bit of `large`.
pub open spec fn mask_within(small: u8, large: u8) -> bool {
    small & large == small
}

proof fn lemma_mask_union(a: u8, b: u8, c: u8)
    ensures
        mask_within(a, a | b),
        mask_within(b, a | b),
        mask_within(0, a),
        mask_within(a, c) && mask_within(b, c) ==> mask_within(a | b, c),
        mask_within(a, b) && mask_within(b, c) ==> mask_within(a, c),
        mask_within(a, b) && mask_within(a, c) && a != 0 ==> b & c != 0,
        a | b != 0 ==> a != 0 || b != 0,
        a != 0 ==> a | b != 0,
{
    assert(a & (a | b) == a) by (bit_vector);
    assert(b & (a | b) == b) by (bit_vector);
    assert(0u8 & a == 0) by (bit_vector);
    assert(a & c == a && b & c == b ==> (a | b) & c == (a | b)) by (bit_vector);
    assert(a & b == a && b & c == b ==> a & c == a) by (bit_vector);
    assert(a & b == a && a & c == a && a != 0 ==> b & c != 0) by (bit_vector);
    assert(a | b != 0 ==> a != 0 || b != 0) by (bit_vector);
    assert(a != 0 ==> a | b != 0) by (bit_vector);
}

proof fn lemma_position_within_union(
    content: Seq<u8>,
    trigram: u32,
    include_eof: bool,
    position: int,
    count: int,
)
    requires
        0 <= position < count,
    ensures
        mask_within(
            next_mask_at(content, trigram, include_eof, position),
            next_mask_upto(content, trigram, include_eof, count),
        ),
    decreases count,
{
    let earlier = next_mask_upto(content, trigram, include_eof, count - 1);
    let here = next_mask_at(content, trigram, include_eof, count - 1);
    let mask = next_mask_at(content, trigram, include_eof, position);
    lemma_mask_union(earlier, here, 0);
    if position < count - 1 {
        lemma_position_within_union(content, trigram, include_eof, position, count - 1);
        lemma_mask_union(mask, earlier, earlier | here);
    }
}

/// The bytes that follow a trigram in a run follow it in every text that holds the run.
proof fn lemma_run_mask_within_content(
    content: Seq<u8>,
    run: Seq<u8>,
    at: int,
    trigram: u32,
    count: int,
)
    requires
        occurs_at(content, run, at),
        0 <= count <= trigram_positions(run),
    ensures
        mask_within(
            next_mask_upto(run, trigram, false, count),
            filter_of(content, trigram, true).next_mask,
        ),
    decreases count,
{
    let whole = filter_of(content, trigram, true).next_mask;
    lemma_mask_union(whole, 0, 0);
    if count > 0 {
        let p = count - 1;
        lemma_run_mask_within_content(content, run, at, trigram, p);
        let here = next_mask_at(run, trigram, false, p);
        let earlier = next_mask_upto(run, trigram, false, p);
        let piece = content.subrange(at, at + run.len());
        assert(piece[p] == content[at + p]);
        assert(piece[p + 1] == content[at + p + 1]);
        assert(piece[p + 2] == content[at + p + 2]);
        assert(trigram_at(run, p) == trigram_at(content, at + p));
        if here != 0 {
            if p + 3 < run.len() {
                assert(piece[p + 3] == content[at + p + 3]);
            }
            assert(next_at(run, p) == next_at(content, at + p));
            assert(here == next_mask_at(content, trigram, true, at + p));
            lemma_position_within_union(
                content,
                trigram,
                true,
                at + p,
                trigram_positions(content),
            );
        }
        lemma_mask_union(earlier, here, whole);
    }
}

proof fn lemma_run_trigrams_in_content(content: Seq<u8>, run: Seq<u8>, trigram: u32)
    requires
        occurs(content, run),
        has_trigram(run, trigram),
    ensures
        has_trigram(content, trigram),
        mask_within(
            filter_of(run, trigram, false).next_mask,
            filter_of(content, trigram, true).next_mask,
        ),
{
    let at = choose|at: int| #[trigger] occurs_at(content, run, at);
    let p = choose|p: int|
        0 <= p < trigram_positions(run) && #[trigger] trigram_at(run, p) == trigram;
    let piece = content.subrange(at, at + run.len());
    assert(piece[p] == content[at + p]);
    assert(piece[p + 1] == content[at + p + 1]);
    assert(piece[p + 2] == content[at + p + 2]);
    assert(trigram_at(content, at + p) == trigram);
    lemma_run_mask_within_content(content, run, at, trigram, trigram_positions(run));
}

proof fn lemma_merged_mask(runs: Seq<Seq<u8>>, trigram: u32)
    ensures
        forall|i: int|
            0 <= i < runs.len() && has_trigram(#[trigger] runs[i], trigram) ==> mask_within(
                filter_of(runs[i], trigram, false).next_mask,
                merged_filter(runs, trigram).next_mask,
            ),
        merged_filter(runs, trigram).next_mask != 0 ==> exists|i: int|
            0 <= i < runs.len() && has_trigram(#[trigger] runs[i], trigram) && filter_of(
                runs[i],
                trigram,
                false,
            ).next_mask != 0,
    decreases runs.len(),
{
    if runs.len() > 0 {
        let prev = runs.drop_last();
        let last = runs.last();
        lemma_merged_mask(prev, trigram);
        assert(last == runs[runs.len() - 1]);
        let earlier = merged_filter(prev, trigram).next_mask;
        let here = filter_of(last, trigram, false).next_mask;
        let merged = merged_filter(runs, trigram).next_mask;
        lemma_mask_union(earlier, here, 0);
        assert forall|i: int|
            0 <= i < runs.len() && has_trigram(#[trigger] runs[i], trigram) implies mask_within(
            filter_of(runs[i], trigram, false).next_mask,
            merged,
        ) by {
            if i < prev.len() {
                assert(prev[i] == runs[i]);
                lemma_mask_union(filter_of(runs[i], trigram, false).next_mask, earlier, merged);
            }
        }
        if merged != 0 {
            if has_trigram(last, trigram) && here != 0 {
                assert(has_trigram(runs[runs.len() - 1], trigram));
            } else {
                assert(earlier != 0);
                let i = choose|i: int|
                    0 <= i < prev.len() && has_trigram(#[trigger] prev[i], trigram) && filter_of(
                        prev[i],
                        trigram,
                        false,
                    ).next_mask != 0;
                assert(runs[i] == prev[i]);
            }
        }
    }
}

// ---------------------------------------------------------------------------------------------
// Candidates
// ---------------------------------------------------------------------------------------------

/// A posting of `file_id` with the masks of `content`.
pub open spec fn list_describes(
    postings: Seq<Posting>,
    file_id: u32,
    trigram: u32,
    content: Seq<u8>,
) -> bool {
    exists|i: int|
        0 <= i < postings.len() && (#[trigger] postings[i]).file_id == file_id
            && postings[i].next_mask == filter_of(content, trigram, true).next_mask
}

/// The index knows the file by `content`: it counts, a path leads to it, and each trigram of the
/// content has a posting with the content's masks.
pub open spec fn describes(
    view: SnapshotView,
    reads: PostingReads,
    file_id: u32,
    content: Seq<u8>,
) -> bool {
    &&& view.active(file_id)
    &&& view.listed(file_id)
    &&& forall|trigram: u32| #[trigger]
        has_trigram(content, trigram) ==> list_describes(
            reads.base_list(view.base, trigram),
            file_id,
            trigram,
            content,
        ) || list_describes(view.list(trigram), file_id, trigram, content)
}

/// One of the trigrams of `run` gets past the filter of its group on `content`.
pub open spec fn visible_in(runs: Seq<Seq<u8>>, run: Seq<u8>, content: Seq<u8>) -> bool {
    exists|trigram: u32| #[trigger]
        has_trigram(run, trigram) && (merged_filter(runs, trigram).next_mask == 0 || merged_filter(
            runs,
            trigram,
        ).next_mask & filter_of(content, trigram, true).next_mask != 0)
}

/// In each group some run that the content holds gets past the filter of the group.
pub open spec fn groups_visible(groups: Seq<Seq<Seq<u8>>>, content: Seq<u8>) -> bool {
    forall|g: int|
        0 <= g < groups.len() ==> exists|i: int|
            0 <= i < (#[trigger] groups[g]).len() && occurs(content, groups[g][i]) && visible_in(
                groups[g],
                groups[g][i],
                content,
            )
}

/// A run that names the byte behind its first trigram is visible wherever it occurs. The run is
/// longer than one trigram and its fourth byte is not zero.
pub proof fn lemma_longer_runs_are_visible(runs: Seq<Seq<u8>>, i: int, content: Seq<u8>)
    requires
        0 <= i < runs.len(),
        runs[i].len() > 3,
        runs[i][3] != 0,
        occurs(content, runs[i]),
    ensures
        visible_in(runs, runs[i], content),
{
    let run = runs[i];
    let t = trigram_at(run, 0);
    assert(has_trigram(run, t));
    lemma_run_trigrams_in_content(content, run, t);
    lemma_merged_mask(runs, t);
    let own = filter_of(run, t, false).next_mask;
    let file = filter_of(content, t, true).next_mask;
    let merged = merged_filter(runs, t).next_mask;
    lemma_position_within_union(run, t, false, 0, trigram_positions(run));
    let bit = next_mask_at(run, t, false, 0);
    lemma_single_bit(((crate::trigram::lowercase(run[3]) * 31) % 8) as u8);
    assert(bit != 0);
    lemma_mask_union(bit, own, own);
    assert(own != 0) by {
        assert(bit & own == bit);
        assert(own == 0 ==> bit & own == 0) by (bit_vector);
    }
    lemma_mask_union(own, merged, file);
}

proof fn lemma_single_bit(bit: u8)
    requires
        bit < 8,
    ensures
        1u8 << bit != 0,
{
    assert(bit < 8 ==> 1u8 << bit != 0) by (bit_vector);
}

/// In a group whose runs say nothing of following bytes every run is visible.
pub proof fn lemma_bare_groups_are_visible(runs: Seq<Seq<u8>>, i: int, content: Seq<u8>)
    requires
        0 <= i < runs.len(),
        runs[i].len() >= 3,
        forall|k: int| 0 <= k < runs.len() ==> (#[trigger] runs[k]).len() <= 3,
    ensures
        visible_in(runs, runs[i], content),
{
    let run = runs[i];
    let t = trigram_at(run, 0);
    assert(has_trigram(run, t));
    lemma_merged_mask(runs, t);
    if merged_filter(runs, t).next_mask != 0 {
        let k = choose|k: int|
            0 <= k < runs.len() && has_trigram(#[trigger] runs[k], t) && filter_of(
                runs[k],
                t,
                false,
            ).next_mask != 0;
        reveal_with_fuel(next_mask_upto, 2);
        assert(0u8 | 0u8 == 0u8) by (bit_vector);
        assert(next_at(runs[k], 0) == 0);
    }
}

proof fn lemma_described_posting(
    view: SnapshotView,
    reads: PostingReads,
    file_id: u32,
    content: Seq<u8>,
    trigram: u32,
    filter: Option<PostingFilter>,
)
    requires
        describes(view, reads, file_id, content),
        has_trigram(content, trigram),
        filter matches Some(f) ==> f.next_mask == 0 || filter_of(
            content,
            trigram,
            true,
        ).next_mask & f.next_mask != 0,
    ensures
        view.has_posting(reads, trigram, filter, file_id),
{
    let base = reads.base_list(view.base, trigram);
    let delta = view.list(trigram);
    if list_describes(base, file_id, trigram, content) {
        let i = choose|i: int|
            0 <= i < base.len() && (#[trigger] base[i]).file_id == file_id && base[i].next_mask
                == filter_of(content, trigram, true).next_mask;
        assert(passes_filter(base[i], filter));
        assert(list_matches(base, filter, file_id));
    } else {
        let i = choose|i: int|
            0 <= i < delta.len() && (#[trigger] delta[i]).file_id == file_id && delta[i].next_mask
                == filter_of(content, trigram, true).next_mask;
        assert(passes_filter(delta[i], filter));
        assert(list_matches(delta, filter, file_id));
    }
}

proof fn lemma_all_run_trigrams_members(runs: Seq<Seq<u8>>, trigram: u32)
    ensures
        all_run_trigrams(runs).contains(trigram) ==> runs_hold(runs, trigram),
    decreases runs.len(),
{
    if runs.len() > 0 {
        let prev = runs.drop_last();
        lemma_all_run_trigrams_members(prev, trigram);
        crate::query::lemma_append_new_members(
            all_run_trigrams(prev),
            run_trigrams(runs.last()),
            trigram,
        );
        if all_run_trigrams(prev).contains(trigram) {
            let i = choose|i: int|
                0 <= i < prev.len() && has_trigram(#[trigger] prev[i], trigram);
            assert(has_trigram(runs[i], trigram));
        } else if run_trigrams(runs.last()).contains(trigram) {
            crate::query::lemma_run_trigrams_exist(runs.last());
            assert(has_trigram(runs[runs.len() - 1], trigram));
        }
    }
}

proof fn lemma_useful_groups_are_groups(groups: Seq<Seq<Seq<u8>>>)
    ensures
        forall|i: int|
            0 <= i < useful_groups(groups).len() ==> groups.contains(
                #[trigger] useful_groups(groups)[i],
            ),
    decreases groups.len(),
{
    if groups.len() > 0 {
        let prev = groups.drop_last();
        lemma_useful_groups_are_groups(prev);
        let useful = useful_groups(groups);
        let earlier = useful_groups(prev);
        assert forall|i: int| 0 <= i < useful.len() implies groups.contains(
            #[trigger] useful[i],
        ) by {
            if i < earlier.len() {
                assert(useful[i] == earlier[i]);
                let k = prev.index_of(earlier[i]);
                assert(groups[k] == earlier[i]);
            } else {
                assert(groups[groups.len() - 1] == groups.last());
            }
        }
    }
}

/// A file that holds what the query asks for is a candidate, provided that in each group some run
/// that the file holds gets past the group's filter.
pub proof fn lemma_holders_are_candidates(
    view: SnapshotView,
    reads: PostingReads,
    query: RegexQuery,
    runs: QueryRuns,
    file_id: u32,
    content: Seq<u8>,
)
    requires
        describes(view, reads, file_id, content),
        query.asks_for(runs),
        holds_runs(content, runs),
        groups_visible(runs.or_groups, content),
    ensures
        view.is_candidate(reads, query, file_id),
{
    let groups = useful_groups(runs.or_groups);
    assert(view.has_all(reads, query, file_id)) by {
        assert forall|i: int| 0 <= i < query.and_trigrams@.len() implies view.has_posting(
            reads,
            #[trigger] query.and_trigrams@[i],
            filter_for(query.and_filters@, query.and_trigrams@[i]),
            file_id,
        ) by {
            let t = query.and_trigrams@[i];
            assert(all_run_trigrams(runs.and_runs).contains(t));
            lemma_all_run_trigrams_members(runs.and_runs, t);
            let k = choose|k: int|
                0 <= k < runs.and_runs.len() && has_trigram(#[trigger] runs.and_runs[k], t);
            lemma_run_trigrams_in_content(content, runs.and_runs[k], t);
            assert(query.and_filters@.contains_key(t));
            lemma_merged_mask(runs.and_runs, t);
            let merged = merged_filter(runs.and_runs, t).next_mask;
            let file = filter_of(content, t, true).next_mask;
            if merged != 0 {
                let m = choose|m: int|
                    0 <= m < runs.and_runs.len() && has_trigram(#[trigger] runs.and_runs[m], t)
                        && filter_of(runs.and_runs[m], t, false).next_mask != 0;
                let own = filter_of(runs.and_runs[m], t, false).next_mask;
                lemma_run_trigrams_in_content(content, runs.and_runs[m], t);
                lemma_mask_union(own, file, merged);
            }
            lemma_described_posting(
                view,
                reads,
                file_id,
                content,
                t,
                filter_for(query.and_filters@, t),
            );
        }
    }
    assert forall|g: int| 0 <= g < query.or_groups@.len() implies #[trigger] view.has_one_of(
        reads,
        query,
        g,
        file_id,
    ) by {
        lemma_useful_groups_are_groups(runs.or_groups);
        let group = groups[g];
        assert(runs.or_groups.contains(group));
        let o = runs.or_groups.index_of(group);
        assert(runs.or_groups[o] == group);
        let i = choose|i: int|
            0 <= i < group.len() && occurs(content, group[i]) && visible_in(
                group,
                group[i],
                content,
            );
        let run = group[i];
        let t = choose|trigram: u32| #[trigger]
            has_trigram(run, trigram) && (merged_filter(group, trigram).next_mask == 0
                || merged_filter(group, trigram).next_mask & filter_of(
                content,
                trigram,
                true,
            ).next_mask != 0);
        lemma_run_trigrams_in_content(content, run, t);
        assert(runs_hold(group, t)) by {
            assert(has_trigram(group[i], t));
        }
        assert(query.or_groups@[g]@.contains(t));
        let k = query.or_groups@[g]@.index_of(t);
        assert(query.or_filters@[g]@.contains_key(t));
        let merged = merged_filter(group, t).next_mask;
        let file = filter_of(content, t, true).next_mask;
        assert(merged & file == file & merged) by (bit_vector);
        lemma_described_posting(view, reads, file_id, content, t, group_filter(query, g, t));
        assert(view.has_posting(
            reads,
            query.or_groups@[g]@[k],
            group_filter(query, g, query.or_groups@[g]@[k]),
            file_id,
        ));
    }
}

/// A search misses nothing: a file that holds a match of a regular expression is a candidate of its
/// query, provided that in each group of alternatives some run that the file holds gets past the
/// group's filter.
pub proof fn lemma_search_misses_nothing(
    view: SnapshotView,
    reads: PostingReads,
    query: RegexQuery,
    shape: RegexShape,
    file_id: u32,
    content: Seq<u8>,
    from: int,
    to: int,
)
    requires
        describes(view, reads, file_id, content),
        query.asks_for(query_runs(shape)),
        0 <= from <= to <= content.len(),
        may_match(shape, content.subrange(from, to)),
        groups_visible(query_runs(shape).or_groups, content),
    ensures
        view.is_candidate(reads, query, file_id),
{
    lemma_matches_hold_runs(shape, content.subrange(from, to));
    lemma_holds_runs_in_whole(content, from, to, query_runs(shape));
    lemma_holders_are_candidates(view, reads, query, query_runs(shape), file_id, content);
}

// ---------------------------------------------------------------------------------------------
// Patterns without alternatives
// ---------------------------------------------------------------------------------------------

/// No part of the expression offers alternatives.
pub open spec fn without_alternatives(shape: RegexShape) -> bool
    decreases shape,
{
    match shape {
        RegexShape::Capture(sub) => without_alternatives(*sub),
        RegexShape::Concat(parts) => forall|i: int|
            0 <= i < parts.len() ==> without_alternatives(#[trigger] parts[i]),
        RegexShape::Alternation(_) => false,
        RegexShape::Repetition { sub, .. } => without_alternatives(*sub),
        _ => true,
    }
}

/// An expression without alternatives has no groups of them.
pub proof fn lemma_no_alternatives_no_groups(shape: RegexShape)
    requires
        without_alternatives(shape),
    ensures
        query_runs(shape).or_groups.len() == 0,
    decreases shape, 0nat,
{
    match shape {
        RegexShape::Capture(sub) => {
            lemma_no_alternatives_no_groups(*sub);
        },
        RegexShape::Concat(parts) => {
            lemma_parts_have_no_groups(parts, parts.len());
        },
        RegexShape::Repetition { min, sub } => {
            lemma_no_alternatives_no_groups(*sub);
        },
        _ => {},
    }
}

proof fn lemma_parts_have_no_groups(parts: Seq<RegexShape>, count: nat)
    requires
        count <= parts.len(),
        forall|i: int| 0 <= i < parts.len() ==> without_alternatives(#[trigger] parts[i]),
    ensures
        runs_of_parts(parts, count).or_groups.len() == 0,
    decreases parts, count,
{
    if count > 0 {
        lemma_parts_have_no_groups(parts, (count - 1) as nat);
        lemma_no_alternatives_no_groups(parts[count - 1]);
    }
}

/// A search for an expression without alternatives misses nothing: a file that holds a match is a
/// candidate.
pub proof fn lemma_plain_search_misses_nothing(
    view: SnapshotView,
    reads: PostingReads,
    query: RegexQuery,
    shape: RegexShape,
    file_id: u32,
    content: Seq<u8>,
    from: int,
    to: int,
)
    requires
        describes(view, reads, file_id, content),
        query.asks_for(query_runs(shape)),
        without_alternatives(shape),
        0 <= from <= to <= content.len(),
        may_match(shape, content.subrange(from, to)),
    ensures
        view.is_candidate(reads, query, file_id),
{
    lemma_no_alternatives_no_groups(shape);
    lemma_search_misses_nothing(view, reads, query, shape, file_id, content, from, to);
}

// ---------------------------------------------------------------------------------------------
// What a query asks for is in every match
// ---------------------------------------------------------------------------------------------

/// Each run holds a trigram.
spec fn runs_long(runs: Seq<Seq<u8>>) -> bool {
    forall|i: int| 0 <= i < runs.len() ==> (#[trigger] runs[i]).len() >= 3
}

spec fn groups_long(groups: Seq<Seq<Seq<u8>>>) -> bool {
    forall|i: int| 0 <= i < groups.len() ==> runs_long(#[trigger] groups[i])
}

proof fn lemma_choices_are_long(shape: RegexShape)
    ensures
        run_choices(shape) is Some ==> runs_long(run_choices(shape)->0),
    decreases shape, 0nat,
{
    match shape {
        RegexShape::Capture(sub) => {
            lemma_choices_are_long(*sub);
        },
        RegexShape::Concat(parts) => {
            lemma_part_choices_are_long(parts, parts.len());
        },
        RegexShape::Alternation(parts) => {
            lemma_part_choices_are_long(parts, parts.len());
        },
        RegexShape::Repetition { min, sub } => {
            lemma_choices_are_long(*sub);
        },
        _ => {},
    }
}

proof fn lemma_part_choices_are_long(parts: Seq<RegexShape>, count: nat)
    requires
        count <= parts.len(),
    ensures
        runs_long(choices_of_some(parts, count)),
        choices_of_all(parts, count) is Some ==> runs_long(choices_of_all(parts, count)->0),
    decreases parts, count,
{
    if count > 0 {
        lemma_part_choices_are_long(parts, (count - 1) as nat);
        lemma_choices_are_long(parts[count - 1]);
    }
}

proof fn lemma_groups_are_long(shape: RegexShape)
    ensures
        groups_long(query_runs(shape).or_groups),
    decreases shape, 0nat,
{
    match shape {
        RegexShape::Capture(sub) => {
            lemma_groups_are_long(*sub);
        },
        RegexShape::Concat(parts) => {
            lemma_part_groups_are_long(parts, parts.len());
        },
        RegexShape::Alternation(parts) => {
            lemma_part_choices_are_long(parts, parts.len());
        },
        RegexShape::Repetition { min, sub } => {
            lemma_groups_are_long(*sub);
        },
        _ => {},
    }
}

proof fn lemma_part_groups_are_long(parts: Seq<RegexShape>, count: nat)
    requires
        count <= parts.len(),
    ensures
        groups_long(runs_of_parts(parts, count).or_groups),
    decreases parts, count,
{
    if count > 0 {
        lemma_part_groups_are_long(parts, (count - 1) as nat);
        lemma_groups_are_long(parts[count - 1]);
    }
}

proof fn lemma_append_new_is_distinct(list: Seq<u32>, more: Seq<u32>)
    requires
        list.no_duplicates(),
    ensures
        append_new(list, more).no_duplicates(),
    decreases more.len(),
{
    if more.len() > 0 {
        lemma_append_new_is_distinct(list, more.drop_last());
        let earlier = append_new(list, more.drop_last());
        let last = more.last();
        if !earlier.contains(last) {
            let all = earlier.push(last);
            assert forall|i: int, j: int| 0 <= i < all.len() && 0 <= j < all.len() && i
                != j implies all[i] != all[j] by {
                if i < earlier.len() {
                    assert(earlier.contains(earlier[i]));
                }
                if j < earlier.len() {
                    assert(earlier.contains(earlier[j]));
                }
            }
        }
    }
}

proof fn lemma_run_trigrams_are_distinct(runs: Seq<Seq<u8>>)
    ensures
        all_run_trigrams(runs).no_duplicates(),
    decreases runs.len(),
{
    if runs.len() > 0 {
        lemma_run_trigrams_are_distinct(runs.drop_last());
        lemma_append_new_is_distinct(
            all_run_trigrams(runs.drop_last()),
            run_trigrams(runs.last()),
        );
    }
}

/// A query asks for nothing that a match could lack: every trigram that it asks for is one of each
/// text that holds a match, and so is one of every group of alternatives. No trigram is asked for
/// twice, and the groups are not empty and ascend.
pub proof fn lemma_query_asks_for_what_matches_hold(
    query: RegexQuery,
    shape: RegexShape,
    content: Seq<u8>,
    from: int,
    to: int,
)
    requires
        query.asks_for(query_runs(shape)),
        0 <= from <= to <= content.len(),
        may_match(shape, content.subrange(from, to)),
    ensures
        forall|i: int|
            0 <= i < query.and_trigrams@.len() ==> has_trigram(
                content,
                #[trigger] query.and_trigrams@[i],
            ),
        query.and_trigrams@.no_duplicates(),
        forall|g: int|
            0 <= g < query.or_groups@.len() ==> {
                let group = (#[trigger] query.or_groups@[g])@;
                &&& strictly_ascending(group)
                &&& exists|k: int| 0 <= k < group.len() && has_trigram(content, #[trigger] group[k])
            },
{
    let runs = query_runs(shape);
    let groups = useful_groups(runs.or_groups);
    lemma_matches_hold_runs(shape, content.subrange(from, to));
    lemma_holds_runs_in_whole(content, from, to, runs);
    lemma_run_trigrams_are_distinct(runs.and_runs);
    lemma_groups_are_long(shape);
    lemma_useful_groups_are_groups(runs.or_groups);
    assert forall|i: int| 0 <= i < query.and_trigrams@.len() implies has_trigram(
        content,
        #[trigger] query.and_trigrams@[i],
    ) by {
        let t = query.and_trigrams@[i];
        assert(all_run_trigrams(runs.and_runs).contains(t));
        lemma_all_run_trigrams_members(runs.and_runs, t);
        let k = choose|k: int|
            0 <= k < runs.and_runs.len() && has_trigram(#[trigger] runs.and_runs[k], t);
        lemma_run_trigrams_in_content(content, runs.and_runs[k], t);
    }
    assert forall|g: int| 0 <= g < query.or_groups@.len() implies {
        let group = (#[trigger] query.or_groups@[g])@;
        &&& strictly_ascending(group)
        &&& exists|k: int| 0 <= k < group.len() && has_trigram(content, #[trigger] group[k])
    } by {
        let group = query.or_groups@[g]@;
        let choices = groups[g];
        assert(lists_group(group, choices));
        assert(runs.or_groups.contains(choices));
        let o = runs.or_groups.index_of(choices);
        assert(one_occurs(content, runs.or_groups[o]));
        let i = choose|i: int| 0 <= i < choices.len() && occurs(content, #[trigger] choices[i]);
        assert(runs_long(runs.or_groups[o]));
        let run = choices[i];
        let t = trigram_at(run, 0);
        assert(has_trigram(run, t));
        lemma_run_trigrams_in_content(content, run, t);
        assert(runs_hold(choices, t)) by {
            assert(has_trigram(choices[i], t));
        }
        assert(group.contains(t));
        let k = group.index_of(t);
        assert(has_trigram(content, group[k]));
    }
}

/// A text that is no expression restricts nothing.
pub proof fn lemma_no_expression_asks_for_nothing(query: RegexQuery)
    requires
        query.asks_for(pattern_runs(None)),
    ensures
        query.and_trigrams@.len() == 0,
        query.or_groups@.len() == 0,
{
    assert(all_run_trigrams(no_runs().and_runs).len() == 0);
    assert(useful_groups(no_runs().or_groups).len() == 0);
}

/// A file that was just added is known by its content.
pub proof fn lemma_added_file_is_described(
    view: SnapshotView,
    reads: PostingReads,
    path: PathKey,
    metadata: SearchFileMetadata,
    content_hash: Seq<u8>,
    content: Seq<u8>,
)
    requires
        view.files.len() <= u32::MAX,
        path.len() > 0,
        !view.superseded.contains(view.files.len() as u32),
    ensures
        describes(
            with_file(view, path, metadata, content_hash, filter_map(content, true)),
            reads,
            view.files.len() as u32,
            content,
        ),
{
    let id = view.files.len() as u32;
    let after = with_file(view, path, metadata, content_hash, filter_map(content, true));
    assert(after.ids.contains_key(path) && after.ids[path] == id);
    assert forall|t: u32| #[trigger] has_trigram(content, t) implies list_describes(
        after.list(t),
        id,
        t,
        content,
    ) by {
        let list = after.list(t);
        assert(filter_map(content, true).contains_key(t));
        assert(list[list.len() - 1].file_id == id);
    }
}

} // verus!
