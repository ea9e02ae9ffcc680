//! Laws of queries: which trigrams a pattern asks for.

use crate::lexical_laws::spelled_in;
use crate::outside::parsed_regex;
use crate::query::all_run_trigrams;
use crate::query::choices_of_all;
use crate::query::choices_of_some;
use crate::query::grep_pattern_runs;
use crate::query::lemma_append_new_members;
use crate::query::lemma_run_trigrams_exist;
use crate::query::merged_filter;
use crate::query::query_runs;
use crate::query::run_choices;
use crate::query::run_trigrams;
use crate::query::runs_hold;
use crate::query::runs_of_parts;
use crate::query::shapes_of;
use crate::query::useful_groups;
use crate::query::CompiledPattern;
use crate::query::LiteralSearch;
use crate::query::NodeShape;
use crate::query::RegexQuery;
use crate::query::RegexShape;
use crate::trigram::filter_of;
use crate::trigram::has_trigram;
use crate::trigram::trigram_at;
use crate::trigram::trigram_positions;
use vstd::prelude::*;

verus! {

proof fn lemma_run_holds_what_is_spelled(run: Seq<u8>, trigram: u32)
    ensures
        has_trigram(run, trigram) <==> exists|at: int| #[trigger] spelled_in(run, trigram, at),
{
    if has_trigram(run, trigram) {
        let at = choose|at: int|
            0 <= at < trigram_positions(run) && #[trigger] trigram_at(run, at) == trigram;
        assert(spelled_in(run, trigram, at));
    }
    if exists|at: int| #[trigger] spelled_in(run, trigram, at) {
        let at = choose|at: int| #[trigger] spelled_in(run, trigram, at);
        assert(trigram_at(run, at) == trigram);
    }
}

proof fn lemma_runs_are_asked_for(runs: Seq<Seq<u8>>, trigram: u32)
    ensures
        all_run_trigrams(runs).contains(trigram) <==> runs_hold(runs, trigram),
    decreases runs.len(),
{
    if runs.len() > 0 {
        let prev = runs.drop_last();
        let last = runs.last();
        lemma_runs_are_asked_for(prev, trigram);
        lemma_append_new_members(all_run_trigrams(prev), run_trigrams(last), trigram);
        lemma_run_trigrams_exist(last);
        if runs_hold(prev, trigram) {
            let i = choose|i: int|
                0 <= i < prev.len() && has_trigram(#[trigger] prev[i], trigram);
            assert(has_trigram(runs[i], trigram));
        }
        if has_trigram(last, trigram) {
            assert(has_trigram(runs[runs.len() - 1], trigram));
        }
        if runs_hold(runs, trigram) {
            let i = choose|i: int|
                0 <= i < runs.len() && has_trigram(#[trigger] runs[i], trigram);
            if i < prev.len() {
                assert(has_trigram(prev[i], trigram));
            }
        }
    }
}

/// The query for a literal asks for every trigram that is spelled in it, for no other, and for no
/// group; of each it asks for what follows it in the literal. A literal that is too short for a
/// trigram asks for nothing.
pub proof fn lemma_literals_ask_for_their_trigrams(
    literal: LiteralSearch,
    query: RegexQuery,
    trigram: u32,
)
    requires
        query.asks_for(grep_pattern_runs(CompiledPattern::Literal(literal))),
    ensures
        query.or_groups@.len() == 0,
        query.and_trigrams@.contains(trigram) <==> exists|at: int| #[trigger]
            spelled_in(literal.needle@, trigram, at),
        query.and_filters@.contains_key(trigram) <==> exists|at: int| #[trigger]
            spelled_in(literal.needle@, trigram, at),
        query.and_filters@.contains_key(trigram) ==> query.and_filters@[trigram] == filter_of(
            literal.needle@,
            trigram,
            false,
        ),
        literal.needle@.len() < 3 ==> query.and_trigrams@.len() == 0,
        literal.needle@.len() >= 3 ==> query.and_trigrams@.len() > 0,
{
    let needle = literal.needle@;
    let runs = query_runs(RegexShape::Literal(needle));
    reveal_with_fuel(useful_groups, 2);
    lemma_run_holds_what_is_spelled(needle, trigram);
    lemma_runs_are_asked_for(runs.and_runs, trigram);
    if needle.len() >= 3 {
        assert(runs.and_runs =~= seq![needle]);
        assert(runs_hold(runs.and_runs, trigram) <==> has_trigram(needle, trigram)) by {
            if has_trigram(needle, trigram) {
                assert(has_trigram(runs.and_runs[0], trigram));
            }
        }
        reveal_with_fuel(crate::query::merged_filter, 3);
        assert(runs.and_runs.drop_last() =~= Seq::empty());
        assert(runs.and_runs.last() == needle);
        if has_trigram(needle, trigram) {
            let f = filter_of(needle, trigram, false);
            let (n, l) = (f.next_mask, f.loc_mask);
            assert(0u8 | n == n) by (bit_vector);
            assert(0u8 | l == l) by (bit_vector);
        }
        let first = trigram_at(needle, 0);
        lemma_runs_are_asked_for(runs.and_runs, first);
        assert(has_trigram(needle, first));
        assert(has_trigram(runs.and_runs[0], first));
        assert(query.and_trigrams@.contains(first));
    } else {
        assert(!has_trigram(needle, trigram));
        assert(runs.and_runs.len() == 0);
        assert(all_run_trigrams(runs.and_runs).len() == 0);
    }
}

/// What a regular expression asks for is what its syntax tree asks for: that of the pattern, in a group
/// that ignores case where case does not matter.
pub proof fn lemma_expressions_are_parsed_with_their_case(pattern: CompiledPattern)
    ensures
        pattern matches CompiledPattern::Regex { pattern: text, case_insensitive, .. } ==> {
            let parsed = parsed_regex(
                if case_insensitive {
                    "(?i:"@ + text@ + ")"@
                } else {
                    text@
                },
            );
            &&& parsed is None ==> grep_pattern_runs(pattern).and_runs.len() == 0
                && grep_pattern_runs(pattern).or_groups.len() == 0
            &&& parsed is Some && shapes_of(parsed->0).len() > 0 ==> grep_pattern_runs(pattern)
                == query_runs(shapes_of(parsed->0).last())
        },
{
}

/// The nodes of a tree are read from the back: what stands alone stands alone, and a group, a
/// repetition, a sequence or an alternation takes the last of the trees behind it, in their order.
pub proof fn lemma_nodes_make_trees(rest: Seq<NodeShape>, node: NodeShape)
    ensures
        ({
            let behind = shapes_of(rest);
            let made = shapes_of(seq![node] + rest);
            &&& node is Empty ==> made == behind.push(RegexShape::Empty)
            &&& node is Class ==> made == behind.push(RegexShape::Class)
            &&& node is Look ==> made == behind.push(RegexShape::Look)
            &&& node matches NodeShape::Literal(bytes) ==> made == behind.push(
                RegexShape::Literal(bytes),
            )
            &&& node is Capture && behind.len() > 0 ==> made == behind.drop_last().push(
                RegexShape::Capture(Box::new(behind.last())),
            )
            &&& node matches NodeShape::Repetition { min } ==> behind.len() > 0 ==> made
                == behind.drop_last().push(
                RegexShape::Repetition { min, sub: Box::new(behind.last()) },
            )
            &&& node matches NodeShape::Concat { parts } ==> parts <= behind.len() ==> made
                == behind.take(behind.len() - parts).push(
                RegexShape::Concat(behind.skip(behind.len() - parts)),
            )
            &&& node matches NodeShape::Alternation { parts } ==> parts <= behind.len() ==> made
                == behind.take(behind.len() - parts).push(
                RegexShape::Alternation(behind.skip(behind.len() - parts)),
            )
        }),
{
    let all = seq![node] + rest;
    let behind = shapes_of(rest);
    assert(all.skip(1) =~= rest);
    assert(all[0] == node);
    if behind.len() > 0 {
        assert(behind.take(behind.len() - 1) =~= behind.drop_last());
    }
}

/// A sequence asks for whatever one of its parts asks for.
pub proof fn lemma_sequences_ask_for_what_their_parts_ask_for(
    parts: Seq<RegexShape>,
    count: nat,
    i: int,
)
    requires
        0 <= i < count <= parts.len(),
    ensures
        forall|run: Seq<u8>|
            query_runs(parts[i]).and_runs.contains(run) ==> #[trigger] runs_of_parts(
                parts,
                count,
            ).and_runs.contains(run),
        forall|group: Seq<Seq<u8>>|
            query_runs(parts[i]).or_groups.contains(group) ==> #[trigger] runs_of_parts(
                parts,
                count,
            ).or_groups.contains(group),
        count == parts.len() ==> query_runs(RegexShape::Concat(parts)) == runs_of_parts(
            parts,
            count,
        ),
    decreases count,
{
    let earlier = runs_of_parts(parts, (count - 1) as nat);
    let part = query_runs(parts[count - 1]);
    let all = runs_of_parts(parts, count);
    if i < count - 1 {
        lemma_sequences_ask_for_what_their_parts_ask_for(parts, (count - 1) as nat, i);
        assert forall|run: Seq<u8>|
            query_runs(parts[i]).and_runs.contains(run) implies #[trigger] all.and_runs.contains(
            run,
        ) by {
            assert(earlier.and_runs.contains(run));
            let k = earlier.and_runs.index_of(run);
            assert(all.and_runs[k] == run);
        }
        assert forall|group: Seq<Seq<u8>>|
            query_runs(parts[i]).or_groups.contains(group) implies #[trigger] all.or_groups.contains(
            group,
        ) by {
            assert(earlier.or_groups.contains(group));
            let k = earlier.or_groups.index_of(group);
            assert(all.or_groups[k] == group);
        }
    } else {
        assert forall|run: Seq<u8>|
            query_runs(parts[i]).and_runs.contains(run) implies #[trigger] all.and_runs.contains(
            run,
        ) by {
            let k = part.and_runs.index_of(run);
            assert(all.and_runs[earlier.and_runs.len() + k] == run);
        }
        assert forall|group: Seq<Seq<u8>>|
            query_runs(parts[i]).or_groups.contains(group) implies #[trigger] all.or_groups.contains(
            group,
        ) by {
            let k = part.or_groups.index_of(group);
            assert(all.or_groups[earlier.or_groups.len() + k] == group);
        }
    }
}

/// A literal of three bytes or more asks for itself, a shorter one for nothing; a group asks for what
/// is in it; a repetition for what is repeated, if it comes at least once; and what has no bytes of
/// its own asks for nothing.
pub proof fn lemma_simple_expressions_ask_for_their_literals(
    bytes: Seq<u8>,
    sub: RegexShape,
    min: u32,
)
    ensures
        bytes.len() >= 3 ==> query_runs(RegexShape::Literal(bytes)).and_runs == seq![bytes],
        bytes.len() < 3 ==> query_runs(RegexShape::Literal(bytes)).and_runs.len() == 0,
        query_runs(RegexShape::Literal(bytes)).or_groups.len() == 0,
        query_runs(RegexShape::Capture(Box::new(sub))) == query_runs(sub),
        min > 0 ==> query_runs(RegexShape::Repetition { min, sub: Box::new(sub) }) == query_runs(
            sub,
        ),
        query_runs(RegexShape::Repetition { min: 0, sub: Box::new(sub) }).and_runs.len() == 0,
        query_runs(RegexShape::Repetition { min: 0, sub: Box::new(sub) }).or_groups.len() == 0,
        query_runs(RegexShape::Class).and_runs.len() == 0,
        query_runs(RegexShape::Class).or_groups.len() == 0,
        query_runs(RegexShape::Look).and_runs.len() == 0,
        query_runs(RegexShape::Look).or_groups.len() == 0,
{
}

proof fn lemma_choices_of_literals(literals: Seq<Seq<u8>>, parts: Seq<RegexShape>, count: nat)
    requires
        parts.len() == literals.len(),
        count <= parts.len(),
        forall|i: int|
            0 <= i < parts.len() ==> #[trigger] parts[i] == RegexShape::Literal(literals[i])
                && literals[i].len() >= 3,
    ensures
        choices_of_all(parts, count) == Some(literals.take(count as int)),
    decreases count,
{
    if count > 0 {
        lemma_choices_of_literals(literals, parts, (count - 1) as nat);
        assert(parts[count - 1] == RegexShape::Literal(literals[count - 1]));
        assert(run_choices(parts[count - 1]) == Some(seq![literals[count - 1]]));
        assert(literals.take(count - 1) + seq![literals[count - 1]] =~= literals.take(
            count as int,
        ));
    } else {
        assert(literals.take(0) =~= Seq::empty());
    }
}

/// An alternation of literals of three bytes or more asks for one of them.
pub proof fn lemma_alternations_ask_for_one_of_their_literals(
    literals: Seq<Seq<u8>>,
    parts: Seq<RegexShape>,
)
    requires
        parts.len() == literals.len(),
        parts.len() > 0,
        forall|i: int|
            0 <= i < parts.len() ==> #[trigger] parts[i] == RegexShape::Literal(literals[i])
                && literals[i].len() >= 3,
    ensures
        query_runs(RegexShape::Alternation(parts)).or_groups == seq![literals],
        query_runs(RegexShape::Alternation(parts)).and_runs.len() == 0,
{
    lemma_choices_of_literals(literals, parts, parts.len());
    assert(literals.take(parts.len() as int) =~= literals);
}

proof fn lemma_choices_need_each(parts: Seq<RegexShape>, count: nat, i: int)
    requires
        0 <= i < count <= parts.len(),
        run_choices(parts[i]) is None,
    ensures
        choices_of_all(parts, count) is None,
    decreases count,
{
    if i < count - 1 {
        lemma_choices_need_each(parts, (count - 1) as nat, i);
    }
}

/// An alternation of which one part guarantees nothing asks for nothing.
pub proof fn lemma_an_open_alternative_asks_for_nothing(parts: Seq<RegexShape>, i: int)
    requires
        0 <= i < parts.len(),
        parts[i] is Empty || parts[i] is Class || parts[i] is Look || (
        parts[i] matches RegexShape::Literal(bytes) && bytes.len() < 3) || (
        parts[i] matches RegexShape::Repetition { min, .. } && min == 0),
    ensures
        query_runs(RegexShape::Alternation(parts)).or_groups.len() == 0,
        query_runs(RegexShape::Alternation(parts)).and_runs.len() == 0,
{
    assert(run_choices(parts[i]) is None);
    lemma_choices_need_each(parts, parts.len(), i);
}

proof fn lemma_groups_are_kept(groups: Seq<Seq<Seq<u8>>>, i: int)
    requires
        0 <= i < groups.len(),
        exists|trigram: u32| runs_hold(groups[i], trigram),
    ensures
        useful_groups(groups).contains(groups[i]),
    decreases groups.len(),
{
    let prev = groups.drop_last();
    let earlier = useful_groups(prev);
    let all = useful_groups(groups);
    let trigram = choose|trigram: u32| runs_hold(groups[i], trigram);
    if i < prev.len() {
        assert(prev[i] == groups[i]);
        assert(runs_hold(prev[i], trigram));
        lemma_groups_are_kept(prev, i);
        let k = earlier.index_of(groups[i]);
        assert(all[k] == groups[i]);
    } else {
        assert(runs_hold(groups.last(), trigram));
        assert(all[all.len() - 1] == groups[i]);
    }
}

/// Every group of alternatives that spells a trigram becomes a group of the query, with exactly the
/// trigrams that are spelled in one of them; and every run becomes its trigrams.
pub proof fn lemma_queries_ask_for_all_runs(
    query: RegexQuery,
    runs: crate::query::QueryRuns,
    group: int,
    trigram: u32,
)
    requires
        query.asks_for(runs),
    ensures
        query.and_trigrams@.contains(trigram) <==> exists|i: int, at: int|
            0 <= i < runs.and_runs.len() && #[trigger] spelled_in(runs.and_runs[i], trigram, at),
        0 <= group < runs.or_groups.len() && (exists|i: int, at: int|
            0 <= i < runs.or_groups[group].len() && #[trigger] spelled_in(
                runs.or_groups[group][i],
                trigram,
                at,
            )) ==> exists|g: int|
            0 <= g < query.or_groups@.len() && (#[trigger] query.or_groups@[g])@.contains(trigram),
{
    lemma_runs_are_asked_for(runs.and_runs, trigram);
    if runs_hold(runs.and_runs, trigram) {
        let i = choose|i: int|
            0 <= i < runs.and_runs.len() && has_trigram(#[trigger] runs.and_runs[i], trigram);
        lemma_run_holds_what_is_spelled(runs.and_runs[i], trigram);
        let at = choose|at: int| #[trigger] spelled_in(runs.and_runs[i], trigram, at);
        assert(spelled_in(runs.and_runs[i], trigram, at));
    }
    if exists|i: int, at: int|
        0 <= i < runs.and_runs.len() && #[trigger] spelled_in(runs.and_runs[i], trigram, at) {
        let (i, at) = choose|i: int, at: int|
            0 <= i < runs.and_runs.len() && #[trigger] spelled_in(runs.and_runs[i], trigram, at);
        lemma_run_holds_what_is_spelled(runs.and_runs[i], trigram);
        assert(has_trigram(runs.and_runs[i], trigram));
    }
    if 0 <= group < runs.or_groups.len() && exists|i: int, at: int|
        0 <= i < runs.or_groups[group].len() && #[trigger] spelled_in(
            runs.or_groups[group][i],
            trigram,
            at,
        ) {
        let (i, at) = choose|i: int, at: int|
            0 <= i < runs.or_groups[group].len() && #[trigger] spelled_in(
                runs.or_groups[group][i],
                trigram,
                at,
            );
        lemma_run_holds_what_is_spelled(runs.or_groups[group][i], trigram);
        assert(has_trigram(runs.or_groups[group][i], trigram));
        assert(runs_hold(runs.or_groups[group], trigram));
        lemma_groups_are_kept(runs.or_groups, group);
        let groups = useful_groups(runs.or_groups);
        let g = groups.index_of(runs.or_groups[group]);
        assert(crate::query::lists_group(query.or_groups@[g]@, groups[g]));
        assert(query.or_groups@[g]@.contains(trigram));
    }
}

// ---------------------------------------------------------------------------------------------
// Choices
// ---------------------------------------------------------------------------------------------

proof fn lemma_choices_of_front(parts: Seq<RegexShape>, last: RegexShape, count: nat)
    requires
        count <= parts.len(),
    ensures
        choices_of_some(parts.push(last), count) == choices_of_some(parts, count),
        choices_of_all(parts.push(last), count) == choices_of_all(parts, count),
    decreases count,
{
    if count > 0 {
        lemma_choices_of_front(parts, last, (count - 1) as nat);
        assert(parts.push(last)[count - 1] == parts[count - 1]);
    }
}

/// The runs that one alternative offers: a literal of three bytes or more offers itself, a group and a
/// part that must occur offer what is in them, and nothing else offers anything.
pub proof fn lemma_what_alternatives_offer(bytes: Seq<u8>, sub: RegexShape, min: u32)
    ensures
        bytes.len() >= 3 ==> run_choices(RegexShape::Literal(bytes)) == Some(seq![bytes]),
        bytes.len() < 3 ==> run_choices(RegexShape::Literal(bytes)) is None,
        run_choices(RegexShape::Capture(Box::new(sub))) == run_choices(sub),
        min > 0 ==> run_choices(RegexShape::Repetition { min, sub: Box::new(sub) }) == run_choices(
            sub,
        ),
        run_choices(RegexShape::Repetition { min: 0, sub: Box::new(sub) }) is None,
        run_choices(RegexShape::Empty) is None,
        run_choices(RegexShape::Class) is None,
        run_choices(RegexShape::Look) is None,
{
}

/// A sequence offers the runs of all its parts that offer any. Alternatives offer the runs of all of
/// them, and nothing where one of them offers nothing.
pub proof fn lemma_what_sequences_and_alternatives_offer(parts: Seq<RegexShape>, last: RegexShape)
    ensures
        ({
            let before = run_choices(RegexShape::Concat(parts));
            let whole = run_choices(RegexShape::Concat(parts.push(last)));
            let more = run_choices(last);
            &&& more is None ==> whole == before
            &&& more is Some && more->0.len() > 0 && before is None ==> whole == more
            &&& more is Some && before is Some ==> whole == Some(before->0 + more->0)
        }),
        ({
            let before = run_choices(RegexShape::Alternation(parts));
            let whole = run_choices(RegexShape::Alternation(parts.push(last)));
            let more = run_choices(last);
            &&& more is None ==> whole is None
            &&& more is Some && more->0.len() > 0 && parts.len() == 0 ==> whole == more
            &&& more is Some && before is Some ==> whole == Some(before->0 + more->0)
        }),
{
    let all = parts.push(last);
    lemma_choices_of_front(parts, last, parts.len());
    assert(all[all.len() - 1] == last);
    let more = run_choices(last);
    let (some, every) = (choices_of_some(parts, parts.len()), choices_of_all(parts, parts.len()));
    assert(choices_of_some(all, all.len()) == (match more {
        Some(runs) => some + runs,
        None => some,
    }));
    assert(choices_of_all(all, all.len()) == (match (every, more) {
        (Some(earlier), Some(runs)) => Some(earlier + runs),
        _ => None,
    }));
    if some.len() == 0 && more is Some {
        assert(some + more->0 =~= more->0);
    }
    if parts.len() == 0 && more is Some {
        assert(every->0 + more->0 =~= more->0);
    }
}

/// The masks of a trigram that several runs hold are those of all of them together.
pub proof fn lemma_masks_of_runs_are_put_together(runs: Seq<Seq<u8>>, run: Seq<u8>, trigram: u32)
    ensures
        merged_filter(Seq::empty(), trigram).next_mask == 0,
        merged_filter(Seq::empty(), trigram).loc_mask == 0,
        !has_trigram(run, trigram) ==> merged_filter(runs.push(run), trigram) == merged_filter(
            runs,
            trigram,
        ),
        has_trigram(run, trigram) ==> {
            let (before, more, whole) = (
                merged_filter(runs, trigram),
                filter_of(run, trigram, false),
                merged_filter(runs.push(run), trigram),
            );
            &&& whole.next_mask == before.next_mask | more.next_mask
            &&& whole.loc_mask == before.loc_mask | more.loc_mask
        },
{
    assert(runs.push(run).drop_last() =~= runs);
}

} // verus!
