//! From the syntax tree of a regular expression to the trigrams that every match must hold.

use crate::order::strictly_ascending;
use crate::outside::compile_regex;
use crate::outside::parse_regex;
use crate::outside::parsed_regex;
use crate::outside::regex_source;
use crate::trigram::filter_map;
use crate::trigram::filter_of;
use crate::trigram::has_trigram;
use crate::trigram::lists_entries;
use crate::trigram::seen_upto;
use crate::trigram::sorted_entries;
use crate::trigram::trigram_at;
use crate::trigram::trigram_filter_map;
use crate::trigram::trigram_positions;
use crate::trigram::PostingFilter;
use std::collections::BTreeMap;
use std::collections::HashMap;
use vstd::prelude::*;

verus! {

/// A regular expression as far as its literals go. `Empty`, `Class` and `Look` stand for what
/// matches without a literal: the empty text, a class of characters, an assertion.
#[derive(Debug)]
pub enum RegexTree {
    Empty,
    Class,
    Look,
    Literal(Vec<u8>),
    Capture(Box<RegexTree>),
    Concat(Vec<RegexTree>),
    Alternation(Vec<RegexTree>),
    Repetition { min: u32, sub: Box<RegexTree> },
}

/// The mathematical counterpart of a `RegexTree`.
pub enum RegexShape {
    Empty,
    Class,
    Look,
    Literal(Seq<u8>),
    Capture(Box<RegexShape>),
    Concat(Seq<RegexShape>),
    Alternation(Seq<RegexShape>),
    Repetition { min: u32, sub: Box<RegexShape> },
}

impl RegexTree {
    pub open spec fn shape(&self) -> RegexShape
        decreases self,
    {
        match self {
            RegexTree::Empty => RegexShape::Empty,
            RegexTree::Class => RegexShape::Class,
            RegexTree::Look => RegexShape::Look,
            RegexTree::Literal(bytes) => RegexShape::Literal(bytes@),
            RegexTree::Capture(sub) => RegexShape::Capture(Box::new(sub.shape())),
            RegexTree::Concat(parts) => RegexShape::Concat(
                Seq::new(
                    parts@.len(),
                    |i: int|
                        if 0 <= i < parts@.len() {
                            parts@[i].shape()
                        } else {
                            RegexShape::Empty
                        },
                ),
            ),
            RegexTree::Alternation(parts) => RegexShape::Alternation(
                Seq::new(
                    parts@.len(),
                    |i: int|
                        if 0 <= i < parts@.len() {
                            parts@[i].shape()
                        } else {
                            RegexShape::Empty
                        },
                ),
            ),
            RegexTree::Repetition { min, sub } => RegexShape::Repetition {
                min: *min,
                sub: Box::new(sub.shape()),
            },
        }
    }
}

/// Runs of bytes that every match holds, and groups of runs of which every match holds one.
pub struct QueryRuns {
    pub and_runs: Seq<Seq<u8>>,
    pub or_groups: Seq<Seq<Seq<u8>>>,
}

pub open spec fn no_runs() -> QueryRuns {
    QueryRuns { and_runs: Seq::empty(), or_groups: Seq::empty() }
}

/// Runs of which every match of `shape` holds at least one, where there are such.
pub open spec fn run_choices(shape: RegexShape) -> Option<Seq<Seq<u8>>>
    decreases shape, 0nat,
{
    match shape {
        RegexShape::Empty | RegexShape::Class | RegexShape::Look => None,
        RegexShape::Literal(bytes) => if bytes.len() >= 3 {
            Some(seq![bytes])
        } else {
            None
        },
        RegexShape::Capture(sub) => run_choices(*sub),
        RegexShape::Concat(parts) => {
            let runs = choices_of_some(parts, parts.len());
            if runs.len() == 0 {
                None
            } else {
                Some(runs)
            }
        },
        RegexShape::Alternation(parts) => match choices_of_all(parts, parts.len()) {
            Some(runs) => if runs.len() == 0 {
                None
            } else {
                Some(runs)
            },
            None => None,
        },
        RegexShape::Repetition { min, sub } => if min == 0 {
            None
        } else {
            run_choices(*sub)
        },
    }
}

/// The choices of those among the first `count` parts that have any.
pub open spec fn choices_of_some(parts: Seq<RegexShape>, count: nat) -> Seq<Seq<u8>>
    decreases parts, count,
{
    if count == 0 || count > parts.len() {
        Seq::empty()
    } else {
        let earlier = choices_of_some(parts, (count - 1) as nat);
        match run_choices(parts[count - 1]) {
            Some(runs) => earlier + runs,
            None => earlier,
        }
    }
}

/// The choices of the first `count` parts, where each of them has some.
pub open spec fn choices_of_all(parts: Seq<RegexShape>, count: nat) -> Option<Seq<Seq<u8>>>
    decreases parts, count,
{
    if count == 0 || count > parts.len() {
        Some(Seq::empty())
    } else {
        match (choices_of_all(parts, (count - 1) as nat), run_choices(parts[count - 1])) {
            (Some(earlier), Some(runs)) => Some(earlier + runs),
            _ => None,
        }
    }
}

/// What every match of `shape` holds.
pub open spec fn query_runs(shape: RegexShape) -> QueryRuns
    decreases shape, 0nat,
{
    match shape {
        RegexShape::Empty | RegexShape::Class | RegexShape::Look => no_runs(),
        RegexShape::Literal(bytes) => if bytes.len() >= 3 {
            QueryRuns { and_runs: seq![bytes], or_groups: Seq::empty() }
        } else {
            no_runs()
        },
        RegexShape::Capture(sub) => query_runs(*sub),
        RegexShape::Concat(parts) => runs_of_parts(parts, parts.len()),
        RegexShape::Alternation(parts) => match choices_of_all(parts, parts.len()) {
            Some(group) => if group.len() == 0 {
                no_runs()
            } else {
                QueryRuns { and_runs: Seq::empty(), or_groups: seq![group] }
            },
            None => no_runs(),
        },
        RegexShape::Repetition { min, sub } => if min == 0 {
            no_runs()
        } else {
            query_runs(*sub)
        },
    }
}

/// What the first `count` parts of a concatenation ask for, together.
pub open spec fn runs_of_parts(parts: Seq<RegexShape>, count: nat) -> QueryRuns
    decreases parts, count,
{
    if count == 0 || count > parts.len() {
        no_runs()
    } else {
        let earlier = runs_of_parts(parts, (count - 1) as nat);
        let part = query_runs(parts[count - 1]);
        QueryRuns {
            and_runs: earlier.and_runs + part.and_runs,
            or_groups: earlier.or_groups + part.or_groups,
        }
    }
}

/// Runs as code holds them.
pub open spec fn run_views(runs: Seq<Vec<u8>>) -> Seq<Seq<u8>> {
    runs.map_values(|run: Vec<u8>| run@)
}

/// Groups of runs as code holds them.
pub open spec fn group_views(groups: Seq<Vec<Vec<u8>>>) -> Seq<Seq<Seq<u8>>> {
    groups.map_values(|group: Vec<Vec<u8>>| run_views(group@))
}

#[derive(Debug)]
pub struct QueryBuild {
    pub and_runs: Vec<Vec<u8>>,
    pub or_groups: Vec<Vec<Vec<u8>>>,
}

impl View for QueryBuild {
    type V = QueryRuns;

    open spec fn view(&self) -> QueryRuns {
        QueryRuns {
            and_runs: run_views(self.and_runs@),
            or_groups: group_views(self.or_groups@),
        }
    }
}

fn single_run(bytes: &Vec<u8>) -> (runs: Vec<Vec<u8>>)
    ensures
        run_views(runs@) == seq![bytes@],
{
    let mut runs: Vec<Vec<u8>> = Vec::new();
    runs.push(crate::path::copy_bytes(bytes));
    assert(run_views(runs@) =~= seq![bytes@]);
    runs
}

fn append_runs(runs: &mut Vec<Vec<u8>>, more: Vec<Vec<u8>>)
    ensures
        run_views(final(runs)@) == run_views(old(runs)@) + run_views(more@),
{
    let mut rest = more;
    runs.append(&mut rest);
    assert(run_views(runs@) =~= run_views(old(runs)@) + run_views(more@));
}

/// Runs of which every match holds at least one, where there are such.
pub fn guaranteed_run_choices(tree: &RegexTree) -> (choices: Option<Vec<Vec<u8>>>)
    ensures
        match choices {
            Some(runs) => run_choices(tree.shape()) == Some(run_views(runs@)),
            None => run_choices(tree.shape()) is None,
        },
    decreases tree,
{
    match tree {
        RegexTree::Empty | RegexTree::Class | RegexTree::Look => None,
        RegexTree::Literal(bytes) => {
            if bytes.len() >= 3 {
                Some(single_run(bytes))
            } else {
                None
            }
        },
        RegexTree::Capture(sub) => guaranteed_run_choices(sub),
        RegexTree::Concat(parts) => {
            let ghost shapes = tree.shape()->Concat_0;
            let mut runs: Vec<Vec<u8>> = Vec::new();
            let mut i: usize = 0;
            assert(run_views(runs@) =~= Seq::<Seq<u8>>::empty());
            while i < parts.len()
                invariant
                    tree matches RegexTree::Concat(p) && p == parts,
                    shapes == tree.shape()->Concat_0,
                    shapes.len() == parts@.len(),
                    forall|k: int|
                        0 <= k < parts@.len() ==> #[trigger] shapes[k] == parts@[k].shape(),
                    i <= parts@.len(),
                    run_views(runs@) == choices_of_some(shapes, i as nat),
                decreases parts@.len() - i,
            {
                assert(shapes[i as int] == parts@[i as int].shape());
                if let Some(part_runs) = guaranteed_run_choices(&parts[i]) {
                    append_runs(&mut runs, part_runs);
                }
                i += 1;
            }
            if runs.len() == 0 {
                None
            } else {
                Some(runs)
            }
        },
        RegexTree::Alternation(parts) => {
            let ghost shapes = tree.shape()->Alternation_0;
            let mut runs: Vec<Vec<u8>> = Vec::new();
            let mut i: usize = 0;
            assert(run_views(runs@) =~= Seq::<Seq<u8>>::empty());
            while i < parts.len()
                invariant
                    tree matches RegexTree::Alternation(p) && p == parts,
                    shapes == tree.shape()->Alternation_0,
                    shapes.len() == parts@.len(),
                    forall|k: int|
                        0 <= k < parts@.len() ==> #[trigger] shapes[k] == parts@[k].shape(),
                    i <= parts@.len(),
                    choices_of_all(shapes, i as nat) == Some(run_views(runs@)),
                decreases parts@.len() - i,
            {
                assert(shapes[i as int] == parts@[i as int].shape());
                match guaranteed_run_choices(&parts[i]) {
                    Some(part_runs) => {
                        append_runs(&mut runs, part_runs);
                    },
                    None => {
                        proof {
                            lemma_choices_of_all_needs_each(
                                shapes,
                                (i + 1) as nat,
                                shapes.len(),
                            );
                        }
                        return None;
                    },
                }
                i += 1;
            }
            if runs.len() == 0 {
                None
            } else {
                Some(runs)
            }
        },
        RegexTree::Repetition { min, sub } => {
            if *min == 0 {
                None
            } else {
                guaranteed_run_choices(sub)
            }
        },
    }
}

proof fn lemma_choices_of_all_needs_each(parts: Seq<RegexShape>, few: nat, many: nat)
    requires
        few <= many <= parts.len(),
        choices_of_all(parts, few) is None,
    ensures
        choices_of_all(parts, many) is None,
    decreases many,
{
    if few < many {
        lemma_choices_of_all_needs_each(parts, few, (many - 1) as nat);
    }
}

impl QueryBuild {
    fn none() -> (build: QueryBuild)
        ensures
            build@ == no_runs(),
    {
        let build = QueryBuild { and_runs: Vec::new(), or_groups: Vec::new() };
        assert(build@.and_runs =~= no_runs().and_runs);
        assert(build@.or_groups =~= no_runs().or_groups);
        build
    }
}

/// What every match of the tree holds.
pub fn build_query(tree: &RegexTree) -> (build: QueryBuild)
    ensures
        build@ == query_runs(tree.shape()),
    decreases tree,
{
    match tree {
        RegexTree::Empty | RegexTree::Class | RegexTree::Look => QueryBuild::none(),
        RegexTree::Literal(bytes) => {
            let mut build = QueryBuild::none();
            if bytes.len() >= 3 {
                build.and_runs = single_run(bytes);
            }
            build
        },
        RegexTree::Capture(sub) => build_query(sub),
        RegexTree::Concat(parts) => {
            let ghost shapes = tree.shape()->Concat_0;
            let mut build = QueryBuild::none();
            let mut i: usize = 0;
            while i < parts.len()
                invariant
                    tree matches RegexTree::Concat(p) && p == parts,
                    shapes == tree.shape()->Concat_0,
                    shapes.len() == parts@.len(),
                    forall|k: int|
                        0 <= k < parts@.len() ==> #[trigger] shapes[k] == parts@[k].shape(),
                    i <= parts@.len(),
                    build@ == runs_of_parts(shapes, i as nat),
                decreases parts@.len() - i,
            {
                assert(shapes[i as int] == parts@[i as int].shape());
                let part = build_query(&parts[i]);
                let ghost before = build@;
                let ghost extra = part@;
                append_runs(&mut build.and_runs, part.and_runs);
                let mut groups = part.or_groups;
                build.or_groups.append(&mut groups);
                proof {
                    assert(build@.or_groups =~= before.or_groups + extra.or_groups);
                }
                i += 1;
            }
            build
        },
        RegexTree::Alternation(parts) => {
            let ghost shapes = tree.shape()->Alternation_0;
            let mut group: Vec<Vec<u8>> = Vec::new();
            let mut i: usize = 0;
            assert(run_views(group@) =~= Seq::<Seq<u8>>::empty());
            while i < parts.len()
                invariant
                    tree matches RegexTree::Alternation(p) && p == parts,
                    shapes == tree.shape()->Alternation_0,
                    shapes.len() == parts@.len(),
                    forall|k: int|
                        0 <= k < parts@.len() ==> #[trigger] shapes[k] == parts@[k].shape(),
                    i <= parts@.len(),
                    choices_of_all(shapes, i as nat) == Some(run_views(group@)),
                decreases parts@.len() - i,
            {
                assert(shapes[i as int] == parts@[i as int].shape());
                match guaranteed_run_choices(&parts[i]) {
                    Some(choices) => {
                        append_runs(&mut group, choices);
                    },
                    None => {
                        proof {
                            lemma_choices_of_all_needs_each(
                                shapes,
                                (i + 1) as nat,
                                shapes.len(),
                            );
                        }
                        return QueryBuild::none();
                    },
                }
                i += 1;
            }
            let mut build = QueryBuild::none();
            if group.len() > 0 {
                let ghost runs = run_views(group@);
                build.or_groups.push(group);
                assert(build@.or_groups =~= seq![runs]);
            }
            build
        },
        RegexTree::Repetition { min, sub } => {
            if *min == 0 {
                QueryBuild::none()
            } else {
                build_query(sub)
            }
        },
    }
}

// ---------------------------------------------------------------------------------------------
// From runs to trigrams
// ---------------------------------------------------------------------------------------------

/// What a search asks of the index: trigrams that must all be there, and groups of trigrams of
/// which one must be there, each with what is known of the bytes that follow.
#[derive(Debug)]
pub struct RegexQuery {
    pub and_trigrams: Vec<u32>,
    pub or_groups: Vec<Vec<u32>>,
    pub and_filters: HashMap<u32, PostingFilter>,
    pub or_filters: Vec<HashMap<u32, PostingFilter>>,
}

/// Some run holds `trigram`.
pub open spec fn runs_hold(runs: Seq<Seq<u8>>, trigram: u32) -> bool {
    exists|i: int| 0 <= i < runs.len() && has_trigram(#[trigger] runs[i], trigram)
}

pub open spec fn union_filter(left: PostingFilter, right: PostingFilter) -> PostingFilter {
    PostingFilter {
        next_mask: left.next_mask | right.next_mask,
        loc_mask: left.loc_mask | right.loc_mask,
    }
}

/// The masks of `trigram` over all runs that hold it.
pub open spec fn merged_filter(runs: Seq<Seq<u8>>, trigram: u32) -> PostingFilter
    decreases runs.len(),
{
    if runs.len() == 0 {
        PostingFilter { next_mask: 0, loc_mask: 0 }
    } else if has_trigram(runs.last(), trigram) {
        union_filter(
            merged_filter(runs.drop_last(), trigram),
            filter_of(runs.last(), trigram, false),
        )
    } else {
        merged_filter(runs.drop_last(), trigram)
    }
}

/// The trigrams of `runs`, each with its masks over all of them.
pub open spec fn merges_runs(filters: Map<u32, PostingFilter>, runs: Seq<Seq<u8>>) -> bool {
    &&& forall|trigram: u32| #[trigger]
        filters.contains_key(trigram) <==> runs_hold(runs, trigram)
    &&& forall|trigram: u32| #[trigger]
        filters.contains_key(trigram) ==> filters[trigram] == merged_filter(runs, trigram)
}

/// The trigrams of `run` in ascending order.
pub open spec fn lists_trigrams(trigrams: Seq<u32>, run: Seq<u8>) -> bool {
    &&& strictly_ascending(trigrams)
    &&& forall|trigram: u32| #[trigger] trigrams.contains(trigram) <==> has_trigram(run, trigram)
}

pub open spec fn run_trigrams(run: Seq<u8>) -> Seq<u32> {
    choose|trigrams: Seq<u32>| lists_trigrams(trigrams, run)
}

/// `list` with those of `more` behind it that it does not hold yet.
pub open spec fn append_new(list: Seq<u32>, more: Seq<u32>) -> Seq<u32>
    decreases more.len(),
{
    if more.len() == 0 {
        list
    } else {
        let earlier = append_new(list, more.drop_last());
        if earlier.contains(more.last()) {
            earlier
        } else {
            earlier.push(more.last())
        }
    }
}

/// The trigrams of all runs, each where it first comes up.
pub open spec fn all_run_trigrams(runs: Seq<Seq<u8>>) -> Seq<u32>
    decreases runs.len(),
{
    if runs.len() == 0 {
        Seq::empty()
    } else {
        append_new(all_run_trigrams(runs.drop_last()), run_trigrams(runs.last()))
    }
}

/// The groups that hold a trigram at all.
pub open spec fn useful_groups(groups: Seq<Seq<Seq<u8>>>) -> Seq<Seq<Seq<u8>>>
    decreases groups.len(),
{
    if groups.len() == 0 {
        groups
    } else {
        let earlier = useful_groups(groups.drop_last());
        if exists|trigram: u32| runs_hold(groups.last(), trigram) {
            earlier.push(groups.last())
        } else {
            earlier
        }
    }
}

/// One group of trigrams: those of its runs, in ascending order.
pub open spec fn lists_group(trigrams: Seq<u32>, runs: Seq<Seq<u8>>) -> bool {
    &&& strictly_ascending(trigrams)
    &&& forall|trigram: u32| #[trigger] trigrams.contains(trigram) <==> runs_hold(runs, trigram)
}

impl RegexQuery {
    /// The query asks exactly for what `runs` say.
    pub open spec fn asks_for(&self, runs: QueryRuns) -> bool {
        let groups = useful_groups(runs.or_groups);
        &&& self.and_trigrams@ == all_run_trigrams(runs.and_runs)
        &&& merges_runs(self.and_filters@, runs.and_runs)
        &&& self.or_groups@.len() == groups.len()
        &&& self.or_filters@.len() == groups.len()
        &&& forall|i: int|
            0 <= i < groups.len() ==> lists_group(
                (#[trigger] self.or_groups@[i])@,
                groups[i],
            )
        &&& forall|i: int|
            0 <= i < groups.len() ==> merges_runs(
                (#[trigger] self.or_filters@[i])@,
                groups[i],
            )
    }

    /// The query that every file meets.
    pub open spec fn is_unrestricted(&self) -> bool {
        self.and_trigrams@.len() == 0 && self.or_groups@.len() == 0
    }

    pub fn unrestricted() -> (query: RegexQuery)
        ensures
            query.asks_for(no_runs()),
            query.is_unrestricted(),
    {
        let query = RegexQuery {
            and_trigrams: Vec::new(),
            or_groups: Vec::new(),
            and_filters: HashMap::new(),
            or_filters: Vec::new(),
        };
        assert(query.and_trigrams@ =~= all_run_trigrams(no_runs().and_runs));
        query
    }
}

/// The trigrams of a run in ascending order, with their masks.
pub fn trigram_filters(run: &[u8]) -> (entries: Vec<(u32, PostingFilter)>)
    ensures
        lists_trigrams(entry_keys(entries@), run@),
        forall|i: int|
            0 <= i < entries@.len() ==> (#[trigger] entries@[i]).1 == filter_of(
                run@,
                entries@[i].0,
                false,
            ),
{
    let filters: BTreeMap<u32, PostingFilter> = trigram_filter_map(run, false);
    let entries = sorted_entries(&filters);
    proof {
        lemma_entry_keys(entries@, filters@, run@);
    }
    entries
}

pub open spec fn entry_keys(entries: Seq<(u32, PostingFilter)>) -> Seq<u32> {
    entries.map_values(|entry: (u32, PostingFilter)| entry.0)
}

proof fn lemma_entry_keys(
    entries: Seq<(u32, PostingFilter)>,
    filters: Map<u32, PostingFilter>,
    run: Seq<u8>,
)
    requires
        lists_entries(entries, filters),
        filters == filter_map(run, false),
    ensures
        lists_trigrams(entry_keys(entries), run),
{
    let keys = entry_keys(entries);
    assert forall|i: int, j: int| 0 <= i < j < keys.len() implies #[trigger] keys[i]
        < #[trigger] keys[j] by {
        assert(entries[i].0 < entries[j].0);
    }
    assert forall|trigram: u32| #[trigger] keys.contains(trigram) <==> has_trigram(
        run,
        trigram,
    ) by {
        if keys.contains(trigram) {
            let i = keys.index_of(trigram);
            assert(entries[i].0 == trigram);
            assert(filters.contains_key(trigram));
        }
        if has_trigram(run, trigram) {
            assert(filters.contains_key(trigram));
            let i = entries.index_of((trigram, filters[trigram]));
            assert(keys[i] == trigram);
        }
    }
}

pub fn merge_filter(target: PostingFilter, filter: PostingFilter) -> (merged: PostingFilter)
    ensures
        merged == union_filter(target, filter),
{
    PostingFilter {
        next_mask: target.next_mask | filter.next_mask,
        loc_mask: target.loc_mask | filter.loc_mask,
    }
}

/// Every run has a list of its trigrams in ascending order.
pub proof fn lemma_run_trigrams_exist(run: Seq<u8>)
    ensures
        lists_trigrams(run_trigrams(run), run),
{
    lemma_ascending_trigrams_upto(run, trigram_positions(run));
    let listed = choose|listed: Seq<u32>|
        strictly_ascending(listed) && forall|t: u32| #[trigger]
            listed.contains(t) <==> seen_upto(run, t, trigram_positions(run));
    assert forall|t: u32| #[trigger] listed.contains(t) <==> has_trigram(run, t) by {
        assert(seen_upto(run, t, trigram_positions(run)) == has_trigram(run, t));
    }
    assert(lists_trigrams(listed, run));
}

proof fn lemma_ascending_trigrams_upto(run: Seq<u8>, count: int)
    requires
        0 <= count <= trigram_positions(run),
    ensures
        exists|listed: Seq<u32>|
            strictly_ascending(listed) && forall|t: u32| #[trigger]
                listed.contains(t) <==> seen_upto(run, t, count),
    decreases count,
{
    if count == 0 {
        let listed = Seq::<u32>::empty();
        assert(strictly_ascending(listed));
        assert forall|t: u32| #[trigger] listed.contains(t) <==> seen_upto(run, t, 0) by {}
    } else {
        lemma_ascending_trigrams_upto(run, count - 1);
        let earlier = choose|listed: Seq<u32>|
            strictly_ascending(listed) && forall|t: u32| #[trigger]
                listed.contains(t) <==> seen_upto(run, t, count - 1);
        let next = trigram_at(run, count - 1);
        crate::order::lemma_ascending_insert(earlier, next);
        let listed = choose|listed: Seq<u32>|
            strictly_ascending(listed) && forall|t: u32| #[trigger]
                listed.contains(t) <==> earlier.contains(t) || t == next;
        assert forall|t: u32| #[trigger] listed.contains(t) <==> seen_upto(run, t, count) by {
            assert(listed.contains(t) <==> earlier.contains(t) || t == next);
            if seen_upto(run, t, count) && t != next {
                let p = choose|p: int|
                    0 <= p < count && #[trigger] trigram_at(run, p) == t;
                assert(0 <= p < count - 1);
                assert(seen_upto(run, t, count - 1));
            }
            if seen_upto(run, t, count - 1) {
                let p = choose|p: int|
                    0 <= p < count - 1 && #[trigger] trigram_at(run, p) == t;
                assert(0 <= p < count);
            }
            if t == next {
                assert(trigram_at(run, count - 1) == t);
            }
        }
    }
}

proof fn lemma_run_trigrams(trigrams: Seq<u32>, run: Seq<u8>)
    requires
        lists_trigrams(trigrams, run),
    ensures
        run_trigrams(run) == trigrams,
{
    let chosen = run_trigrams(run);
    assert(lists_trigrams(chosen, run));
    crate::order::lemma_ascending_lists_are_determined(trigrams, chosen);
}

/// Merging one more run into a map of filters.
proof fn lemma_merge_one_run(
    before: Map<u32, PostingFilter>,
    after: Map<u32, PostingFilter>,
    runs: Seq<Seq<u8>>,
    entries: Seq<(u32, PostingFilter)>,
)
    requires
        runs.len() > 0,
        merges_runs(before, runs.drop_last()),
        lists_trigrams(entry_keys(entries), runs.last()),
        forall|i: int|
            0 <= i < entries.len() ==> (#[trigger] entries[i]).1 == filter_of(
                runs.last(),
                entries[i].0,
                false,
            ),
        merged_entries(before, after, entries, entries.len() as int),
    ensures
        merges_runs(after, runs),
{
    let last = runs.last();
    let keys = entry_keys(entries);
    assert forall|t: u32| #[trigger] after.contains_key(t) <==> runs_hold(runs, t) by {
        if runs_hold(runs.drop_last(), t) {
            let i = choose|i: int|
                0 <= i < runs.drop_last().len() && has_trigram(
                    #[trigger] runs.drop_last()[i],
                    t,
                );
            assert(has_trigram(runs[i], t));
        }
        if has_trigram(last, t) {
            assert(keys.contains(t));
            assert(has_trigram(runs[runs.len() - 1], t));
            let i = keys.index_of(t);
            assert(entries[i].0 == t);
            assert(entry_among(entries, entries.len() as int, t));
        }
        if runs_hold(runs, t) && !has_trigram(last, t) {
            let i = choose|i: int| 0 <= i < runs.len() && has_trigram(#[trigger] runs[i], t);
            assert(has_trigram(runs.drop_last()[i], t));
        }
        if entry_among(entries, entries.len() as int, t) {
            let i = choose|i: int|
                0 <= i < entries.len() as int && (#[trigger] entries[i]).0 == t;
            assert(keys[i] == t);
            assert(keys.contains(t));
        }
    }
    assert forall|t: u32| #[trigger] after.contains_key(t) implies after[t] == merged_filter(
        runs,
        t,
    ) by {
        let zero = PostingFilter { next_mask: 0, loc_mask: 0 };
        if has_trigram(last, t) {
            assert(keys.contains(t));
            let i = keys.index_of(t);
            assert(entries[i].0 == t);
            assert(entry_among(entries, entries.len() as int, t));
            if !before.contains_key(t) {
                assert(!runs_hold(runs.drop_last(), t));
                lemma_unheld_filter_is_empty(runs.drop_last(), t);
            }
        } else {
            if entry_among(entries, entries.len() as int, t) {
                let i = choose|i: int|
                    0 <= i < entries.len() as int && (#[trigger] entries[i]).0 == t;
                assert(keys[i] == t);
                assert(keys.contains(t));
            }
        }
    }
}

proof fn lemma_unheld_filter_is_empty(runs: Seq<Seq<u8>>, trigram: u32)
    requires
        !runs_hold(runs, trigram),
    ensures
        merged_filter(runs, trigram) == (PostingFilter { next_mask: 0, loc_mask: 0 }),
    decreases runs.len(),
{
    if runs.len() > 0 {
        assert(runs.last() == runs[runs.len() - 1]);
        assert(!has_trigram(runs.last(), trigram));
        assert forall|i: int| 0 <= i < runs.drop_last().len() implies !has_trigram(
            #[trigger] runs.drop_last()[i],
            trigram,
        ) by {
            assert(runs.drop_last()[i] == runs[i]);
        }
        lemma_unheld_filter_is_empty(runs.drop_last(), trigram);
    }
}

/// `trigram` stands among the first `count` entries.
spec fn entry_among(entries: Seq<(u32, PostingFilter)>, count: int, trigram: u32) -> bool {
    exists|i: int| 0 <= i < count && (#[trigger] entries[i]).0 == trigram
}

spec fn entry_value(entries: Seq<(u32, PostingFilter)>, count: int, trigram: u32) -> PostingFilter {
    entries[choose|i: int| 0 <= i < count && (#[trigger] entries[i]).0 == trigram].1
}

/// `after` is `before` with the first `count` entries merged in.
spec fn merged_entries(
    before: Map<u32, PostingFilter>,
    after: Map<u32, PostingFilter>,
    entries: Seq<(u32, PostingFilter)>,
    count: int,
) -> bool {
    &&& forall|t: u32| #[trigger]
        after.contains_key(t) <==> before.contains_key(t) || entry_among(entries, count, t)
    &&& forall|t: u32| #[trigger]
        after.contains_key(t) ==> after[t] == (if entry_among(entries, count, t) {
            union_filter(
                if before.contains_key(t) {
                    before[t]
                } else {
                    PostingFilter { next_mask: 0, loc_mask: 0 }
                },
                entry_value(entries, count, t),
            )
        } else {
            before[t]
        })
}

fn merge_entries(filters: &mut HashMap<u32, PostingFilter>, entries: &Vec<(u32, PostingFilter)>)
    requires
        strictly_ascending(entry_keys(entries@)),
    ensures
        merged_entries(old(filters)@, final(filters)@, entries@, entries@.len() as int),
{
    broadcast use vstd::std_specs::hash::group_hash_axioms;

    let ghost before = filters@;
    let mut i: usize = 0;
    while i < entries.len()
        invariant
            strictly_ascending(entry_keys(entries@)),
            before == old(filters)@,
            i <= entries@.len(),
            merged_entries(before, filters@, entries@, i as int),
        decreases entries@.len() - i,
    {
        let (trigram, filter) = entries[i];
        let ghost mid = filters@;
        let previous: PostingFilter = match filters.get(&trigram) {
            Some(previous) => *previous,
            None => PostingFilter { next_mask: 0, loc_mask: 0 },
        };
        filters.insert(trigram, merge_filter(previous, filter));
        proof {
            let keys = entry_keys(entries@);
            assert(!entry_among(entries@, i as int, trigram)) by {
                if entry_among(entries@, i as int, trigram) {
                    let k = choose|k: int|
                        0 <= k < i && (#[trigger] entries@[k]).0 == trigram;
                    assert(keys[k] < keys[i as int]);
                }
            }
            assert(entries@[i as int].0 == trigram);
            assert forall|t: u32| entry_among(entries@, i + 1, t) == (entry_among(
                entries@,
                i as int,
                t,
            ) || t == trigram) by {
                if entry_among(entries@, i + 1, t) && t != trigram {
                    let k = choose|k: int| 0 <= k < i + 1 && (#[trigger] entries@[k]).0 == t;
                    assert(0 <= k < i);
                }
            }
            assert forall|t: u32| entry_among(entries@, i + 1, t) implies entry_value(
                entries@,
                i + 1,
                t,
            ) == (if t == trigram {
                filter
            } else {
                entry_value(entries@, i as int, t)
            }) by {
                let k = choose|k: int| 0 <= k < i + 1 && (#[trigger] entries@[k]).0 == t;
                if t == trigram {
                    assert(k == i) by {
                        if k < i {
                            assert(keys[k] < keys[i as int]);
                        }
                    }
                } else {
                    let m = choose|m: int| 0 <= m < i && (#[trigger] entries@[m]).0 == t;
                    assert(entry_among(entries@, i as int, t));
                    assert(keys[k] == keys[m]);
                    if k < m {
                        assert(keys[k] < keys[m]);
                    }
                    if m < k {
                        assert(keys[m] < keys[k]);
                    }
                }
            }
        }
        i += 1;
    }
}

proof fn lemma_append_new_step(list: Seq<u32>, keys: Seq<u32>, count: int)
    requires
        0 <= count < keys.len(),
    ensures
        append_new(list, keys.take(count + 1)) == (if append_new(list, keys.take(count)).contains(
            keys[count],
        ) {
            append_new(list, keys.take(count))
        } else {
            append_new(list, keys.take(count)).push(keys[count])
        }),
{
    assert(keys.take(count + 1).drop_last() =~= keys.take(count));
}

fn push_new_trigrams(list: &mut Vec<u32>, entries: &Vec<(u32, PostingFilter)>)
    ensures
        final(list)@ == append_new(old(list)@, entry_keys(entries@)),
{
    let ghost before = list@;
    let ghost keys = entry_keys(entries@);
    let mut i: usize = 0;
    assert(keys.take(0) =~= Seq::<u32>::empty());
    while i < entries.len()
        invariant
            before == old(list)@,
            keys == entry_keys(entries@),
            i <= entries@.len(),
            list@ == append_new(before, keys.take(i as int)),
        decreases entries@.len() - i,
    {
        let trigram: u32 = entries[i].0;
        proof {
            lemma_append_new_step(before, keys, i as int);
            assert(keys[i as int] == trigram);
        }
        if !holds(list, trigram) {
            list.push(trigram);
        }
        i += 1;
    }
    assert(keys.take(i as int) =~= keys);
}

pub fn holds(list: &Vec<u32>, value: u32) -> (found: bool)
    ensures
        found == list@.contains(value),
{
    let mut i: usize = 0;
    while i < list.len()
        invariant
            i <= list@.len(),
            forall|k: int| 0 <= k < i ==> #[trigger] list@[k] != value,
        decreases list@.len() - i,
    {
        if list[i] == value {
            assert(list@[i as int] == value);
            return true;
        }
        i += 1;
    }
    false
}

fn add_run_to_and_query(query: &mut RegexQuery, run: &Vec<u8>, Ghost(runs): Ghost<Seq<Seq<u8>>>)
    requires
        runs.len() > 0,
        runs.last() == run@,
        old(query).and_trigrams@ == all_run_trigrams(runs.drop_last()),
        merges_runs(old(query).and_filters@, runs.drop_last()),
    ensures
        final(query).and_trigrams@ == all_run_trigrams(runs),
        merges_runs(final(query).and_filters@, runs),
        final(query).or_groups == old(query).or_groups,
        final(query).or_filters == old(query).or_filters,
{
    let entries = trigram_filters(run.as_slice());
    let ghost before = query.and_filters@;
    push_new_trigrams(&mut query.and_trigrams, &entries);
    merge_entries(&mut query.and_filters, &entries);
    proof {
        lemma_run_trigrams(entry_keys(entries@), run@);
        lemma_merge_one_run(before, query.and_filters@, runs, entries@);
    }
}

/// The trigrams of a group of runs in ascending order, and their masks.
fn group_trigrams(group: &Vec<Vec<u8>>) -> (result: (Vec<u32>, HashMap<u32, PostingFilter>))
    ensures
        lists_group(result.0@, run_views(group@)),
        merges_runs(result.1@, run_views(group@)),
{
    let ghost runs = run_views(group@);
    let mut trigrams: Vec<u32> = Vec::new();
    let mut filters: HashMap<u32, PostingFilter> = HashMap::new();
    let mut i: usize = 0;
    while i < group.len()
        invariant
            runs == run_views(group@),
            i <= group@.len(),
            merges_runs(filters@, runs.take(i as int)),
            forall|t: u32| #[trigger]
                trigrams@.contains(t) <==> runs_hold(runs.take(i as int), t),
        decreases group@.len() - i,
    {
        let entries = trigram_filters(group[i].as_slice());
        let ghost before = filters@;
        let ghost listed = trigrams@;
        let ghost next = runs.take(i + 1);
        push_new_trigrams(&mut trigrams, &entries);
        merge_entries(&mut filters, &entries);
        proof {
            assert(next.drop_last() =~= runs.take(i as int));
            assert(next.last() == group@[i as int]@);
            lemma_merge_one_run(before, filters@, next, entries@);
            assert forall|t: u32| #[trigger] trigrams@.contains(t) <==> runs_hold(next, t) by {
                lemma_append_new_members(listed, entry_keys(entries@), t);
                assert(filters@.contains_key(t) <==> runs_hold(next, t));
                assert(before.contains_key(t) <==> runs_hold(runs.take(i as int), t));
                assert(entry_among(entries@, entries@.len() as int, t) <==> entry_keys(
                    entries@,
                ).contains(t)) by {
                    if entry_keys(entries@).contains(t) {
                        let k = entry_keys(entries@).index_of(t);
                        assert(entries@[k].0 == t);
                    }
                    if entry_among(entries@, entries@.len() as int, t) {
                        let k = choose|k: int|
                            0 <= k < entries@.len() as int && (#[trigger] entries@[k]).0 == t;
                        assert(entry_keys(entries@)[k] == t);
                    }
                }
            }
        }
        i += 1;
    }
    assert(runs.take(i as int) =~= runs);
    let sorted = crate::order::sort_and_dedup(&trigrams);
    assert forall|t: u32| #[trigger] sorted@.contains(t) <==> runs_hold(runs, t) by {
        assert(sorted@.contains(t) <==> trigrams@.contains(t));
    }
    (sorted, filters)
}

pub proof fn lemma_append_new_members(list: Seq<u32>, more: Seq<u32>, value: u32)
    ensures
        append_new(list, more).contains(value) <==> list.contains(value) || more.contains(value),
    decreases more.len(),
{
    if more.len() > 0 {
        let prev = more.drop_last();
        let earlier = append_new(list, prev);
        lemma_append_new_members(list, prev, value);
        lemma_append_new_members(list, prev, more.last());
        assert(more.contains(value) <==> prev.contains(value) || value == more.last()) by {
            if more.contains(value) {
                let i = more.index_of(value);
                if i < prev.len() {
                    assert(prev[i] == value);
                }
            }
            if prev.contains(value) {
                let i = prev.index_of(value);
                assert(more[i] == value);
            }
            assert(more[more.len() - 1] == more.last());
        }
        if !earlier.contains(more.last()) {
            let pushed = earlier.push(more.last());
            assert(pushed.contains(value) <==> earlier.contains(value) || value == more.last())
                by {
                if earlier.contains(value) {
                    let i = earlier.index_of(value);
                    assert(pushed[i] == value);
                }
                assert(pushed[earlier.len() as int] == more.last());
                if pushed.contains(value) {
                    let i = pushed.index_of(value);
                    if i < earlier.len() {
                        assert(earlier[i] == value);
                    }
                }
            }
        }
    }
}

impl QueryBuild {
    /// The trigrams that the runs come down to.
    pub fn into_query(self) -> (query: RegexQuery)
        ensures
            query.asks_for(self@),
    {
        let mut query = RegexQuery::unrestricted();
        let ghost and_runs = self@.and_runs;
        let ghost or_groups = self@.or_groups;
        let mut i: usize = 0;
        proof {
            assert(and_runs.take(0) =~= no_runs().and_runs);
            assert(or_groups.take(0) =~= no_runs().or_groups);
        }
        while i < self.and_runs.len()
            invariant
                and_runs == self@.and_runs,
                i <= self.and_runs@.len(),
                query.and_trigrams@ == all_run_trigrams(and_runs.take(i as int)),
                merges_runs(query.and_filters@, and_runs.take(i as int)),
                query.or_groups@.len() == 0,
                query.or_filters@.len() == 0,
            decreases self.and_runs@.len() - i,
        {
            let ghost next = and_runs.take(i + 1);
            proof {
                assert(next.drop_last() =~= and_runs.take(i as int));
                assert(next.last() == self.and_runs@[i as int]@);
            }
            add_run_to_and_query(&mut query, &self.and_runs[i], Ghost(next));
            i += 1;
        }
        assert(and_runs.take(i as int) =~= and_runs);
        let mut j: usize = 0;
        while j < self.or_groups.len()
            invariant
                and_runs == self@.and_runs,
                or_groups == self@.or_groups,
                j <= self.or_groups@.len(),
                query.and_trigrams@ == all_run_trigrams(and_runs),
                merges_runs(query.and_filters@, and_runs),
                query.or_groups@.len() == useful_groups(or_groups.take(j as int)).len(),
                query.or_filters@.len() == useful_groups(or_groups.take(j as int)).len(),
                forall|k: int|
                    0 <= k < query.or_groups@.len() ==> lists_group(
                        (#[trigger] query.or_groups@[k])@,
                        useful_groups(or_groups.take(j as int))[k],
                    ),
                forall|k: int|
                    0 <= k < query.or_filters@.len() ==> merges_runs(
                        (#[trigger] query.or_filters@[k])@,
                        useful_groups(or_groups.take(j as int))[k],
                    ),
            decreases self.or_groups@.len() - j,
        {
            let (trigrams, filters) = group_trigrams(&self.or_groups[j]);
            proof {
                let next = or_groups.take(j + 1);
                let runs = run_views(self.or_groups@[j as int]@);
                assert(next.drop_last() =~= or_groups.take(j as int));
                assert(next.last() == runs);
                if trigrams@.len() > 0 {
                    assert(trigrams@.contains(trigrams@[0]));
                    assert(runs_hold(runs, trigrams@[0]));
                } else {
                    assert forall|t: u32| !runs_hold(runs, t) by {
                        assert(!trigrams@.contains(t));
                    }
                }
            }
            if trigrams.len() > 0 {
                query.or_groups.push(trigrams);
                query.or_filters.push(filters);
            }
            j += 1;
        }
        assert(or_groups.take(j as int) =~= or_groups);
        query
    }
}

// ---------------------------------------------------------------------------------------------
// From a pattern to its tree
// ---------------------------------------------------------------------------------------------

/// One node of a syntax tree, written without its parts. A syntax tree is a list of nodes: each
/// node stands before its parts, and the parts stand in reverse order.
#[derive(Debug)]
pub enum RegexNode {
    Empty,
    Class,
    Look,
    Literal(Vec<u8>),
    Capture,
    Repetition { min: u32 },
    Concat { parts: usize },
    Alternation { parts: usize },
}

/// The mathematical counterpart of a `RegexNode`.
pub enum NodeShape {
    Empty,
    Class,
    Look,
    Literal(Seq<u8>),
    Capture,
    Repetition { min: u32 },
    Concat { parts: usize },
    Alternation { parts: usize },
}

impl View for RegexNode {
    type V = NodeShape;

    open spec fn view(&self) -> NodeShape {
        match self {
            RegexNode::Empty => NodeShape::Empty,
            RegexNode::Class => NodeShape::Class,
            RegexNode::Look => NodeShape::Look,
            RegexNode::Literal(bytes) => NodeShape::Literal(bytes@),
            RegexNode::Capture => NodeShape::Capture,
            RegexNode::Repetition { min } => NodeShape::Repetition { min: *min },
            RegexNode::Concat { parts } => NodeShape::Concat { parts: *parts },
            RegexNode::Alternation { parts } => NodeShape::Alternation { parts: *parts },
        }
    }
}

pub open spec fn node_views(nodes: Seq<RegexNode>) -> Seq<NodeShape> {
    nodes.map_values(|node: RegexNode| node@)
}

pub open spec fn smaller(a: int, b: int) -> int {
    if a < b {
        a
    } else {
        b
    }
}

/// The last `count` of `shapes`, or all of them where there are fewer.
pub open spec fn last_shapes(shapes: Seq<RegexShape>, count: int) -> Seq<RegexShape> {
    shapes.skip(shapes.len() - smaller(count, shapes.len() as int))
}

/// `shapes` without the last `count`.
pub open spec fn first_shapes(shapes: Seq<RegexShape>, count: int) -> Seq<RegexShape> {
    shapes.take(shapes.len() - smaller(count, shapes.len() as int))
}

pub open spec fn last_shape(shapes: Seq<RegexShape>) -> RegexShape {
    if shapes.len() == 0 {
        RegexShape::Empty
    } else {
        shapes.last()
    }
}

/// A node takes the trees of its parts off the end and puts its own tree there.
pub open spec fn add_node(shapes: Seq<RegexShape>, node: NodeShape) -> Seq<RegexShape> {
    match node {
        NodeShape::Empty => shapes.push(RegexShape::Empty),
        NodeShape::Class => shapes.push(RegexShape::Class),
        NodeShape::Look => shapes.push(RegexShape::Look),
        NodeShape::Literal(bytes) => shapes.push(RegexShape::Literal(bytes)),
        NodeShape::Capture => first_shapes(shapes, 1).push(
            RegexShape::Capture(Box::new(last_shape(shapes))),
        ),
        NodeShape::Repetition { min } => first_shapes(shapes, 1).push(
            RegexShape::Repetition { min, sub: Box::new(last_shape(shapes)) },
        ),
        NodeShape::Concat { parts } => first_shapes(shapes, parts as int).push(
            RegexShape::Concat(last_shapes(shapes, parts as int)),
        ),
        NodeShape::Alternation { parts } => first_shapes(shapes, parts as int).push(
            RegexShape::Alternation(last_shapes(shapes, parts as int)),
        ),
    }
}

/// The trees that a list of nodes spells, the last one written first.
pub open spec fn shapes_of(nodes: Seq<NodeShape>) -> Seq<RegexShape>
    decreases nodes.len(),
{
    if nodes.len() == 0 {
        Seq::empty()
    } else {
        add_node(shapes_of(nodes.skip(1)), nodes[0])
    }
}

pub open spec fn tree_shapes(trees: Seq<RegexTree>) -> Seq<RegexShape> {
    trees.map_values(|tree: RegexTree| tree.shape())
}

fn take_last(trees: &mut Vec<RegexTree>) -> (last: RegexTree)
    ensures
        last.shape() == last_shape(tree_shapes(old(trees)@)),
        tree_shapes(final(trees)@) == first_shapes(tree_shapes(old(trees)@), 1),
{
    let ghost before = trees@;
    let last = match trees.pop() {
        Some(tree) => tree,
        None => RegexTree::Empty,
    };
    proof {
        assert(before.len() > 0 ==> trees@ == before.drop_last());
        assert(tree_shapes(trees@) =~= first_shapes(tree_shapes(before), 1));
    }
    last
}

fn take_parts(trees: &mut Vec<RegexTree>, count: usize) -> (parts: Vec<RegexTree>)
    ensures
        tree_shapes(parts@) == last_shapes(tree_shapes(old(trees)@), count as int),
        tree_shapes(final(trees)@) == first_shapes(tree_shapes(old(trees)@), count as int),
{
    let ghost before = trees@;
    let kept: usize = if count < trees.len() {
        trees.len() - count
    } else {
        0
    };
    let parts = trees.split_off(kept);
    proof {
        assert(tree_shapes(parts@) =~= last_shapes(tree_shapes(before), count as int));
        assert(tree_shapes(trees@) =~= first_shapes(tree_shapes(before), count as int));
    }
    parts
}

/// The tree that a list of nodes spells.
pub fn tree_from_nodes(nodes: &Vec<RegexNode>) -> (tree: RegexTree)
    ensures
        tree.shape() == last_shape(shapes_of(node_views(nodes@))),
{
    let ghost views = node_views(nodes@);
    let mut trees: Vec<RegexTree> = Vec::new();
    let mut i: usize = nodes.len();
    proof {
        assert(views.skip(i as int) =~= Seq::<NodeShape>::empty());
        assert(tree_shapes(trees@) =~= Seq::<RegexShape>::empty());
    }
    while i > 0
        invariant
            views == node_views(nodes@),
            i <= nodes@.len(),
            tree_shapes(trees@) == shapes_of(views.skip(i as int)),
        decreases i,
    {
        i -= 1;
        let ghost before = tree_shapes(trees@);
        proof {
            assert(views.skip(i as int).skip(1) =~= views.skip(i + 1));
            assert(views.skip(i as int)[0] == nodes@[i as int]@);
        }
        let tree = match &nodes[i] {
            RegexNode::Empty => RegexTree::Empty,
            RegexNode::Class => RegexTree::Class,
            RegexNode::Look => RegexTree::Look,
            RegexNode::Literal(bytes) => RegexTree::Literal(crate::path::copy_bytes(bytes)),
            RegexNode::Capture => RegexTree::Capture(Box::new(take_last(&mut trees))),
            RegexNode::Repetition { min } => RegexTree::Repetition {
                min: *min,
                sub: Box::new(take_last(&mut trees)),
            },
            RegexNode::Concat { parts } => {
                let parts = take_parts(&mut trees, *parts);
                let tree = RegexTree::Concat(parts);
                assert(tree.shape()->Concat_0 =~= tree_shapes(parts@));
                tree
            },
            RegexNode::Alternation { parts } => {
                let parts = take_parts(&mut trees, *parts);
                let tree = RegexTree::Alternation(parts);
                assert(tree.shape()->Alternation_0 =~= tree_shapes(parts@));
                tree
            },
        };
        let ghost rest = trees@;
        trees.push(tree);
        assert(tree_shapes(trees@) =~= tree_shapes(rest).push(tree.shape()));
    }
    assert(views.skip(0) =~= views);
    take_last(&mut trees)
}

/// What a parsed pattern comes down to. A pattern that does not parse restricts nothing.
pub open spec fn pattern_runs(nodes: Option<Seq<NodeShape>>) -> QueryRuns {
    match nodes {
        Some(nodes) => query_runs(last_shape(shapes_of(nodes))),
        None => no_runs(),
    }
}

/// The query of a parsed pattern.
pub fn query_for_nodes(nodes: Option<Vec<RegexNode>>) -> (query: RegexQuery)
    ensures
        query.asks_for(
            pattern_runs(
                match nodes {
                    Some(nodes) => Some(node_views(nodes@)),
                    None => None,
                },
            ),
        ),
{
    match nodes {
        Some(nodes) => build_query(&tree_from_nodes(&nodes)).into_query(),
        None => RegexQuery::unrestricted(),
    }
}

/// The query of a regular expression.
pub fn decompose_regex(pattern: &str) -> (query: RegexQuery)
    ensures
        query.asks_for(pattern_runs(parsed_regex(pattern@))),
{
    query_for_nodes(parse_regex(pattern))
}

/// A search pattern that was found valid.
#[derive(Debug)]
pub enum CompiledPattern {
    Literal(LiteralSearch),
    /// A regular expression with the text and the flag that it was compiled from.
    Regex { compiled: regex::bytes::Regex, pattern: String, case_insensitive: bool },
}

impl CompiledPattern {
    /// The regular expression is the one of its text and flag.
    pub open spec fn is_consistent(&self) -> bool {
        match self {
            CompiledPattern::Literal(_) => true,
            CompiledPattern::Regex { compiled, pattern, case_insensitive } => regex_source(
                *compiled,
            ) == (pattern@, *case_insensitive),
        }
    }

    /// Compiles a regular expression, where that can be done.
    pub fn regex(pattern: &str, case_insensitive: bool) -> (result: Option<CompiledPattern>)
        ensures
            match result {
                Some(compiled) => {
                    &&& compiled.is_consistent()
                    &&& compiled matches CompiledPattern::Regex {
                        pattern: text,
                        case_insensitive: flag,
                        ..
                    } && text@ == pattern@ && flag == case_insensitive
                },
                None => true,
            },
    {
        match compile_regex(pattern, case_insensitive) {
            Some(compiled) => Some(
                CompiledPattern::Regex {
                    compiled,
                    pattern: pattern.to_owned(),
                    case_insensitive,
                },
            ),
            None => None,
        }
    }
}

/// Bytes to look for. Where ASCII case does not count, the needle is in lower case.
#[derive(Debug)]
pub struct LiteralSearch {
    pub needle: Vec<u8>,
    pub case_insensitive_ascii: bool,
}

/// What every match of a search pattern holds.
pub open spec fn grep_pattern_runs(pattern: CompiledPattern) -> QueryRuns {
    match pattern {
        CompiledPattern::Literal(literal) => query_runs(RegexShape::Literal(literal.needle@)),
        CompiledPattern::Regex { pattern, case_insensitive, .. } => if case_insensitive {
            pattern_runs(parsed_regex("(?i:"@ + pattern@ + ")"@))
        } else {
            pattern_runs(parsed_regex(pattern@))
        },
    }
}

/// The query of a search pattern. Case folding is asked of the parser, so that a letter which folds
/// onto letters outside ASCII does not become a byte that every match must hold.
pub fn decompose_grep_pattern(pattern: &CompiledPattern) -> (query: RegexQuery)
    ensures
        query.asks_for(grep_pattern_runs(*pattern)),
{
    match pattern {
        CompiledPattern::Literal(literal) => {
            let tree = RegexTree::Literal(crate::path::copy_bytes(&literal.needle));
            build_query(&tree).into_query()
        },
        CompiledPattern::Regex { pattern, case_insensitive, .. } => {
            if *case_insensitive {
                let mut folded: String = "(?i:".to_owned();
                folded.append(pattern.as_str());
                folded.append(")");
                decompose_regex(folded.as_str())
            } else {
                decompose_regex(pattern.as_str())
            }
        },
    }
}

} // verus!
