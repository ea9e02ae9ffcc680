//! Laws of bringing an index up to date: how a file is judged, what a check asks for, and how a list of
//! changes is read.

use crate::file_entry::FileView;
use crate::file_entry::SearchFileMetadata;
use crate::outside::blake3_hash;
use crate::path::PathKey;
use crate::path_text::accepted_path;
use crate::path_text::path_parts;
use crate::path_text::PathProbe;
use crate::refresh::change_steps;
use crate::refresh::checked_file;
use crate::refresh::diff_changes;
use crate::refresh::is_next_missing;
use crate::refresh::judged;
use crate::refresh::line_change;
use crate::refresh::line_changes;
use crate::refresh::refresh_plan;
use crate::refresh::removals;
use crate::refresh::some_touched;
use crate::refresh::updates;
use crate::refresh::ChangeView;
use crate::refresh::FreshnessVerdict;
use crate::refresh::RefreshPlan;
use crate::refresh::StepView;
use crate::refresh::VerifyStrategy;
use crate::text::filled_lines;
use crate::text::pieces;
use crate::text::trimmed;
use crate::text_laws::lemma_filled_lines_come_one_by_one;
use crate::text_laws::lemma_texts_are_split_at_separators;
use vstd::prelude::*;
use vstd::utf8::encode_utf8;

verus! {

/// A file that is gone or cannot be read counts as deleted. One with other content is stale. One with
/// the same content is fresh; its new time and size are told where one of them is another. Where size
/// and time may decide and both are the same, the file is fresh and not read.
pub proof fn lemma_how_files_are_judged(
    file: FileView,
    now: SearchFileMetadata,
    strategy: VerifyStrategy,
    content: Seq<u8>,
    unread: Option<Seq<u8>>,
)
    ensures
        judged(file, None, strategy, unread) is Deleted,
        strategy is Strict || now.size != file.size || now.modified != file.modified ==> {
            &&& judged(file, Some(now), strategy, None) is Deleted
            &&& blake3_hash(content) != file.content_hash ==> judged(
                file,
                Some(now),
                strategy,
                Some(content),
            ) is Stale
            &&& blake3_hash(content) == file.content_hash && (now.size != file.size || now.modified
                != file.modified) ==> judged(file, Some(now), strategy, Some(content))
                == FreshnessVerdict::ContentFresh { new_mtime: now.modified, new_size: now.size }
        },
        now.size == file.size && now.modified == file.modified && blake3_hash(content)
            == file.content_hash ==> judged(file, Some(now), strategy, Some(content)) is HotFresh,
        strategy is StatFirst && now.size == file.size && now.modified == file.modified ==> judged(
            file,
            Some(now),
            strategy,
            unread,
        ) is HotFresh,
{
}

proof fn lemma_removals_are_lost_files(
    files: Seq<FileView>,
    found: Set<PathKey>,
    count: int,
    step: StepView,
)
    requires
        0 <= count <= files.len(),
    ensures
        removals(files, found, count).contains(step) <==> exists|i: int|
            0 <= i < count && (#[trigger] files[i]).path.len() > 0 && !found.contains(files[i].path)
                && step == StepView::Remove(files[i].path),
    decreases count,
{
    if count > 0 {
        lemma_removals_are_lost_files(files, found, count - 1, step);
        let earlier = removals(files, found, count - 1);
        let all = removals(files, found, count);
        if all.len() > earlier.len() {
            assert(all[earlier.len() as int] == StepView::Remove(files[count - 1].path));
        }
        if earlier.contains(step) {
            let k = earlier.index_of(step);
            assert(all[k] == step);
        }
        if all.contains(step) && !earlier.contains(step) {
            let k = all.index_of(step);
            if k < earlier.len() {
                assert(earlier[k] == step);
            }
            assert(step == StepView::Remove(files[count - 1].path));
        }
        if exists|i: int|
            0 <= i < count && (#[trigger] files[i]).path.len() > 0 && !found.contains(files[i].path)
                && step == StepView::Remove(files[i].path) {
            let i = choose|i: int|
                0 <= i < count && (#[trigger] files[i]).path.len() > 0 && !found.contains(
                    files[i].path,
                ) && step == StepView::Remove(files[i].path);
            if i == count - 1 {
                assert(all.contains(step));
            }
        }
    }
}

proof fn lemma_updates_are_stale_files(
    files: Seq<FileView>,
    found: Set<PathKey>,
    verdicts: Seq<FreshnessVerdict>,
    count: int,
    step: StepView,
)
    requires
        0 <= count <= files.len(),
    ensures
        updates(files, found, verdicts, count).contains(step) <==> exists|i: int|
            0 <= i < count && (#[trigger] files[i]).path.len() > 0 && found.contains(files[i].path)
                && (verdicts[i] is Stale || verdicts[i] is Deleted) && step == StepView::Update(
                files[i].path,
            ),
    decreases count,
{
    if count > 0 {
        lemma_updates_are_stale_files(files, found, verdicts, count - 1, step);
        let earlier = updates(files, found, verdicts, count - 1);
        let all = updates(files, found, verdicts, count);
        if all.len() > earlier.len() {
            assert(all[earlier.len() as int] == StepView::Update(files[count - 1].path));
        }
        if earlier.contains(step) {
            let k = earlier.index_of(step);
            assert(all[k] == step);
        }
        if all.contains(step) && !earlier.contains(step) {
            let k = all.index_of(step);
            if k < earlier.len() {
                assert(earlier[k] == step);
            }
            assert(step == StepView::Update(files[count - 1].path));
        }
        if exists|i: int|
            0 <= i < count && (#[trigger] files[i]).path.len() > 0 && found.contains(files[i].path)
                && (verdicts[i] is Stale || verdicts[i] is Deleted) && step == StepView::Update(
                files[i].path,
            ) {
            let i = choose|i: int|
                0 <= i < count && (#[trigger] files[i]).path.len() > 0 && found.contains(
                    files[i].path,
                ) && (verdicts[i] is Stale || verdicts[i] is Deleted) && step == StepView::Update(
                    files[i].path,
                );
            if i == count - 1 {
                assert(all.contains(step));
            }
        }
    }
}

/// A check removes the files that a walk did not find and no others, and updates those that it found
/// and that are stale or cannot be read, and no others. Where a file's content is fresh, its time and
/// size are taken over; nothing else of a file changes.
pub proof fn lemma_what_a_check_asks_for(
    files: Seq<FileView>,
    found: Set<PathKey>,
    verdicts: Seq<FreshnessVerdict>,
    path: PathKey,
    at: int,
)
    requires
        verdicts.len() == files.len(),
        0 <= at < files.len(),
    ensures
        ({
            let count = files.len() as int;
            let removed = removals(files, found, count);
            let updated = updates(files, found, verdicts, count);
            let checked = checked_file(files[at], found, verdicts[at]);
            &&& removed.contains(StepView::Remove(path)) <==> path.len() > 0 && !found.contains(
                path,
            ) && exists|i: int| 0 <= i < count && (#[trigger] files[i]).path == path
            &&& !removed.contains(StepView::Update(path))
            &&& updated.contains(StepView::Update(path)) <==> path.len() > 0 && found.contains(path)
                && exists|i: int|
                0 <= i < count && (#[trigger] files[i]).path == path && (verdicts[i] is Stale
                    || verdicts[i] is Deleted)
            &&& !updated.contains(StepView::Remove(path))
            &&& checked.path == files[at].path
            &&& checked.content_hash == files[at].content_hash
            &&& verdicts[at] matches FreshnessVerdict::ContentFresh { new_mtime, new_size }
                ==> files[at].path.len() > 0 && found.contains(files[at].path) ==> checked.modified
                == new_mtime && checked.size == new_size
            &&& !(verdicts[at] is ContentFresh) || !found.contains(files[at].path) ==> checked
                == files[at]
            &&& some_touched(files, found, verdicts, count) <==> exists|i: int|
                0 <= i < count && (#[trigger] files[i]).path.len() > 0 && found.contains(
                    files[i].path,
                ) && verdicts[i] is ContentFresh
        }),
{
    let count = files.len() as int;
    lemma_removals_are_lost_files(files, found, count, StepView::Remove(path));
    lemma_removals_are_lost_files(files, found, count, StepView::Update(path));
    lemma_updates_are_stale_files(files, found, verdicts, count, StepView::Update(path));
    lemma_updates_are_stale_files(files, found, verdicts, count, StepView::Remove(path));
}

/// The removals come in the order of the files, and so do the updates.
pub proof fn lemma_checks_go_file_by_file(
    files: Seq<FileView>,
    found: Set<PathKey>,
    verdicts: Seq<FreshnessVerdict>,
    count: int,
)
    requires
        0 <= count <= files.len(),
    ensures
        removals(files, found, count) == Seq::new(count as nat, |i: int| i).filter(
            |i: int| files[i].path.len() > 0 && !found.contains(files[i].path),
        ).map_values(|i: int| StepView::Remove(files[i].path)),
        updates(files, found, verdicts, count) == Seq::new(count as nat, |i: int| i).filter(
            |i: int|
                files[i].path.len() > 0 && found.contains(files[i].path) && (verdicts[i] is Stale
                    || verdicts[i] is Deleted),
        ).map_values(|i: int| StepView::Update(files[i].path)),
    decreases count,
{
    reveal(Seq::filter);
    let all = Seq::new(count as nat, |i: int| i);
    let lost = |i: int| files[i].path.len() > 0 && !found.contains(files[i].path);
    let stale = |i: int|
        files[i].path.len() > 0 && found.contains(files[i].path) && (verdicts[i] is Stale
            || verdicts[i] is Deleted);
    let remove = |i: int| StepView::Remove(files[i].path);
    let update = |i: int| StepView::Update(files[i].path);
    if count > 0 {
        lemma_checks_go_file_by_file(files, found, verdicts, count - 1);
        assert(all.drop_last() =~= Seq::new((count - 1) as nat, |i: int| i));
        let front = all.drop_last();
        if lost(count - 1) {
            assert(front.filter(lost).push(count - 1).map_values(remove) =~= front.filter(
                lost,
            ).map_values(remove).push(remove(count - 1)));
        }
        if stale(count - 1) {
            assert(front.filter(stale).push(count - 1).map_values(update) =~= front.filter(
                stale,
            ).map_values(update).push(update(count - 1)));
        }
    } else {
        assert(removals(files, found, count) =~= all.filter(lost).map_values(remove));
        assert(updates(files, found, verdicts, count) =~= all.filter(stale).map_values(update));
    }
}

/// The next missing path is the first from a place on that leads to no file.
pub proof fn lemma_the_first_missing_path_is_told(
    ids: Map<PathKey, u32>,
    walked: Seq<PathKey>,
    from: int,
    next: Option<usize>,
    at: int,
)
    requires
        is_next_missing(ids, walked, from, next),
        0 <= from <= at < walked.len(),
        !ids.contains_key(walked[at]),
    ensures
        next is Some,
        from <= next->0 <= at,
        !ids.contains_key(walked[next->0 as int]),
{
}

/// An index with another size limit or other ignore rules is built anew. Else it is checked where the
/// commit is the same or not known, brought forward by the changes between the commits where both are
/// known, and built anew where only its own is not.
pub proof fn lemma_when_an_index_is_built_anew(
    same_size: bool,
    same_rules: bool,
    head: Option<Seq<char>>,
    current: Option<Seq<char>>,
    plan: RefreshPlan,
)
    requires
        refresh_plan(same_size, same_rules, head, current, plan),
    ensures
        !same_size ==> plan is Build,
        !same_rules ==> plan is Build,
        same_size && same_rules && current is None ==> plan is Verify,
        same_size && same_rules && head == current ==> plan is Verify,
        same_size && same_rules && head is None && current is Some ==> plan is Build,
        same_size && same_rules && head is Some && current is Some && head->0 != current->0 ==> (
        plan matches RefreshPlan::ApplyDiff { from, to } && from@ == head->0 && to@ == current->0),
{
}

// ---------------------------------------------------------------------------------------------
// Changes
// ---------------------------------------------------------------------------------------------

/// A line with a status and a path is a change of that path, a deletion where the status begins with
/// D; one with a status that begins with R and two paths is a rename from the first to the second. A
/// rename without its second path, and a line without a path, are no changes.
pub proof fn lemma_how_a_changed_file_is_read(
    status: Seq<char>,
    path: Seq<char>,
    new_path: Seq<char>,
)
    requires
        forall|i: int| 0 <= i < status.len() ==> #[trigger] status[i] != '\t',
        forall|i: int| 0 <= i < path.len() ==> #[trigger] path[i] != '\t',
        forall|i: int| 0 <= i < new_path.len() ==> #[trigger] new_path[i] != '\t',
        status.len() > 0,
    ensures
        status[0] != 'R' ==> line_change(status + seq!['\t'] + path) == Some(
            ChangeView::Single { deleted: status[0] == 'D', path: path_parts(encode_utf8(path)) },
        ),
        status[0] == 'R' ==> line_change(status + seq!['\t'] + (path + seq!['\t'] + new_path))
            == Some(
            ChangeView::Rename {
                old: path_parts(encode_utf8(path)),
                new: path_parts(encode_utf8(new_path)),
            },
        ),
        status[0] == 'R' ==> line_change(status + seq!['\t'] + path) is None,
        line_change(status) is None,
{
    lemma_texts_are_split_at_separators(new_path, Seq::empty(), '\t');
    lemma_texts_are_split_at_separators(path, new_path, '\t');
    lemma_texts_are_split_at_separators(status, path, '\t');
    lemma_texts_are_split_at_separators(status, path + seq!['\t'] + new_path, '\t');
    let two = pieces(status + seq!['\t'] + path, '\t');
    assert(two =~= seq![status, path]);
    let three = pieces(status + seq!['\t'] + (path + seq!['\t'] + new_path), '\t');
    assert(three =~= seq![status, path, new_path]);
}

proof fn lemma_changes_of_more_lines(lines: Seq<Seq<char>>, more: Seq<Seq<char>>, count: int)
    requires
        0 <= count <= more.len(),
    ensures
        line_changes(lines + more, lines.len() + count) == line_changes(lines, lines.len() as int)
            + line_changes(more, count),
    decreases count,
{
    let all = lines + more;
    let first = line_changes(lines, lines.len() as int);
    if count == 0 {
        lemma_changes_of_front(lines, more, lines.len() as int);
        assert(first + line_changes(more, 0) =~= first);
    } else {
        lemma_changes_of_more_lines(lines, more, count - 1);
        assert(all[lines.len() + count - 1] == more[count - 1]);
        let earlier = line_changes(more, count - 1);
        if let Some(change) = line_change(more[count - 1]) {
            assert((first + earlier).push(change) =~= first + earlier.push(change));
        }
    }
}

proof fn lemma_changes_of_front(lines: Seq<Seq<char>>, more: Seq<Seq<char>>, count: int)
    requires
        0 <= count <= lines.len(),
    ensures
        line_changes(lines + more, count) == line_changes(lines, count),
    decreases count,
{
    if count > 0 {
        lemma_changes_of_front(lines, more, count - 1);
        assert((lines + more)[count - 1] == lines[count - 1]);
    }
}

/// The changes of a text are those of its lines, one after the other.
pub proof fn lemma_changes_come_line_by_line(line: Seq<char>, rest: Seq<char>)
    requires
        forall|i: int| 0 <= i < line.len() ==> #[trigger] line[i] != '\n',
    ensures
        diff_changes(line + seq!['\n'] + rest) == diff_changes(line) + diff_changes(rest),
        diff_changes(line) == (if trimmed(line).len() == 0 {
            Seq::empty()
        } else {
            match line_change(trimmed(line)) {
                Some(change) => seq![change],
                None => Seq::empty(),
            }
        }),
{
    lemma_filled_lines_come_one_by_one(line, rest);
    let (a, b) = (filled_lines(line), filled_lines(rest));
    lemma_changes_of_more_lines(a, b, b.len() as int);
    reveal_with_fuel(line_changes, 2);
    if a.len() > 0 {
        assert(a[0] == trimmed(line));
        assert(line_changes(a, 1) =~= diff_changes(line));
        assert(line_changes(a, 0) =~= Seq::empty());
    }
    assert(diff_changes(line) =~= (if trimmed(line).len() == 0 {
        Seq::empty()
    } else {
        match line_change(trimmed(line)) {
            Some(change) => seq![change],
            None => Seq::empty(),
        }
    }));
}

/// A rename removes the old path and then updates the new one, where both lie below the root; a
/// deleted file, or one that is not there, is removed; any other is updated. A path that leads out of
/// the root asks for nothing.
pub proof fn lemma_what_a_change_asks_for(
    root: PathKey,
    old: PathKey,
    path: PathKey,
    old_probe: PathProbe,
    probe: PathProbe,
    exists_now: bool,
)
    ensures
        ({
            let rename = change_steps(
                root,
                ChangeView::Rename { old, new: path },
                old_probe,
                probe,
                exists_now,
            );
            let deletion = change_steps(
                root,
                ChangeView::Single { deleted: true, path },
                old_probe,
                probe,
                exists_now,
            );
            let change = change_steps(
                root,
                ChangeView::Single { deleted: false, path },
                old_probe,
                probe,
                exists_now,
            );
            match accepted_path(root, path, probe) {
                None => rename.len() == 0 && deletion.len() == 0 && change.len() == 0,
                Some(to) => {
                    &&& deletion == seq![StepView::Remove(to)]
                    &&& exists_now ==> change == seq![StepView::Update(to)]
                    &&& !exists_now ==> change == seq![StepView::Remove(to)]
                    &&& accepted_path(root, old, old_probe) is None ==> rename.len() == 0
                    &&& accepted_path(root, old, old_probe) matches Some(from) ==> rename == seq![
                        StepView::Remove(from),
                        StepView::Update(to),
                    ]
                },
            }
        }),
{
}

} // verus!
