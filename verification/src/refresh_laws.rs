//! Laws of refreshing: an index that was brought up to date knows no file that is not there, and every
//! file that is.

use crate::file_entry::FileView;
use crate::index::after_removal;
use crate::index::table_key;
use crate::ingest::added_as;
use crate::ingest::PreparedView;
use crate::path::PathKey;
use crate::refresh::is_gone;
use crate::refresh::removals;
use crate::refresh::updates;
use crate::refresh::FreshnessVerdict;
use crate::refresh::StepView;
use crate::snapshot::SnapshotView;
use vstd::prelude::*;

verus! {

/// What a step meets on disk: the canonical form of its path, and what becomes of the path.
pub struct StepInput {
    pub canonical: PathKey,
    pub file: PreparedView,
}

/// The index after a step.
pub open spec fn after_step(
    view: SnapshotView,
    base_file_count: u32,
    step: StepView,
    input: StepInput,
) -> SnapshotView {
    match step {
        StepView::Remove(path) => after_removal(view, base_file_count, path, input.canonical),
        StepView::Update(path) => added_as(
            after_removal(view, base_file_count, path, input.canonical),
            path,
            input.file,
        ),
    }
}

/// The index after the first `count` steps.
pub open spec fn after_steps(
    view: SnapshotView,
    base_file_count: u32,
    steps: Seq<StepView>,
    inputs: Seq<StepInput>,
    count: int,
) -> SnapshotView
    decreases count,
{
    if count <= 0 {
        view
    } else {
        after_step(
            after_steps(view, base_file_count, steps, inputs, count - 1),
            base_file_count,
            steps[count - 1],
            inputs[count - 1],
        )
    }
}

proof fn lemma_removal_narrows(
    view: SnapshotView,
    base_file_count: u32,
    path: PathKey,
    canonical: PathKey,
)
    ensures
        forall|p: PathKey| #[trigger]
            after_removal(view, base_file_count, path, canonical).ids.contains_key(p)
                ==> view.ids.contains_key(p) && p != path,
{
    let key = table_key(view.ids, path, canonical);
}

proof fn lemma_removals_narrow(
    view: SnapshotView,
    base_file_count: u32,
    steps: Seq<StepView>,
    inputs: Seq<StepInput>,
    count: int,
)
    requires
        0 <= count <= steps.len(),
        forall|i: int| 0 <= i < count ==> (#[trigger] steps[i]) is Remove,
    ensures
        forall|p: PathKey| #[trigger]
            after_steps(view, base_file_count, steps, inputs, count).ids.contains_key(p)
                ==> view.ids.contains_key(p) && forall|i: int|
                0 <= i < count ==> #[trigger] steps[i] != StepView::Remove(p),
    decreases count,
{
    if count > 0 {
        lemma_removals_narrow(view, base_file_count, steps, inputs, count - 1);
        let before = after_steps(view, base_file_count, steps, inputs, count - 1);
        assert(steps[count - 1] is Remove);
        let path = steps[count - 1]->Remove_0;
        lemma_removal_narrows(before, base_file_count, path, inputs[count - 1].canonical);
    }
}

proof fn lemma_updates_stay_inside(
    view: SnapshotView,
    base_file_count: u32,
    steps: Seq<StepView>,
    inputs: Seq<StepInput>,
    from: int,
    count: int,
    found: Set<PathKey>,
)
    requires
        0 <= from <= count <= steps.len(),
        forall|i: int|
            from <= i < count ==> ((#[trigger] steps[i]) matches StepView::Update(path)
                && found.contains(path)),
    ensures
        forall|p: PathKey| #[trigger]
            after_steps(view, base_file_count, steps, inputs, count).ids.contains_key(p)
                ==> after_steps(view, base_file_count, steps, inputs, from).ids.contains_key(p)
                || found.contains(p),
    decreases count,
{
    if count > from {
        lemma_updates_stay_inside(
            view,
            base_file_count,
            steps,
            inputs,
            from,
            count - 1,
            found,
        );
        let before = after_steps(view, base_file_count, steps, inputs, count - 1);
        assert(steps[count - 1] is Update);
        let path = steps[count - 1]->Update_0;
        lemma_removal_narrows(before, base_file_count, path, inputs[count - 1].canonical);
    }
}

proof fn lemma_removals(files: Seq<FileView>, found: Set<PathKey>, count: int)
    requires
        0 <= count <= files.len(),
    ensures
        forall|i: int|
            0 <= i < removals(files, found, count).len() ==> (#[trigger] removals(
                files,
                found,
                count,
            )[i]) is Remove,
        forall|k: int|
            0 <= k < count && is_gone(#[trigger] files[k], found) ==> removals(
                files,
                found,
                count,
            ).contains(StepView::Remove(files[k].path)),
    decreases count,
{
    if count > 0 {
        lemma_removals(files, found, count - 1);
        let earlier = removals(files, found, count - 1);
        let all = removals(files, found, count);
        assert forall|k: int| 0 <= k < count && is_gone(#[trigger] files[k], found) implies all.contains(
            StepView::Remove(files[k].path)) by {
            if k < count - 1 {
                let i = earlier.index_of(StepView::Remove(files[k].path));
                assert(all[i] == earlier[i]);
            } else {
                assert(all[earlier.len() as int] == StepView::Remove(files[k].path));
            }
        }
    }
}

proof fn lemma_updates(
    files: Seq<FileView>,
    found: Set<PathKey>,
    verdicts: Seq<FreshnessVerdict>,
    count: int,
)
    requires
        0 <= count <= files.len(),
    ensures
        forall|i: int|
            0 <= i < updates(files, found, verdicts, count).len() ==> ((#[trigger] updates(
                files,
                found,
                verdicts,
                count,
            )[i]) matches StepView::Update(path) && found.contains(path)),
    decreases count,
{
    if count > 0 {
        lemma_updates(files, found, verdicts, count - 1);
    }
}

/// Once the steps of a check are done, every path that leads to a file was found by the walk.
pub proof fn lemma_refresh_drops_lost_files(
    view: SnapshotView,
    base_file_count: u32,
    found: Set<PathKey>,
    files: Seq<FileView>,
    verdicts: Seq<FreshnessVerdict>,
    inputs: Seq<StepInput>,
    path: PathKey,
)
    requires
        forall|p: PathKey| #[trigger]
            view.ids.contains_key(p) ==> view.ids[p] < files.len() && files[view.ids[p] as int].path
                == p,
        path.len() > 0,
    ensures
        ({
            let count = files.len() as int;
            let steps = removals(files, found, count) + updates(files, found, verdicts, count);
            after_steps(
                view,
                base_file_count,
                steps,
                inputs,
                steps.len() as int,
            ).ids.contains_key(path) ==> found.contains(path)
        }),
{
    let count = files.len() as int;
    let first = removals(files, found, count);
    let second = updates(files, found, verdicts, count);
    let steps = first + second;
    let middle = first.len() as int;
    lemma_removals(files, found, count);
    lemma_updates(files, found, verdicts, count);
    assert forall|i: int| 0 <= i < middle implies (#[trigger] steps[i]) is Remove by {
        assert(steps[i] == first[i]);
    }
    assert forall|i: int| middle <= i < steps.len() implies ((#[trigger] steps[i]) matches StepView::Update(
        path,
    ) && found.contains(path)) by {
        assert(steps[i] == second[i - middle]);
    }
    lemma_removals_narrow(view, base_file_count, steps, inputs, middle);
    lemma_updates_stay_inside(
        view,
        base_file_count,
        steps,
        inputs,
        middle,
        steps.len() as int,
        found,
    );
    let after = after_steps(view, base_file_count, steps, inputs, steps.len() as int);
    let between = after_steps(view, base_file_count, steps, inputs, middle);
    if after.ids.contains_key(path) && !found.contains(path) {
        assert(between.ids.contains_key(path));
        assert(view.ids.contains_key(path));
        let k = view.ids[path] as int;
        assert(is_gone(files[k], found));
        let i = first.index_of(StepView::Remove(path));
        assert(steps[i] == StepView::Remove(path));
    }
}

/// The index after those of the first `count` walked paths that it did not hold when their turn came
/// were put into it.
pub open spec fn after_additions(
    view: SnapshotView,
    base_file_count: u32,
    walked: Seq<PathKey>,
    inputs: Seq<StepInput>,
    count: int,
) -> SnapshotView
    decreases count,
{
    if count <= 0 {
        view
    } else {
        let before = after_additions(view, base_file_count, walked, inputs, count - 1);
        if before.ids.contains_key(walked[count - 1]) {
            before
        } else {
            after_step(
                before,
                base_file_count,
                StepView::Update(walked[count - 1]),
                inputs[count - 1],
            )
        }
    }
}

/// What `next_missing` passes over is left as it is.
pub proof fn lemma_held_paths_are_passed_over(
    view: SnapshotView,
    base_file_count: u32,
    walked: Seq<PathKey>,
    inputs: Seq<StepInput>,
    from: int,
    to: int,
)
    requires
        0 <= from <= to <= walked.len(),
        forall|k: int|
            from <= k < to ==> after_additions(
                view,
                base_file_count,
                walked,
                inputs,
                from,
            ).ids.contains_key(#[trigger] walked[k]),
    ensures
        after_additions(view, base_file_count, walked, inputs, to) == after_additions(
            view,
            base_file_count,
            walked,
            inputs,
            from,
        ),
    decreases to - from,
{
    if from < to {
        lemma_held_paths_are_passed_over(view, base_file_count, walked, inputs, from, to - 1);
        assert(after_additions(view, base_file_count, walked, inputs, from).ids.contains_key(
            walked[to - 1],
        ));
    }
}

/// A refresh finds every new file that can be read: of the walked paths each leads to a file in the
/// end, as long as ids do not run out and none is the canonical form of another. And no path leads
/// to a file that did not before and was not walked.
pub proof fn lemma_refresh_finds_new_files(
    view: SnapshotView,
    base_file_count: u32,
    walked: Seq<PathKey>,
    inputs: Seq<StepInput>,
    count: int,
)
    requires
        0 <= count <= walked.len(),
        inputs.len() == walked.len(),
        view.files.len() + walked.len() <= u32::MAX + 1,
        forall|p: PathKey| #[trigger] view.ids.contains_key(p) ==> view.ids[p] < view.files.len(),
        forall|i: int, j: int|
            0 <= i < walked.len() && 0 <= j < walked.len() && #[trigger] walked[i] == (
            #[trigger] inputs[j]).canonical ==> walked[i] == walked[j],
    ensures
        ({
            let after = after_additions(view, base_file_count, walked, inputs, count);
            &&& after.files.len() <= view.files.len() + count
            &&& forall|p: PathKey| #[trigger]
                after.ids.contains_key(p) ==> after.ids[p] < after.files.len()
            &&& forall|k: int|
                0 <= k < count && !((#[trigger] inputs[k]).file is Skipped)
                    ==> after.ids.contains_key(walked[k])
            &&& forall|p: PathKey| #[trigger]
                after.ids.contains_key(p) ==> view.ids.contains_key(p) || walked.contains(p)
        }),
    decreases count,
{
    if count > 0 {
        lemma_refresh_finds_new_files(view, base_file_count, walked, inputs, count - 1);
        let before = after_additions(view, base_file_count, walked, inputs, count - 1);
        let after = after_additions(view, base_file_count, walked, inputs, count);
        let (path, input) = (walked[count - 1], inputs[count - 1]);
        if !before.ids.contains_key(path) {
            let between = after_removal(before, base_file_count, path, input.canonical);
            assert(after == added_as(between, path, input.file));
            assert(between.files.len() == before.files.len());
            assert forall|k: int|
                0 <= k < count && !((#[trigger] inputs[k]).file is Skipped) implies after.ids.contains_key(
                walked[k],
            ) by {
                if k < count - 1 {
                    assert(before.ids.contains_key(walked[k]));
                    if walked[k] == input.canonical {
                        assert(walked[k] == walked[count - 1]);
                    }
                    assert(between.ids.contains_key(walked[k]));
                }
            }
        }
        assert(walked.contains(path));
    }
}

} // verus!
