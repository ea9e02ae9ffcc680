//! Bringing an index up to date with what is on disk.

use crate::cache_read::text_option;
use crate::file_entry::FileEntry;
use crate::file_entry::FileView;
use crate::file_entry::SearchFileMetadata;
use crate::file_entry::Timestamp;
use crate::index::lemma_same_files_stay_listed;
use crate::index::SearchIndex;
use crate::ingest::bytes_option;
use crate::ingest::path_views;
use crate::outside::blake3_hash;
use crate::outside::hash_bytes;
use crate::outside::utf8_text;
use crate::path::PathKey;
use crate::path::SearchPath;
use crate::path_table::PathTable;
use crate::path_text::accepted_path;
use crate::path_text::cached_path_under_root;
use crate::path_text::parse_path;
use crate::path_text::path_parts;
use crate::path_text::PathProbe;
use crate::snapshot::SnapshotView;
use crate::text::filled_lines;
use crate::text::pieces;
use crate::text::read_filled_lines;
use crate::text::same_text;
use crate::text::split_text;
use crate::text::starts_with_char;
use crate::text::string_views;
use vstd::prelude::*;
use vstd::utf8::decode_utf8;
use vstd::utf8::encode_utf8;
use vstd::utf8::valid_utf8;

verus! {

/// One change to make to the index.
#[derive(Debug)]
pub enum RefreshStep {
    Remove(SearchPath),
    Update(SearchPath),
}

/// The mathematical counterpart of a `RefreshStep`.
pub enum StepView {
    Remove(PathKey),
    Update(PathKey),
}

impl View for RefreshStep {
    type V = StepView;

    open spec fn view(&self) -> StepView {
        match self {
            RefreshStep::Remove(path) => StepView::Remove(path@),
            RefreshStep::Update(path) => StepView::Update(path@),
        }
    }
}

pub open spec fn step_views(steps: Seq<RefreshStep>) -> Seq<StepView> {
    steps.map_values(|step: RefreshStep| step@)
}

// ---------------------------------------------------------------------------------------------
// Changes between two commits
// ---------------------------------------------------------------------------------------------

/// A line of a list of changed files. The paths are relative to the root.
#[derive(Debug)]
pub enum DiffChange {
    Rename { old: SearchPath, new: SearchPath },
    Single { deleted: bool, path: SearchPath },
}

/// The mathematical counterpart of a `DiffChange`.
pub enum ChangeView {
    Rename { old: PathKey, new: PathKey },
    Single { deleted: bool, path: PathKey },
}

impl View for DiffChange {
    type V = ChangeView;

    open spec fn view(&self) -> ChangeView {
        match self {
            DiffChange::Rename { old, new } => ChangeView::Rename { old: old@, new: new@ },
            DiffChange::Single { deleted, path } => ChangeView::Single {
                deleted: *deleted,
                path: path@,
            },
        }
    }
}

pub open spec fn change_views(changes: Seq<DiffChange>) -> Seq<ChangeView> {
    changes.map_values(|change: DiffChange| change@)
}

pub open spec fn field_path(field: Seq<char>) -> PathKey {
    path_parts(encode_utf8(field))
}

/// What a line says: a status, then one path, or two for a file that was renamed, each behind a tab.
/// A line without them says nothing.
pub open spec fn line_change(line: Seq<char>) -> Option<ChangeView> {
    let fields = pieces(line, '\t');
    let status = fields[0];
    if fields.len() > 0 && status.len() > 0 && status[0] == 'R' {
        if fields.len() > 2 {
            Some(ChangeView::Rename { old: field_path(fields[1]), new: field_path(fields[2]) })
        } else {
            None
        }
    } else if fields.len() > 1 {
        Some(
            ChangeView::Single {
                deleted: status.len() > 0 && status[0] == 'D',
                path: field_path(fields[1]),
            },
        )
    } else {
        None
    }
}

/// What the first `count` lines say.
pub open spec fn line_changes(lines: Seq<Seq<char>>, count: int) -> Seq<ChangeView>
    decreases count,
{
    if count <= 0 {
        Seq::empty()
    } else {
        let earlier = line_changes(lines, count - 1);
        match line_change(lines[count - 1]) {
            Some(change) => earlier.push(change),
            None => earlier,
        }
    }
}

/// The changes that a text lists.
pub open spec fn diff_changes(text: Seq<char>) -> Seq<ChangeView> {
    line_changes(filled_lines(text), filled_lines(text).len() as int)
}

fn read_line_change(line: &str) -> (change: Option<DiffChange>)
    ensures
        match change {
            Some(change) => line_change(line@) == Some(change@),
            None => line_change(line@) is None,
        },
{
    let fields = split_text(line, '\t');
    let ghost views = pieces(line@, '\t');
    assert(views.len() == fields@.len());
    assert forall|i: int| 0 <= i < fields@.len() implies (#[trigger] fields@[i])@ == views[i] by {
        assert(string_views(fields@)[i] == fields@[i]@);
    }
    if fields.len() == 0 {
        return None;
    }
    let status = fields[0].as_str();
    if starts_with_char(status, 'R') {
        if fields.len() > 2 {
            let old = parse_path(fields[1].as_str().as_bytes());
            let new = parse_path(fields[2].as_str().as_bytes());
            return Some(DiffChange::Rename { old, new });
        }
        return None;
    }
    if fields.len() > 1 {
        let deleted: bool = starts_with_char(status, 'D');
        let path = parse_path(fields[1].as_str().as_bytes());
        return Some(DiffChange::Single { deleted, path });
    }
    None
}

/// Reads a list of changed files. One that is no text cannot be used.
pub fn parse_git_diff(stdout: Vec<u8>) -> (changes: Option<Vec<DiffChange>>)
    ensures
        match changes {
            Some(changes) => valid_utf8(stdout@) && change_views(changes@) == diff_changes(
                decode_utf8(stdout@),
            ),
            None => !valid_utf8(stdout@),
        },
{
    let text = match utf8_text(stdout) {
        Some(text) => text,
        None => {
            return None;
        },
    };
    let lines = read_filled_lines(text.as_str());
    let ghost views = filled_lines(text@);
    let mut changes: Vec<DiffChange> = Vec::new();
    let mut i: usize = 0;
    assert(change_views(changes@) =~= Seq::<ChangeView>::empty());
    assert(views.len() == lines@.len());
    while i < lines.len()
        invariant
            views == string_views(lines@),
            i <= lines@.len(),
            change_views(changes@) == line_changes(views, i as int),
        decreases lines@.len() - i,
    {
        let ghost before = change_views(changes@);
        assert(views[i as int] == lines@[i as int]@);
        if let Some(change) = read_line_change(lines[i].as_str()) {
            changes.push(change);
            assert(change_views(changes@) =~= before.push(change@));
        }
        i += 1;
    }
    Some(changes)
}

/// What a change asks for. A path that leads out of the root asks for nothing, and neither does a
/// rename from or to one. A file that is not there any more is removed, whatever its status.
pub open spec fn change_steps(
    root: PathKey,
    change: ChangeView,
    old_probe: PathProbe,
    probe: PathProbe,
    exists_now: bool,
) -> Seq<StepView> {
    match change {
        ChangeView::Rename { old, new } => match (
            accepted_path(root, old, old_probe),
            accepted_path(root, new, probe),
        ) {
            (Some(from), Some(to)) => seq![StepView::Remove(from), StepView::Update(to)],
            _ => Seq::empty(),
        },
        ChangeView::Single { deleted, path } => match accepted_path(root, path, probe) {
            Some(path) => if deleted || !exists_now {
                seq![StepView::Remove(path)]
            } else {
                seq![StepView::Update(path)]
            },
            None => Seq::empty(),
        },
    }
}

/// What a change asks for. `old_probe` speaks of the old path of a rename, `probe` of the new or only
/// path, and `exists_now` says whether the only path exists.
pub fn steps_for_change(
    root: &SearchPath,
    change: &DiffChange,
    old_probe: &PathProbe,
    probe: &PathProbe,
    exists_now: bool,
) -> (steps: Vec<RefreshStep>)
    ensures
        step_views(steps@) == change_steps(root@, change@, *old_probe, *probe, exists_now),
{
    let mut steps: Vec<RefreshStep> = Vec::new();
    assert(step_views(steps@) =~= Seq::<StepView>::empty());
    match change {
        DiffChange::Rename { old, new } => {
            if let Some(from) = cached_path_under_root(root, old, old_probe) {
                if let Some(to) = cached_path_under_root(root, new, probe) {
                    steps.push(RefreshStep::Remove(from));
                    steps.push(RefreshStep::Update(to));
                    assert(step_views(steps@) =~= seq![
                        StepView::Remove(from@),
                        StepView::Update(to@),
                    ]);
                }
            }
        },
        DiffChange::Single { deleted, path } => {
            if let Some(path) = cached_path_under_root(root, path, probe) {
                let ghost key = path@;
                if *deleted || !exists_now {
                    steps.push(RefreshStep::Remove(path));
                    assert(step_views(steps@) =~= seq![StepView::Remove(key)]);
                } else {
                    steps.push(RefreshStep::Update(path));
                    assert(step_views(steps@) =~= seq![StepView::Update(key)]);
                }
            }
        },
    }
    steps
}

// ---------------------------------------------------------------------------------------------
// Changes on disk
// ---------------------------------------------------------------------------------------------

/// How a file on disk stands to what the index knows of it.
#[derive(Clone, Copy, Debug, PartialEq, Eq)]
pub enum FreshnessVerdict {
    HotFresh,
    /// The content is the same, time or size were not.
    ContentFresh { new_mtime: Timestamp, new_size: u64 },
    Stale,
    Deleted,
}

/// How closely files are looked at.
#[derive(Clone, Copy, Debug, PartialEq, Eq, Structural)]
pub enum VerifyStrategy {
    /// A file with the same size and time counts as the same.
    StatFirst,
    /// Every file is read.
    Strict,
}

pub open spec fn same_stat(file: FileView, now: SearchFileMetadata) -> bool {
    now.size == file.size && now.modified == file.modified
}

/// Size and time tell enough of the file.
pub fn stat_decides(
    file: &FileEntry,
    metadata: Option<SearchFileMetadata>,
    strategy: VerifyStrategy,
) -> (decides: bool)
    ensures
        decides == (metadata is None || (strategy == VerifyStrategy::StatFirst && same_stat(
            file@,
            metadata->0,
        ))),
{
    match metadata {
        Some(now) => strategy == VerifyStrategy::StatFirst && now.size == file.size
            && now.modified == file.modified,
        None => true,
    }
}

/// How a file on disk stands to what the index knows of it: size and time first, then the content.
pub open spec fn judged(
    file: FileView,
    metadata: Option<SearchFileMetadata>,
    strategy: VerifyStrategy,
    content: Option<Seq<u8>>,
) -> FreshnessVerdict {
    match metadata {
        None => FreshnessVerdict::Deleted,
        Some(now) => if strategy == VerifyStrategy::StatFirst && same_stat(file, now) {
            FreshnessVerdict::HotFresh
        } else {
            match content {
                None => FreshnessVerdict::Deleted,
                Some(content) => if blake3_hash(content) != file.content_hash {
                    FreshnessVerdict::Stale
                } else if same_stat(file, now) {
                    FreshnessVerdict::HotFresh
                } else {
                    FreshnessVerdict::ContentFresh { new_mtime: now.modified, new_size: now.size }
                },
            }
        },
    }
}

/// How a file on disk stands to what the index knows of it. `content` is what the file holds, where
/// it could be read; it does not matter where size and time tell enough.
pub fn judge_file(
    file: &FileEntry,
    metadata: Option<SearchFileMetadata>,
    strategy: VerifyStrategy,
    content: &Option<Vec<u8>>,
) -> (verdict: FreshnessVerdict)
    ensures
        verdict == judged(file@, metadata, strategy, bytes_option(*content)),
{
    let now = match metadata {
        Some(now) => now,
        None => {
            return FreshnessVerdict::Deleted;
        },
    };
    if stat_decides(file, metadata, strategy) {
        return FreshnessVerdict::HotFresh;
    }
    let content = match content {
        Some(content) => content,
        None => {
            return FreshnessVerdict::Deleted;
        },
    };
    let hash = hash_bytes(content.as_slice());
    if !hash.same_as(&file.content_hash) {
        return FreshnessVerdict::Stale;
    }
    if now.size == file.size && now.modified == file.modified {
        FreshnessVerdict::HotFresh
    } else {
        FreshnessVerdict::ContentFresh { new_mtime: now.modified, new_size: now.size }
    }
}

/// The slot holds a file that a walk no longer finds.
pub open spec fn is_gone(file: FileView, current: Set<PathKey>) -> bool {
    file.path.len() > 0 && !current.contains(file.path)
}

/// The slot holds a file that must be read again.
pub open spec fn is_stale(file: FileView, current: Set<PathKey>, verdict: FreshnessVerdict) -> bool {
    file.path.len() > 0 && current.contains(file.path) && (verdict is Stale || verdict is Deleted)
}

/// The slot holds a file that is as it was, but for its time and size.
pub open spec fn is_touched(file: FileView, current: Set<PathKey>, verdict: FreshnessVerdict) -> bool {
    file.path.len() > 0 && current.contains(file.path) && verdict is ContentFresh
}

/// The slot after the check.
pub open spec fn checked_file(
    file: FileView,
    current: Set<PathKey>,
    verdict: FreshnessVerdict,
) -> FileView {
    if is_touched(file, current, verdict) {
        FileView { modified: verdict->new_mtime, size: verdict->new_size, ..file }
    } else {
        file
    }
}

/// Removals for the files among the first `count` slots that are gone.
pub open spec fn removals(files: Seq<FileView>, current: Set<PathKey>, count: int) -> Seq<StepView>
    decreases count,
{
    if count <= 0 {
        Seq::empty()
    } else {
        let earlier = removals(files, current, count - 1);
        if is_gone(files[count - 1], current) {
            earlier.push(StepView::Remove(files[count - 1].path))
        } else {
            earlier
        }
    }
}

/// Updates for the files among the first `count` slots that are stale.
pub open spec fn updates(
    files: Seq<FileView>,
    current: Set<PathKey>,
    verdicts: Seq<FreshnessVerdict>,
    count: int,
) -> Seq<StepView>
    decreases count,
{
    if count <= 0 {
        Seq::empty()
    } else {
        let earlier = updates(files, current, verdicts, count - 1);
        if is_stale(files[count - 1], current, verdicts[count - 1]) {
            earlier.push(StepView::Update(files[count - 1].path))
        } else {
            earlier
        }
    }
}

/// Some slot was touched.
pub open spec fn some_touched(
    files: Seq<FileView>,
    current: Set<PathKey>,
    verdicts: Seq<FreshnessVerdict>,
    count: int,
) -> bool {
    exists|i: int| 0 <= i < count && is_touched(#[trigger] files[i], current, verdicts[i])
}

/// `next` is the first place from `from` on whose path leads to no file.
pub open spec fn is_next_missing(
    ids: Map<PathKey, u32>,
    walked: Seq<PathKey>,
    from: int,
    next: Option<usize>,
) -> bool {
    let end = match next {
        Some(at) => at as int,
        None => walked.len() as int,
    };
    &&& next matches Some(at) ==> from <= at < walked.len() && !ids.contains_key(
        walked[at as int],
    )
    &&& forall|k: int| from <= k < end ==> ids.contains_key(#[trigger] walked[k])
}

/// The paths that a walk found.
pub fn path_set(paths: &Vec<SearchPath>) -> (table: PathTable)
    ensures
        table.well_formed(),
        forall|path: PathKey| #[trigger]
            table@.contains_key(path) <==> path_views(paths@).contains(path),
{
    let mut table = PathTable::new();
    let ghost views = path_views(paths@);
    let mut i: usize = 0;
    while i < paths.len()
        invariant
            views == path_views(paths@),
            i <= paths@.len(),
            table.well_formed(),
            table@.len() <= i,
            forall|path: PathKey| #[trigger]
                table@.contains_key(path) <==> views.take(i as int).contains(path),
        decreases paths@.len() - i,
    {
        let ghost before = table@;
        proof {
            table.lemma_finite();
        }
        table.insert(paths[i].duplicate(), 0);
        proof {
            let (done, next) = (views.take(i as int), views.take(i + 1));
            assert(table@.dom() =~= before.dom().insert(paths@[i as int]@));
            assert(next =~= done.push(paths@[i as int]@));
            assert forall|path: PathKey| #[trigger] table@.contains_key(path) <==> next.contains(
                path,
            ) by {
                assert(before.contains_key(path) <==> done.contains(path));
                if done.contains(path) {
                    let k = done.index_of(path);
                    assert(next[k] == path);
                }
                assert(next[i as int] == paths@[i as int]@);
                if next.contains(path) && !done.contains(path) {
                    let k = next.index_of(path);
                    if k < i {
                        assert(done[k] == path);
                    }
                }
            }
        }
        i += 1;
    }
    assert(views.take(i as int) =~= views);
    table
}

impl SearchIndex {
    /// The file in the slot has to be looked at on disk.
    pub fn needs_check(&self, slot: usize, current: &PathTable) -> (needed: bool)
        requires
            slot < self.current.files@.len(),
            current.well_formed(),
        ensures
            needed == (self.current@.files[slot as int].path.len() > 0 && current@.contains_key(
                self.current@.files[slot as int].path,
            )),
    {
        let file = &self.current.files[slot];
        !file.path.is_empty() && current.get(&file.path).is_some()
    }

    /// Goes through the file table with what the disk says of each slot: takes over new times and
    /// sizes, and gives the steps that are left to do, removals first. Says too whether anything is
    /// not as it was.
    pub fn check_files(&mut self, current: &PathTable, verdicts: &Vec<FreshnessVerdict>) -> (result: (
        Vec<RefreshStep>,
        bool,
    ))
        requires
            old(self).well_formed(),
            current.well_formed(),
            verdicts@.len() == old(self).current.files@.len(),
        ensures
            final(self).well_formed(),
            final(self).only_current_changed(*old(self)),
            old(self).current@.all_listed() ==> final(self).current@.all_listed(),
            ({
                let files = old(self).current@.files;
                let found = current@.dom();
                let count = files.len() as int;
                let steps = removals(files, found, count) + updates(
                    files,
                    found,
                    verdicts@,
                    count,
                );
                &&& final(self).current@ == (SnapshotView {
                    files: Seq::new(
                        files.len(),
                        |i: int| checked_file(files[i], found, verdicts@[i]),
                    ),
                    ..old(self).current@
                })
                &&& step_views(result.0@) == steps
                &&& result.1 == (steps.len() > 0 || some_touched(files, found, verdicts@, count))
            }),
    {
        let ghost files = self.current@.files;
        let ghost found = current@.dom();
        let ghost start = *self;
        let mut removed: Vec<RefreshStep> = Vec::new();
        let mut stale: Vec<RefreshStep> = Vec::new();
        let mut changed: bool = false;
        let mut i: usize = 0;
        proof {
            assert(step_views(removed@) =~= Seq::<StepView>::empty());
            assert(step_views(stale@) =~= Seq::<StepView>::empty());
            assert(files.len() == self.current.files@.len());
        }
        while i < self.current.files.len()
            invariant
                start == *old(self),
                start.well_formed(),
                current.well_formed(),
                found == current@.dom(),
                files == start.current@.files,
                verdicts@.len() == files.len(),
                self.current.files@.len() == files.len(),
                i <= files.len(),
                self.only_current_changed(start),
                self.current.base == start.current.base,
                self.current.delta == start.current.delta,
                self.current.path_to_id == start.current.path_to_id,
                self.current.ready == start.current.ready,
                self.current.project_root == start.current.project_root,
                self.current.file_trigram_count == start.current.file_trigram_count,
                self.current.unindexed_files == start.current.unindexed_files,
                forall|k: int|
                    0 <= k < i ==> (#[trigger] self.current.files@[k])@ == checked_file(
                        files[k],
                        found,
                        verdicts@[k],
                    ),
                forall|k: int|
                    i <= k < files.len() ==> (#[trigger] self.current.files@[k])@ == files[k],
                step_views(removed@) == removals(files, found, i as int),
                step_views(stale@) == updates(files, found, verdicts@, i as int),
                changed == (removed@.len() > 0 || stale@.len() > 0 || some_touched(
                    files,
                    found,
                    verdicts@,
                    i as int,
                )),
            decreases files.len() - i,
        {
            let ghost removed_before = step_views(removed@);
            let ghost stale_before = step_views(stale@);
            let ghost file = files[i as int];
            assert(self.current.files@[i as int]@ == file);
            let path = self.current.files[i].path.duplicate();
            let verdict = verdicts[i];
            if !path.is_empty() {
                if current.get(&path).is_none() {
                    assert(!found.contains(path@));
                    removed.push(RefreshStep::Remove(path));
                    changed = true;
                    assert(step_views(removed@) =~= removed_before.push(
                        StepView::Remove(file.path),
                    ));
                } else {
                    assert(found.contains(path@));
                    match verdict {
                        FreshnessVerdict::HotFresh => {},
                        FreshnessVerdict::ContentFresh { new_mtime, new_size } => {
                            let mut entry = self.current.files[i].duplicate();
                            entry.modified = new_mtime;
                            entry.size = new_size;
                            self.current.files.set(i, entry);
                            changed = true;
                            assert(is_touched(files[i as int], found, verdicts@[i as int]));
                        },
                        FreshnessVerdict::Stale | FreshnessVerdict::Deleted => {
                            stale.push(RefreshStep::Update(path));
                            changed = true;
                            assert(step_views(stale@) =~= stale_before.push(
                                StepView::Update(file.path),
                            ));
                        },
                    }
                }
            }
            proof {
                if some_touched(files, found, verdicts@, i as int) {
                    let k = choose|k: int|
                        0 <= k < i && is_touched(#[trigger] files[k], found, verdicts@[k]);
                    assert(k < i + 1);
                }
                if some_touched(files, found, verdicts@, i + 1) && !is_touched(
                    file,
                    found,
                    verdicts@[i as int],
                ) {
                    let k = choose|k: int|
                        0 <= k < i + 1 && is_touched(#[trigger] files[k], found, verdicts@[k]);
                    assert(k < i);
                }
            }
            i += 1;
        }
        let ghost first = step_views(removed@);
        let ghost second = step_views(stale@);
        assert(first.len() == removed@.len() && second.len() == stale@.len());
        let mut steps = removed;
        steps.append(&mut stale);
        proof {
            assert(step_views(steps@) =~= first + second);
            assert(self.current@.files =~= Seq::new(
                files.len(),
                |i: int| checked_file(files[i], found, verdicts@[i]),
            ));
            assert forall|path: PathKey| #[trigger]
                self.current.path_to_id@.contains_key(path) implies self.current.path_to_id@[path]
                < self.current.files@.len() && self.current.files@[self.current.path_to_id@[path] as int].path@
                == path by {
                assert(start.current.path_to_id@.contains_key(path));
                let k = start.current.path_to_id@[path] as int;
                assert(self.current.files@[k]@ == checked_file(files[k], found, verdicts@[k]));
                assert(files[k] == start.current.files@[k]@);
            }
            lemma_same_files_stay_listed(start.current@, self.current@);
        }
        (steps, changed)
    }

    /// The first of the walked paths from `from` on that leads to no file of the index.
    pub fn next_missing(&self, walked: &Vec<SearchPath>, from: usize) -> (next: Option<usize>)
        requires
            self.well_formed(),
        ensures
            is_next_missing(self.current@.ids, path_views(walked@), from as int, next),
    {
        let ghost views = path_views(walked@);
        let mut i: usize = from;
        while i < walked.len()
            invariant
                self.well_formed(),
                views == path_views(walked@),
                from <= i,
                forall|k: int|
                    from <= k < i && k < views.len() ==> self.current@.ids.contains_key(
                        #[trigger] views[k],
                    ),
            decreases walked@.len() - i,
        {
            assert(views[i as int] == walked@[i as int]@);
            if !self.holds_path(&walked[i]) {
                return Some(i);
            }
            i += 1;
        }
        None
    }

    /// A path leads to a file of the index.
    pub fn holds_path(&self, path: &SearchPath) -> (holds: bool)
        requires
            self.well_formed(),
        ensures
            holds == self.current@.ids.contains_key(path@),
    {
        self.current.path_to_id.get(path).is_some()
    }
}

// ---------------------------------------------------------------------------------------------
// How to go about it
// ---------------------------------------------------------------------------------------------

/// How an index is brought up to date.
#[derive(Debug)]
pub enum RefreshPlan {
    /// From nothing.
    Build,
    /// By looking at each file.
    Verify,
    /// By the changes between two commits, then by looking at each file. Where the changes cannot be
    /// had, from nothing.
    ApplyDiff { from: String, to: String },
}

/// The plan for an index: one with another size limit, or other ignore rules, is of no use.
pub open spec fn refresh_plan(
    same_size: bool,
    same_rules: bool,
    head: Option<Seq<char>>,
    current_head: Option<Seq<char>>,
    plan: RefreshPlan,
) -> bool {
    if !same_size || !same_rules {
        plan is Build
    } else if head == current_head || current_head is None {
        plan is Verify
    } else if head is Some {
        plan matches RefreshPlan::ApplyDiff { from, to } && from@ == head->0 && to@
            == current_head->0
    } else {
        plan is Build
    }
}

fn same_head(left: &Option<String>, right: &Option<String>) -> (same: bool)
    ensures
        same == (text_option(*left) == text_option(*right)),
{
    match (left, right) {
        (Some(left), Some(right)) => same_text(left.as_str(), right.as_str()),
        (None, None) => true,
        _ => false,
    }
}

impl SearchIndex {
    /// Starts bringing the index up to date: it is moved to `project_root`, unless its size limit
    /// makes it useless, and the plan says how to go on.
    pub fn begin_refresh(
        &mut self,
        project_root: SearchPath,
        max_file_size: u64,
        current_fingerprint: &str,
        current_head: &Option<String>,
    ) -> (plan: RefreshPlan)
        requires
            old(self).well_formed(),
        ensures
            final(self).well_formed(),
            final(self).only_current_changed(*old(self)),
            old(self).current@.all_listed() ==> final(self).current@.all_listed(),
            final(self).current@ == (if old(self).max_file_size == max_file_size {
                SnapshotView { project_root: project_root@, ..old(self).current@ }
            } else {
                old(self).current@
            }),
            refresh_plan(
                old(self).max_file_size == max_file_size,
                old(self).ignore_rules_fingerprint@ == current_fingerprint@,
                text_option(old(self).git_head),
                text_option(*current_head),
                plan,
            ),
    {
        if self.max_file_size != max_file_size {
            return RefreshPlan::Build;
        }
        self.current.project_root = project_root;
        proof {
            lemma_same_files_stay_listed(old(self).current@, self.current@);
        }
        if !same_text(self.ignore_rules_fingerprint.as_str(), current_fingerprint) {
            return RefreshPlan::Build;
        }
        if same_head(&self.git_head, current_head) || current_head.is_none() {
            return RefreshPlan::Verify;
        }
        match (&self.git_head, current_head) {
            (Some(from), Some(to)) => RefreshPlan::ApplyDiff { from: from.clone(), to: to.clone() },
            _ => RefreshPlan::Build,
        }
    }

    /// The index is up to date with the commit `head`.
    pub fn finish_refresh(&mut self, head: Option<String>)
        requires
            old(self).well_formed(),
        ensures
            final(self).well_formed(),
            final(self).current@ == (SnapshotView { ready: true, ..old(self).current@ }),
            text_option(final(self).git_head) == text_option(head),
            final(self).delta_file_trigrams == old(self).delta_file_trigrams,
            final(self).build_denied == old(self).build_denied,
            final(self).max_file_size == old(self).max_file_size,
            final(self).ignore_rules_fingerprint == old(self).ignore_rules_fingerprint,
            final(self).base_file_count == old(self).base_file_count,
            final(self).delta_packed_bytes == old(self).delta_packed_bytes,
            final(self).compaction == old(self).compaction,
            old(self).current@.all_listed() ==> final(self).current@.all_listed(),
    {
        self.git_head = head;
        self.current.ready = true;
        proof {
            lemma_same_files_stay_listed(old(self).current@, self.current@);
        }
    }
}

} // verus!
