//! How much memory an index takes up, about.

use crate::compact::list_keys;
use crate::file_entry::FileEntry;
use crate::file_entry::FileView;
use crate::index::files_in_use;
use crate::index::saturated;
use crate::index::SearchIndex;
use crate::ingest::path_views;
use crate::ledger::in_step;
use crate::ledger::lemma_postings_are_noted;
use crate::path::PathKey;
use crate::path::SearchPath;
use crate::path_text::path_text;
use crate::postings::LookupEntry;
use crate::postings::Posting;
use crate::tally::lemma_total;
use crate::tally::lengths;
use crate::tally::total;
use std::collections::HashMap;
use vstd::layout::layout_of_primitives;
use vstd::layout::size_of;
use vstd::prelude::*;
use vstd::utf8::encode_utf8;

verus! {

/// What an index takes up, and of how much of what.
#[derive(Clone, Copy, Debug, PartialEq, Eq)]
pub struct MemoryEstimate {
    pub estimated_bytes: u64,
    /// Slots of the file table, free ones too: they take up memory as well.
    pub files: usize,
    pub delta_trigrams: usize,
    pub delta_postings: usize,
    pub superseded_files: usize,
    pub unindexed_files: usize,
    pub base_lookup_entries: usize,
    pub delta_packed_bytes: u64,
    /// Posting lists stay on disk.
    pub base_postings_resident_bytes: u64,
}

/// A number of bytes, or the largest that can be told.
pub open spec fn told(bytes: int) -> int {
    if bytes > u64::MAX {
        u64::MAX as int
    } else {
        bytes
    }
}

fn plus(left: u64, right: u64) -> (sum: u64)
    ensures
        sum == told(left + right),
{
    left.saturating_add(right)
}

fn times(left: u64, right: u64) -> (product: u64)
    ensures
        product == told(left * right),
{
    match left.checked_mul(right) {
        Some(product) => product,
        None => u64::MAX,
    }
}

/// The lengths of the lists, added up.
fn total_len<T>(lists: &HashMap<u32, Vec<T>>) -> (sum: usize)
    ensures
        sum == saturated(
            total(lists@.map_values(|list: Vec<T>| list@.len())) as int,
        ),
{
    broadcast use vstd::std_specs::hash::group_hash_axioms;

    let keys = list_keys(lists);
    let ghost all = lists@.map_values(|list: Vec<T>| list@.len());
    let mut sum: usize = 0;
    let mut i: usize = 0;
    proof {
        assert(all.remove_keys(Set::empty()) =~= all);
        assert(keys@.take(0).to_set() =~= Set::empty());
        assert(all.dom() =~= lists@.dom());
    }
    while i < keys.len()
        invariant
            keys@.no_duplicates(),
            forall|t: u32| #[trigger] keys@.contains(t) <==> lists@.contains_key(t),
            all == lists@.map_values(|list: Vec<T>| list@.len()),
            all.dom().finite(),
            i <= keys@.len(),
            sum == saturated(total(all) - total(all.remove_keys(keys@.take(i as int).to_set()))),
            total(all) >= total(all.remove_keys(keys@.take(i as int).to_set())),
        decreases keys@.len() - i,
    {
        let key: u32 = keys[i];
        proof {
            assert(keys@.contains(key));
            let done = keys@.take(i as int);
            let next = keys@.take(i + 1);
            let left = all.remove_keys(done.to_set());
            assert(!done.contains(key));
            assert(left.dom() =~= all.dom().difference(done.to_set()));
            assert(left.contains_key(key));
            lemma_total(left, key);
            assert(next =~= done.push(key));
            assert(all.remove_keys(next.to_set()) =~= left.remove(key)) by {
                assert forall|t: u32| next.to_set().contains(t) <==> done.to_set().contains(t)
                    || t == key by {
                    if done.contains(t) {
                        let k = done.index_of(t);
                        assert(next[k] == t);
                    }
                    assert(next[i as int] == key);
                    if next.contains(t) && t != key {
                        let k = next.index_of(t);
                        assert(done[k] == t);
                    }
                }
            }
        }
        if let Some(list) = lists.get(&key) {
            assert(all[key] == list@.len());
            sum = sum.saturating_add(list.len());
        }
        i += 1;
    }
    proof {
        let left = all.remove_keys(keys@.take(i as int).to_set());
        assert(keys@.take(i as int) =~= keys@);
        assert(left.dom() =~= Set::empty()) by {
            assert forall|t: u32| !left.dom().contains(t) by {
                if all.contains_key(t) {
                    assert(keys@.contains(t));
                }
            }
        }
        assert(total(left) == 0);
    }
    sum
}

/// What the texts of the first `count` paths take up.
pub open spec fn paths_size(paths: Seq<PathKey>, count: int) -> nat
    decreases count,
{
    if count <= 0 {
        0
    } else {
        paths_size(paths, count - 1) + path_text(paths[count - 1]).len()
    }
}

/// What the entries of the path table take up that lead to the first `count` slots.
pub open spec fn table_size(files: Seq<FileView>, ids: Map<PathKey, u32>, count: int) -> nat
    decreases count,
{
    if count <= 0 {
        0
    } else {
        let path = files[count - 1].path;
        table_size(files, ids, count - 1) + (if ids.contains_key(path) && ids[path] == count - 1 {
            size_of::<u32>() + size_of::<SearchPath>() + path_text(path).len()
        } else {
            0
        })
    }
}

/// Every slot of the file table is in use.
pub open spec fn no_free_slots(files: Seq<FileView>) -> bool {
    forall|i: int| 0 <= i < files.len() ==> (#[trigger] files[i]).path.len() > 0
}

/// Without free slots there are as many files as slots.
proof fn lemma_all_in_use(files: Seq<FileView>)
    requires
        no_free_slots(files),
    ensures
        files_in_use(files) == files.len(),
    decreases files.len(),
{
    if files.len() > 0 {
        let earlier = files.drop_last();
        assert forall|i: int| 0 <= i < earlier.len() implies (#[trigger] earlier[i]).path.len()
            > 0 by {
            assert(earlier[i] == files[i]);
        }
        lemma_all_in_use(earlier);
        assert(files.last() == files[files.len() - 1]);
    }
}

pub open spec fn file_paths(files: Seq<FileView>) -> Seq<PathKey> {
    files.map_values(|file: FileView| file.path)
}

impl SearchIndex {
    /// Nothing is in the index.
    pub open spec fn holds_nothing(&self) -> bool {
        &&& self.current.base is None
        &&& self.current.delta.postings@.is_empty()
        &&& self.delta_file_trigrams@.is_empty()
        &&& self.current.files@.len() == 0
        &&& self.current.path_to_id@.len() == 0
        &&& self.current.file_trigram_count@.len() == 0
        &&& self.current.unindexed_files@.is_empty()
        &&& self.current.delta.superseded@.is_empty()
        &&& self.compaction.buffered_paths@.len() == 0
    }

    pub open spec fn lookup_len(&self) -> nat {
        match self.current.base {
            Some(base) => base.lookup@.len(),
            None => 0,
        }
    }

    /// The postings since the cache file was written, and the trigrams of their files.
    pub open spec fn delta_size(&self) -> int {
        let postings = saturated(total(lengths(self.current@.postings)) as int);
        let trigrams = saturated(total(lengths(self.ledger().file_trigrams)) as int);
        postings * size_of::<Posting>() + self.current.delta.postings@.len() * size_of::<u32>() + (
        trigrams * size_of::<u32>() + self.delta_file_trigrams@.len() * size_of::<u32>())
    }

    /// The file table and the path table.
    pub open spec fn files_size(&self) -> int {
        let files = self.current@.files;
        let count = files.len() as int;
        count * size_of::<FileEntry>() + paths_size(file_paths(files), count) + table_size(
            files,
            self.current@.ids,
            count,
        )
    }

    /// The trigram counts, the sets of files and the lookup table.
    pub open spec fn tables_size(&self) -> int {
        let masks = saturated(
            (self.current.delta.superseded@.len() + self.current.unindexed_files@.len()) as int,
        );
        self.current.file_trigram_count@.len() * size_of::<u32>() + masks * size_of::<u32>()
            + self.lookup_len() * size_of::<LookupEntry>()
    }

    /// The paths that wait for a compaction.
    pub open spec fn buffered_size(&self) -> int {
        let paths = path_views(self.compaction.buffered_paths@);
        paths.len() as int * size_of::<SearchPath>() + paths_size(paths, paths.len() as int)
    }

    /// The root, the commit and the fingerprint of the ignore rules.
    pub open spec fn texts_size(&self) -> int {
        let head = match self.git_head {
            Some(head) => encode_utf8(head@).len(),
            None => 0,
        };
        (path_text(self.current@.project_root).len() + head + encode_utf8(
            self.ignore_rules_fingerprint@,
        ).len()) as int
    }

    /// The tables, the paths and the texts of the index, added up.
    pub open spec fn memory_size(&self) -> int {
        self.delta_size() + self.files_size() + self.tables_size() + self.buffered_size()
            + self.texts_size()
    }

    fn table_bytes(&self) -> (bytes: u64)
        requires
            self.well_formed(),
        ensures
            bytes == told(
                table_size(
                    self.current@.files,
                    self.current@.ids,
                    self.current@.files.len() as int,
                ) as int,
            ),
    {
        let ghost files = self.current@.files;
        let ghost ids = self.current@.ids;
        let per_entry: u64 = plus(
            core::mem::size_of::<u32>() as u64,
            core::mem::size_of::<SearchPath>() as u64,
        );
        let mut bytes: u64 = 0;
        let mut i: usize = 0;
        assert(files.len() == self.current.files@.len());
        while i < self.current.files.len()
            invariant
                self.well_formed(),
                files == self.current@.files,
                files.len() == self.current.files@.len(),
                ids == self.current@.ids,
                per_entry == told((size_of::<u32>() + size_of::<SearchPath>()) as int),
                i <= files.len(),
                bytes == told(table_size(files, ids, i as int) as int),
            decreases files.len() - i,
        {
            let file = &self.current.files[i];
            assert(files[i as int] == file@);
            if let Some(id) = self.current.path_to_id.get(&file.path) {
                if id as usize == i {
                    let text = file.path.text();
                    bytes = plus(plus(bytes, per_entry), text.len() as u64);
                }
            }
            i += 1;
        }
        bytes
    }

    fn file_path_bytes(&self) -> (bytes: u64)
        ensures
            bytes == told(
                paths_size(file_paths(self.current@.files), self.current@.files.len() as int) as int,
            ),
    {
        let ghost paths = file_paths(self.current@.files);
        let mut bytes: u64 = 0;
        let mut i: usize = 0;
        while i < self.current.files.len()
            invariant
                paths == file_paths(self.current@.files),
                i <= self.current.files@.len(),
                bytes == told(paths_size(paths, i as int) as int),
            decreases self.current.files@.len() - i,
        {
            assert(paths[i as int] == self.current.files@[i as int]@.path);
            let text = self.current.files[i].path.text();
            bytes = plus(bytes, text.len() as u64);
            i += 1;
        }
        assert(self.current@.files.len() == self.current.files@.len());
        bytes
    }

    fn buffered_bytes(&self) -> (bytes: u64)
        ensures
            self.buffered_size() >= 0,
            bytes == told(self.buffered_size()),
    {
        let ghost paths = path_views(self.compaction.buffered_paths@);
        let mut bytes: u64 = 0;
        let mut i: usize = 0;
        let per_path: usize = core::mem::size_of::<SearchPath>();
        while i < self.compaction.buffered_paths.len()
            invariant
                paths == path_views(self.compaction.buffered_paths@),
                per_path == size_of::<SearchPath>(),
                i <= paths.len(),
                i * per_path >= 0,
                bytes == told((i * per_path + paths_size(paths, i as int)) as int),
            decreases paths.len() - i,
        {
            let text = self.compaction.buffered_paths[i].text();
            assert(paths[i as int] == self.compaction.buffered_paths@[i as int]@);
            bytes = plus(bytes, plus(per_path as u64, text.len() as u64));
            assert((i + 1) * per_path == i * per_path + per_path) by (nonlinear_arith);
            i += 1;
        }
        bytes
    }

    fn delta_bytes(&self, delta_postings: usize) -> (bytes: u64)
        requires
            delta_postings == saturated(total(lengths(self.current@.postings)) as int),
        ensures
            self.delta_size() >= 0,
            bytes == told(self.delta_size()),
    {
        broadcast use vstd::std_specs::hash::group_hash_axioms;

        let id: u64 = core::mem::size_of::<u32>() as u64;
        let posting: u64 = core::mem::size_of::<Posting>() as u64;
        let delta_trigrams: usize = total_len(&self.delta_file_trigrams);
        assert(self.delta_file_trigrams@.map_values(|list: Vec<u32>| list@.len()) =~= lengths(
            self.ledger().file_trigrams,
        ));
        let postings_bytes: u64 = plus(
            times(delta_postings as u64, posting),
            times(self.current.delta.postings.len() as u64, id),
        );
        let trigrams_bytes: u64 = plus(
            times(delta_trigrams as u64, id),
            times(self.delta_file_trigrams.len() as u64, id),
        );
        plus(postings_bytes, trigrams_bytes)
    }

    fn files_bytes(&self) -> (bytes: u64)
        requires
            self.well_formed(),
        ensures
            self.files_size() >= 0,
            bytes == told(self.files_size()),
    {
        let entry: u64 = core::mem::size_of::<FileEntry>() as u64;
        assert(self.current@.files.len() == self.current.files@.len());
        let entries_bytes: u64 = times(self.current.files.len() as u64, entry);
        plus(plus(entries_bytes, self.file_path_bytes()), self.table_bytes())
    }

    fn tables_bytes(&self, base_lookup_entries: usize) -> (bytes: u64)
        requires
            base_lookup_entries == self.lookup_len(),
        ensures
            self.tables_size() >= 0,
            bytes == told(self.tables_size()),
    {
        broadcast use vstd::std_specs::hash::group_hash_axioms;

        let id: u64 = core::mem::size_of::<u32>() as u64;
        let lookup_entry: u64 = core::mem::size_of::<LookupEntry>() as u64;
        let masks: usize = self.current.delta.superseded.len().saturating_add(
            self.current.unindexed_files.len(),
        );
        let counts_bytes: u64 = times(self.current.file_trigram_count.len() as u64, id);
        let masks_bytes: u64 = times(masks as u64, id);
        let lookup_bytes: u64 = times(base_lookup_entries as u64, lookup_entry);
        plus(plus(counts_bytes, masks_bytes), lookup_bytes)
    }

    fn texts_bytes(&self) -> (bytes: u64)
        ensures
            bytes == told(self.texts_size()),
    {
        let root_text = self.current.project_root.text();
        let head_bytes: u64 = match &self.git_head {
            Some(head) => head.as_str().as_bytes().len() as u64,
            None => 0,
        };
        let rules_bytes: u64 = self.ignore_rules_fingerprint.as_str().as_bytes().len() as u64;
        plus(plus(root_text.len() as u64, head_bytes), rules_bytes)
    }

    /// What the index takes up in memory. An index with nothing in it takes up nothing.
    pub fn estimated_memory(&self) -> (estimate: MemoryEstimate)
        requires
            self.well_formed(),
        ensures
            estimate.estimated_bytes == (if self.holds_nothing() {
                0
            } else {
                told(self.memory_size())
            }),
            estimate.files == self.current@.files.len(),
            no_free_slots(self.current@.files) ==> estimate.files == files_in_use(
                self.current@.files,
            ),
            estimate.delta_trigrams == self.current.delta.postings@.len(),
            estimate.delta_postings == saturated(
                total(lengths(self.current@.postings)) as int,
            ),
            estimate.superseded_files == self.current.delta.superseded@.len(),
            estimate.unindexed_files == self.current.unindexed_files@.len(),
            estimate.base_lookup_entries == self.lookup_len(),
            estimate.delta_packed_bytes == (if self.holds_nothing() {
                0
            } else {
                self.delta_packed_bytes as int
            }),
            estimate.base_postings_resident_bytes == 0,
            in_step(self.ledger()) ==> estimate.delta_packed_bytes == 6 * estimate.delta_postings,
            estimate.delta_postings > 0 ==> estimate.estimated_bytes > 0,
    {
        broadcast use vstd::std_specs::hash::group_hash_axioms;

        let delta_postings: usize = total_len(&self.current.delta.postings);
        proof {
            let postings = self.current.delta.postings@;
            assert(postings.map_values(|list: Vec<Posting>| list@.len()) =~= lengths(
                self.current@.postings,
            ));
            assert(lengths(self.current@.postings).dom() =~= postings.dom());
            lemma_postings_are_noted(*self);
            assert(self.current@.files.len() == self.current.files@.len());
            if no_free_slots(self.current@.files) {
                lemma_all_in_use(self.current@.files);
            }
        }
        let base_lookup_entries: usize = match &self.current.base {
            Some(base) => base.lookup.len(),
            None => 0,
        };
        let mut estimate = MemoryEstimate {
            estimated_bytes: 0,
            files: self.current.files.len(),
            delta_trigrams: self.current.delta.postings.len(),
            delta_postings,
            superseded_files: self.current.delta.superseded.len(),
            unindexed_files: self.current.unindexed_files.len(),
            base_lookup_entries,
            delta_packed_bytes: 0,
            base_postings_resident_bytes: 0,
        };
        let nothing: bool = self.current.base.is_none() && self.current.delta.postings.is_empty()
            && self.delta_file_trigrams.is_empty() && self.current.files.len() == 0
            && self.current.path_to_id.len() == 0 && self.current.file_trigram_count.len() == 0
            && self.current.unindexed_files.is_empty() && self.current.delta.superseded.is_empty()
            && self.compaction.buffered_paths.len() == 0;
        assert(nothing == self.holds_nothing());
        if nothing {
            return estimate;
        }
        let delta_bytes: u64 = self.delta_bytes(delta_postings);
        let files_bytes: u64 = self.files_bytes();
        let tables_bytes: u64 = self.tables_bytes(base_lookup_entries);
        let buffered_bytes: u64 = self.buffered_bytes();
        let texts_bytes: u64 = self.texts_bytes();
        proof {
            broadcast use layout_of_primitives;

            let lists: int = self.current.delta.postings@.len() as int;
            assert(delta_postings > 0 ==> lists > 0);
            assert(self.delta_size() >= lists * 4) by (nonlinear_arith)
                requires
                    self.delta_size() == delta_postings * size_of::<Posting>() + lists * 4 + (
                    saturated(total(lengths(self.ledger().file_trigrams)) as int) * 4
                        + self.delta_file_trigrams@.len() * 4),
                    saturated(total(lengths(self.ledger().file_trigrams)) as int) >= 0,
            ;
        }
        estimate.delta_packed_bytes = self.delta_packed_bytes as u64;
        estimate.estimated_bytes = plus(
            plus(plus(plus(delta_bytes, files_bytes), tables_bytes), buffered_bytes),
            texts_bytes,
        );
        estimate
    }
}

} // verus!
