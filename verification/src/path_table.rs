//! A table from paths to file ids.

use crate::path::part_name;
use crate::path::part_rank;
use crate::path::PartKey;
use crate::path::PathKey;
use crate::path::PathPart;
use crate::path::SearchPath;
use std::collections::HashMap;
use vstd::prelude::*;

verus! {

pub const HASH_MODULUS: u64 = 288230376151711717;

pub open spec fn mix(state: int, byte: int) -> int {
    (state * 31 + byte + 1) % (HASH_MODULUS as int)
}

pub open spec fn name_hash(state: int, name: Seq<u8>) -> int
    decreases name.len(),
{
    if name.len() == 0 {
        state
    } else {
        mix(name_hash(state, name.drop_last()), name.last() as int)
    }
}

/// The bucket of a path.
pub open spec fn path_hash(path: PathKey) -> int
    decreases path.len(),
{
    if path.len() == 0 {
        0
    } else {
        name_hash(
            mix(path_hash(path.drop_last()), 256 + part_rank(path.last())),
            part_name(path.last()),
        )
    }
}

#[derive(Clone, Debug)]
pub struct PathSlot {
    pub path: SearchPath,
    pub id: u32,
}

/// A table from paths to file ids.
pub struct PathTable {
    buckets: HashMap<u64, Vec<PathSlot>>,
    len: usize,
    contents: Ghost<Map<PathKey, u32>>,
}

fn mix_step(state: u64, byte: u64) -> (next: u64)
    requires
        state < HASH_MODULUS,
        byte <= 1000,
    ensures
        next == mix(state as int, byte as int),
        next < HASH_MODULUS,
{
    (state * 31 + byte + 1) % HASH_MODULUS
}

fn hash_name(state: u64, name: &Vec<u8>) -> (hash: u64)
    requires
        state < HASH_MODULUS,
    ensures
        hash == name_hash(state as int, name@),
        hash < HASH_MODULUS,
{
    let mut hash: u64 = state;
    let mut i: usize = 0;
    assert(name@.take(0) =~= Seq::<u8>::empty());
    while i < name.len()
        invariant
            i <= name@.len(),
            hash < HASH_MODULUS,
            hash == name_hash(state as int, name@.take(i as int)),
        decreases name@.len() - i,
    {
        proof {
            assert(name@.take(i + 1).drop_last() =~= name@.take(i as int));
        }
        hash = mix_step(hash, name[i] as u64);
        i += 1;
    }
    assert(name@.take(i as int) =~= name@);
    hash
}

fn hash_path(path: &SearchPath) -> (hash: u64)
    ensures
        hash == path_hash(path@),
{
    let mut hash: u64 = 0;
    let mut i: usize = 0;
    assert(path@.take(0) =~= Seq::<PartKey>::empty());
    while i < path.parts.len()
        invariant
            i <= path.parts@.len(),
            hash < HASH_MODULUS,
            hash == path_hash(path@.take(i as int)),
        decreases path.parts@.len() - i,
    {
        let part = &path.parts[i];
        proof {
            assert(path@.take(i + 1).drop_last() =~= path@.take(i as int));
            assert(path@.take(i + 1).last() == part@);
        }
        match part {
            PathPart::Prefix(name) => {
                hash = hash_name(mix_step(hash, 256), name);
            },
            PathPart::RootDir => {
                hash = mix_step(hash, 257);
            },
            PathPart::CurDir => {
                hash = mix_step(hash, 258);
            },
            PathPart::ParentDir => {
                hash = mix_step(hash, 259);
            },
            PathPart::Normal(name) => {
                hash = hash_name(mix_step(hash, 260), name);
            },
        }
        i += 1;
    }
    assert(path@.take(i as int) =~= path@);
    hash
}

/// No path stands twice in the bucket.
spec fn distinct_slots(bucket: Seq<PathSlot>) -> bool {
    forall|i: int, j: int|
        0 <= i < j < bucket.len() ==> (#[trigger] bucket[i]).path@ != (#[trigger] bucket[j]).path@
}

spec fn slot_of(bucket: Seq<PathSlot>, path: PathKey) -> int {
    choose|i: int| 0 <= i < bucket.len() && (#[trigger] bucket[i]).path@ == path
}

spec fn in_bucket(bucket: Seq<PathSlot>, path: PathKey) -> bool {
    exists|i: int| 0 <= i < bucket.len() && (#[trigger] bucket[i]).path@ == path
}

impl View for PathTable {
    type V = Map<PathKey, u32>;

    closed spec fn view(&self) -> Map<PathKey, u32> {
        self.contents@
    }
}

impl PathTable {
    pub closed spec fn well_formed(&self) -> bool {
        &&& self.contents@.dom().finite()
        &&& self.len == self.contents@.len()
        &&& forall|h: u64| #[trigger]
            self.buckets@.contains_key(h) ==> distinct_slots(self.buckets@[h]@)
        &&& forall|h: u64, i: int|
            #![trigger self.buckets@[h]@[i]]
            self.buckets@.contains_key(h) && 0 <= i < self.buckets@[h]@.len() ==> {
                let slot = self.buckets@[h]@[i];
                &&& path_hash(slot.path@) == h
                &&& self.contents@.contains_key(slot.path@)
                &&& self.contents@[slot.path@] == slot.id
            }
        &&& forall|p: PathKey| #[trigger]
            self.contents@.contains_key(p) ==> {
                let h = path_hash(p) as u64;
                &&& h == path_hash(p)
                &&& self.buckets@.contains_key(h)
                &&& in_bucket(self.buckets@[h]@, p)
            }
    }

    pub fn new() -> (table: PathTable)
        ensures
            table.well_formed(),
            table@ == Map::<PathKey, u32>::empty(),
    {
        PathTable { buckets: HashMap::new(), len: 0, contents: Ghost(Map::empty()) }
    }

    pub proof fn lemma_finite(&self)
        requires
            self.well_formed(),
        ensures
            self@.dom().finite(),
    {
    }

    pub fn len(&self) -> (len: usize)
        requires
            self.well_formed(),
        ensures
            len == self@.len(),
    {
        self.len
    }

    /// A table with the same contents.
    pub fn duplicate(&self) -> (copy: PathTable)
        requires
            self.well_formed(),
        ensures
            copy.well_formed(),
            copy@ == self@,
    {
        PathTable {
            buckets: self.buckets.clone(),
            len: self.len,
            contents: Ghost(self.contents@),
        }
    }

    fn find_slot(bucket: &Vec<PathSlot>, path: &SearchPath) -> (found: Option<usize>)
        ensures
            match found {
                Some(i) => i < bucket@.len() && bucket@[i as int].path@ == path@,
                None => !in_bucket(bucket@, path@),
            },
    {
        let mut i: usize = 0;
        while i < bucket.len()
            invariant
                i <= bucket@.len(),
                forall|k: int| 0 <= k < i ==> (#[trigger] bucket@[k]).path@ != path@,
            decreases bucket@.len() - i,
        {
            if bucket[i].path.same_as(path) {
                return Some(i);
            }
            i += 1;
        }
        None
    }

    pub fn get(&self, path: &SearchPath) -> (id: Option<u32>)
        requires
            self.well_formed(),
        ensures
            match id {
                Some(id) => self@.contains_key(path@) && self@[path@] == id,
                None => !self@.contains_key(path@),
            },
    {
        broadcast use vstd::std_specs::hash::group_hash_axioms;

        let hash: u64 = hash_path(path);
        match self.buckets.get(&hash) {
            Some(bucket) => {
                match PathTable::find_slot(bucket, path) {
                    Some(i) => {
                        assert(self.buckets@[hash]@[i as int].path@ == path@);
                        Some(bucket[i].id)
                    },
                    None => None,
                }
            },
            None => None,
        }
    }

    pub fn insert(&mut self, path: SearchPath, id: u32)
        requires
            old(self).well_formed(),
            old(self)@.len() < usize::MAX,
        ensures
            final(self).well_formed(),
            final(self)@ == old(self)@.insert(path@, id),
    {
        broadcast use vstd::std_specs::hash::group_hash_axioms;

        let hash: u64 = hash_path(&path);
        let ghost key = path@;
        let ghost before = *self;
        let mut bucket: Vec<PathSlot> = match self.buckets.remove(&hash) {
            Some(bucket) => bucket,
            None => Vec::new(),
        };
        let ghost old_bucket = bucket@;
        proof {
            if before.buckets@.contains_key(hash) {
                assert(old_bucket == before.buckets@[hash]@);
                assert(distinct_slots(before.buckets@[hash]@));
            }
            assert forall|i: int| 0 <= i < old_bucket.len() implies {
                let slot = #[trigger] old_bucket[i];
                &&& path_hash(slot.path@) == hash
                &&& before.contents@.contains_key(slot.path@)
                &&& before.contents@[slot.path@] == slot.id
            } by {
                assert(before.buckets@[hash]@[i] == old_bucket[i]);
            }
            assert(before.contents@.contains_key(key) <==> in_bucket(old_bucket, key)) by {
                if in_bucket(old_bucket, key) {
                    assert(old_bucket[slot_of(old_bucket, key)].path@ == key);
                }
            }
        }
        match PathTable::find_slot(&bucket, &path) {
            Some(i) => {
                assert(in_bucket(old_bucket, key)) by {
                    assert(old_bucket[i as int].path@ == key);
                }
                bucket[i] = PathSlot { path, id };
                assert(bucket@[i as int].path@ == key);
            },
            None => {
                bucket.push(PathSlot { path, id });
                self.len = self.len + 1;
                assert(bucket@[old_bucket.len() as int].path@ == key);
                assert forall|i: int| 0 <= i < old_bucket.len() implies bucket@[i]
                    == #[trigger] old_bucket[i] by {}
            },
        }
        let ghost new_bucket = bucket@;
        self.buckets.insert(hash, bucket);
        self.contents = Ghost(before.contents@.insert(key, id));
        proof {
            assert(distinct_slots(new_bucket)) by {
                assert forall|i: int, j: int| 0 <= i < j < new_bucket.len() implies (
                #[trigger] new_bucket[i]).path@ != (#[trigger] new_bucket[j]).path@ by {
                    if j < old_bucket.len() {
                        assert(old_bucket[i].path@ != old_bucket[j].path@);
                        assert(new_bucket[i].path@ == old_bucket[i].path@);
                        assert(new_bucket[j].path@ == old_bucket[j].path@);
                    } else {
                        assert(new_bucket[i] == old_bucket[i]);
                    }
                }
            }
            assert forall|h: u64, i: int|
                #![trigger self.buckets@[h]@[i]]
                self.buckets@.contains_key(h) && 0 <= i < self.buckets@[h]@.len() implies {
                let slot = self.buckets@[h]@[i];
                &&& path_hash(slot.path@) == h
                &&& self.contents@.contains_key(slot.path@)
                &&& self.contents@[slot.path@] == slot.id
            } by {
                if h == hash {
                    assert(self.buckets@[h]@[i] == new_bucket[i]);
                    if i < old_bucket.len() {
                        assert(path_hash(old_bucket[i].path@) == hash);
                        if new_bucket[i].path@ == key {
                        } else {
                            assert(new_bucket[i] == old_bucket[i]);
                        }
                    }
                } else {
                    assert(before.buckets@.contains_key(h));
                    assert(self.buckets@[h] == before.buckets@[h]);
                    assert(before.buckets@[h]@[i] == self.buckets@[h]@[i]);
                    assert(path_hash(before.buckets@[h]@[i].path@) == h);
                }
            }
            assert forall|p: PathKey| #[trigger] self.contents@.contains_key(p) implies {
                let h = path_hash(p) as u64;
                &&& h == path_hash(p)
                &&& self.buckets@.contains_key(h)
                &&& in_bucket(self.buckets@[h]@, p)
            } by {
                let h = path_hash(p) as u64;
                if p == key {
                    let i = choose|i: int|
                        0 <= i < new_bucket.len() && (#[trigger] new_bucket[i]).path@ == key;
                    assert(self.buckets@[h]@[i].path@ == p);
                } else {
                    assert(before.contents@.contains_key(p));
                    if h == hash {
                        let i = slot_of(old_bucket, p);
                        assert(in_bucket(before.buckets@[h]@, p));
                        assert(old_bucket[i].path@ == p);
                        assert(new_bucket[i] == old_bucket[i]);
                        assert(self.buckets@[h]@[i].path@ == p);
                    } else {
                        assert(in_bucket(before.buckets@[h]@, p));
                    }
                }
            }
            assert forall|h: u64| #[trigger] self.buckets@.contains_key(h) implies distinct_slots(
                self.buckets@[h]@,
            ) by {
                if h != hash {
                    assert(before.buckets@.contains_key(h));
                }
            }
            if before.contents@.contains_key(key) {
                assert(self.contents@.dom() =~= before.contents@.dom());
            }
        }
    }

    pub fn remove(&mut self, path: &SearchPath) -> (id: Option<u32>)
        requires
            old(self).well_formed(),
        ensures
            final(self).well_formed(),
            final(self)@ == old(self)@.remove(path@),
            match id {
                Some(id) => old(self)@.contains_key(path@) && old(self)@[path@] == id,
                None => !old(self)@.contains_key(path@),
            },
    {
        broadcast use vstd::std_specs::hash::group_hash_axioms;

        let hash: u64 = hash_path(path);
        let ghost key = path@;
        let ghost before = *self;
        let mut bucket: Vec<PathSlot> = match self.buckets.remove(&hash) {
            Some(bucket) => bucket,
            None => {
                assert(self.buckets@ =~= before.buckets@);
                assert(before.contents@.remove(key) =~= before.contents@);
                return None;
            },
        };
        let ghost old_bucket = bucket@;
        proof {
            assert(old_bucket == before.buckets@[hash]@);
            assert(distinct_slots(old_bucket));
            assert forall|i: int| 0 <= i < old_bucket.len() implies {
                let slot = #[trigger] old_bucket[i];
                &&& path_hash(slot.path@) == hash
                &&& before.contents@.contains_key(slot.path@)
                &&& before.contents@[slot.path@] == slot.id
            } by {
                assert(before.buckets@[hash]@[i] == old_bucket[i]);
            }
        }
        match PathTable::find_slot(&bucket, path) {
            Some(i) => {
                let removed = bucket.remove(i);
                let ghost new_bucket = bucket@;
                self.buckets.insert(hash, bucket);
                self.contents = Ghost(before.contents@.remove(key));
                self.len = self.len - 1;
                proof {
                    assert(new_bucket == old_bucket.remove(i as int));
                    assert(old_bucket[i as int].path@ == key);
                    assert forall|k: int| 0 <= k < new_bucket.len() implies (
                    #[trigger] new_bucket[k]) == old_bucket[if k < i {
                        k
                    } else {
                        k + 1
                    }] && new_bucket[k].path@ != key by {}
                    assert(distinct_slots(new_bucket));
                    assert forall|h: u64, k: int|
                        #![trigger self.buckets@[h]@[k]]
                        self.buckets@.contains_key(h) && 0 <= k < self.buckets@[h]@.len() implies {
                        let slot = self.buckets@[h]@[k];
                        &&& path_hash(slot.path@) == h
                        &&& self.contents@.contains_key(slot.path@)
                        &&& self.contents@[slot.path@] == slot.id
                    } by {
                        if h == hash {
                            assert(self.buckets@[h]@[k] == new_bucket[k]);
                        } else {
                            assert(before.buckets@.contains_key(h));
                            assert(before.buckets@[h]@[k] == self.buckets@[h]@[k]);
                            assert(path_hash(before.buckets@[h]@[k].path@) == h);
                        }
                    }
                    assert forall|p: PathKey| #[trigger] self.contents@.contains_key(p) implies {
                        let h = path_hash(p) as u64;
                        &&& h == path_hash(p)
                        &&& self.buckets@.contains_key(h)
                        &&& in_bucket(self.buckets@[h]@, p)
                    } by {
                        let h = path_hash(p) as u64;
                        assert(before.contents@.contains_key(p));
                        assert(in_bucket(before.buckets@[h]@, p));
                        if h == hash {
                            let k = slot_of(old_bucket, p);
                            assert(old_bucket[k].path@ == p);
                            let m = if k < i {
                                k
                            } else {
                                k - 1
                            };
                            assert(new_bucket[m] == old_bucket[k]);
                            assert(self.buckets@[h]@[m].path@ == p);
                        }
                    }
                    assert forall|h: u64| #[trigger]
                        self.buckets@.contains_key(h) implies distinct_slots(
                        self.buckets@[h]@,
                    ) by {
                        if h != hash {
                            assert(before.buckets@.contains_key(h));
                        }
                    }
                }
                Some(removed.id)
            },
            None => {
                self.buckets.insert(hash, bucket);
                proof {
                    assert(!in_bucket(old_bucket, key));
                    assert(!before.contents@.contains_key(key));
                    assert(before.contents@.remove(key) =~= before.contents@);
                    assert(self.buckets@ =~= before.buckets@);
                }
                None
            },
        }
    }
}

/// A table that leads to no file twice and to ids below `count` only has at most `count` paths.
pub proof fn lemma_table_size(ids: Map<PathKey, u32>, count: nat)
    requires
        ids.dom().finite(),
        forall|path: PathKey| #[trigger] ids.contains_key(path) ==> ids[path] < count,
        forall|p: PathKey, q: PathKey|
            #![trigger ids[p], ids[q]]
            ids.contains_key(p) && ids.contains_key(q) && ids[p] == ids[q] ==> p == q,
    ensures
        ids.len() <= count,
    decreases count,
{
    if count == 0 {
        assert forall|path: PathKey| !ids.dom().contains(path) by {
            assert(!ids.contains_key(path));
        }
        assert(ids.dom() =~= Set::empty());
    } else {
        let top = (count - 1) as nat;
        if exists|path: PathKey| #[trigger] ids.contains_key(path) && ids[path] == top {
            let path = choose|path: PathKey| #[trigger]
                ids.contains_key(path) && ids[path] == top;
            let rest = ids.remove(path);
            assert forall|p: PathKey| #[trigger] rest.contains_key(p) implies rest[p] < top by {
                assert(ids.contains_key(p));
                assert(ids[p] == rest[p]);
                assert(ids[p] != ids[path]);
            }
            assert forall|p: PathKey, q: PathKey|
                #![trigger rest[p], rest[q]]
                rest.contains_key(p) && rest.contains_key(q) && rest[p] == rest[q] implies p
                == q by {
                assert(ids[p] == rest[p] && ids[q] == rest[q]);
            }
            lemma_table_size(rest, top);
        } else {
            assert forall|p: PathKey| #[trigger] ids.contains_key(p) implies ids[p] < top by {}
            lemma_table_size(ids, top);
        }
    }
}

} // verus!
