//! Paths as sequences of components, and the lexical rules on them.

use crate::order::TotalOrder;
use vstd::prelude::*;

verus! {

/// One component of a path. Names are the bytes of the platform's string.
#[derive(Clone, Debug)]
pub enum PathPart {
    Prefix(Vec<u8>),
    RootDir,
    CurDir,
    ParentDir,
    Normal(Vec<u8>),
}

/// A path, component by component. Equality and order are those of the components.
#[derive(Clone, Debug)]
pub struct SearchPath {
    pub parts: Vec<PathPart>,
}

/// The mathematical counterpart of a `PathPart`.
pub enum PartKey {
    Prefix(Seq<u8>),
    RootDir,
    CurDir,
    ParentDir,
    Normal(Seq<u8>),
}

/// The mathematical counterpart of a `SearchPath`.
pub type PathKey = Seq<PartKey>;

impl View for PathPart {
    type V = PartKey;

    open spec fn view(&self) -> PartKey {
        match self {
            PathPart::Prefix(name) => PartKey::Prefix(name@),
            PathPart::RootDir => PartKey::RootDir,
            PathPart::CurDir => PartKey::CurDir,
            PathPart::ParentDir => PartKey::ParentDir,
            PathPart::Normal(name) => PartKey::Normal(name@),
        }
    }
}

impl View for SearchPath {
    type V = Seq<PartKey>;

    open spec fn view(&self) -> Seq<PartKey> {
        self.parts@.map_values(|part: PathPart| part@)
    }
}

// ---------------------------------------------------------------------------------------------
// Lexicographic order
// ---------------------------------------------------------------------------------------------

/// `a` comes strictly before `b` in the lexicographic order over `less`.
pub open spec fn lex_less<T>(a: Seq<T>, b: Seq<T>, less: spec_fn(T, T) -> bool) -> bool
    decreases a.len(),
{
    if b.len() == 0 {
        false
    } else if a.len() == 0 {
        true
    } else {
        less(a[0], b[0]) || (a[0] == b[0] && lex_less(a.skip(1), b.skip(1), less))
    }
}

/// `less` is a strict total order.
pub open spec fn strict_total_order<T>(less: spec_fn(T, T) -> bool) -> bool {
    &&& forall|x: T| !#[trigger] less(x, x)
    &&& forall|x: T, y: T| #[trigger] less(x, y) || x == y || less(y, x)
    &&& forall|x: T, y: T, z: T| #[trigger] less(x, y) && #[trigger] less(y, z) ==> less(x, z)
}

proof fn lemma_lex_irreflexive<T>(a: Seq<T>, less: spec_fn(T, T) -> bool)
    requires
        strict_total_order(less),
    ensures
        !lex_less(a, a, less),
    decreases a.len(),
{
    if a.len() > 0 {
        lemma_lex_irreflexive(a.skip(1), less);
    }
}

proof fn lemma_lex_trichotomy<T>(a: Seq<T>, b: Seq<T>, less: spec_fn(T, T) -> bool)
    requires
        strict_total_order(less),
    ensures
        lex_less(a, b, less) || a == b || lex_less(b, a, less),
    decreases a.len(),
{
    if a.len() > 0 && b.len() > 0 {
        lemma_lex_trichotomy(a.skip(1), b.skip(1), less);
        assert(less(a[0], b[0]) || a[0] == b[0] || less(b[0], a[0]));
        if a[0] == b[0] && a.skip(1) == b.skip(1) {
            assert(a =~= seq![a[0]] + a.skip(1));
            assert(b =~= seq![b[0]] + b.skip(1));
        }
    } else if a.len() == 0 && b.len() == 0 {
        assert(a =~= b);
    }
}

proof fn lemma_lex_transitive<T>(
    a: Seq<T>,
    b: Seq<T>,
    c: Seq<T>,
    less: spec_fn(T, T) -> bool,
)
    requires
        strict_total_order(less),
        lex_less(a, b, less),
        lex_less(b, c, less),
    ensures
        lex_less(a, c, less),
    decreases a.len(),
{
    if a.len() > 0 {
        if a[0] == b[0] && b[0] == c[0] && lex_less(a.skip(1), b.skip(1), less) && lex_less(
            b.skip(1),
            c.skip(1),
            less,
        ) {
            lemma_lex_transitive(a.skip(1), b.skip(1), c.skip(1), less);
        }
    }
}

/// The lexicographic order over a strict total order is one itself.
pub proof fn lemma_lex_order<T>(less: spec_fn(T, T) -> bool)
    requires
        strict_total_order(less),
    ensures
        strict_total_order(|a: Seq<T>, b: Seq<T>| lex_less(a, b, less)),
{
    let lex = |a: Seq<T>, b: Seq<T>| lex_less(a, b, less);
    assert forall|a: Seq<T>| !#[trigger] lex(a, a) by {
        lemma_lex_irreflexive(a, less);
    }
    assert forall|a: Seq<T>, b: Seq<T>| #[trigger] lex(a, b) || a == b || lex(b, a) by {
        lemma_lex_trichotomy(a, b, less);
    }
    assert forall|a: Seq<T>, b: Seq<T>, c: Seq<T>| #[trigger]
        lex(a, b) && #[trigger] lex(b, c) implies lex(a, c) by {
        lemma_lex_transitive(a, b, c, less);
    }
}

/// Byte strings in lexicographic order.
pub open spec fn bytes_less(a: Seq<u8>, b: Seq<u8>) -> bool {
    lex_less(a, b, |x: u8, y: u8| x < y)
}

/// Prefixes come first, then the root, `.`, `..` and names; names by their bytes.
pub open spec fn part_rank(part: PartKey) -> int {
    match part {
        PartKey::Prefix(_) => 0,
        PartKey::RootDir => 1,
        PartKey::CurDir => 2,
        PartKey::ParentDir => 3,
        PartKey::Normal(_) => 4,
    }
}

pub open spec fn part_name(part: PartKey) -> Seq<u8> {
    match part {
        PartKey::Prefix(name) => name,
        PartKey::Normal(name) => name,
        _ => Seq::empty(),
    }
}

pub open spec fn part_less(a: PartKey, b: PartKey) -> bool {
    part_rank(a) < part_rank(b) || (part_rank(a) == part_rank(b) && bytes_less(
        part_name(a),
        part_name(b),
    ))
}

/// Paths in the order of their components.
pub open spec fn path_less(a: PathKey, b: PathKey) -> bool {
    lex_less(a, b, |x: PartKey, y: PartKey| part_less(x, y))
}

pub proof fn lemma_bytes_order()
    ensures
        strict_total_order(|a: Seq<u8>, b: Seq<u8>| bytes_less(a, b)),
{
    let less = |x: u8, y: u8| x < y;
    lemma_lex_order(less);
    assert((|a: Seq<u8>, b: Seq<u8>| bytes_less(a, b)) =~= (|a: Seq<u8>, b: Seq<u8>|
        lex_less(a, b, less)));
}

proof fn lemma_part_order()
    ensures
        strict_total_order(|a: PartKey, b: PartKey| part_less(a, b)),
{
    lemma_bytes_order();
    let less = |a: PartKey, b: PartKey| part_less(a, b);
    let names = |a: Seq<u8>, b: Seq<u8>| bytes_less(a, b);
    assert forall|x: PartKey| !#[trigger] less(x, x) by {
        assert(!names(part_name(x), part_name(x)));
    }
    assert forall|x: PartKey, y: PartKey| #[trigger] less(x, y) || x == y || less(y, x) by {
        assert(names(part_name(x), part_name(y)) || part_name(x) == part_name(y) || names(
            part_name(y),
            part_name(x),
        ));
    }
    assert forall|x: PartKey, y: PartKey, z: PartKey| #[trigger]
        less(x, y) && #[trigger] less(y, z) implies less(x, z) by {
        if part_rank(x) == part_rank(y) && part_rank(y) == part_rank(z) {
            assert(names(part_name(x), part_name(y)));
            assert(names(part_name(y), part_name(z)));
        }
    }
}

/// The order of paths is a strict total order.
pub proof fn lemma_path_order()
    ensures
        strict_total_order(|a: PathKey, b: PathKey| path_less(a, b)),
{
    lemma_part_order();
    let less = |x: PartKey, y: PartKey| part_less(x, y);
    lemma_lex_order(less);
    assert((|a: PathKey, b: PathKey| path_less(a, b)) =~= (|a: PathKey, b: PathKey|
        lex_less(a, b, less)));
}

/// How one value stands to another.
#[derive(Clone, Copy, Debug, PartialEq, Eq, Structural)]
pub enum Relation {
    Before,
    Same,
    After,
}

pub fn relate_bytes(a: &[u8], b: &[u8]) -> (relation: Relation)
    ensures
        relation == Relation::Before <==> bytes_less(a@, b@),
        relation == Relation::Same <==> a@ == b@,
        relation == Relation::After <==> bytes_less(b@, a@),
{
    let ghost less = |x: u8, y: u8| x < y;
    let mut i: usize = 0;
    proof {
        lemma_bytes_order();
        assert(a@.skip(0) =~= a@);
        assert(b@.skip(0) =~= b@);
    }
    while i < a.len() && i < b.len() && a[i] == b[i]
        invariant
            less == (|x: u8, y: u8| x < y),
            i <= a@.len(),
            i <= b@.len(),
            a@.take(i as int) == b@.take(i as int),
            bytes_less(a@, b@) == lex_less(a@.skip(i as int), b@.skip(i as int), less),
            bytes_less(b@, a@) == lex_less(b@.skip(i as int), a@.skip(i as int), less),
        decreases a@.len() - i,
    {
        proof {
            let (s, t) = (a@.skip(i as int), b@.skip(i as int));
            assert(s.skip(1) =~= a@.skip(i + 1));
            assert(t.skip(1) =~= b@.skip(i + 1));
            assert(a@.take(i + 1) =~= a@.take(i as int).push(a@[i as int]));
            assert(b@.take(i + 1) =~= b@.take(i as int).push(b@[i as int]));
        }
        i += 1;
    }
    let ghost names = |x: Seq<u8>, y: Seq<u8>| bytes_less(x, y);
    proof {
        assert(!names(a@, a@));
        assert(names(a@, b@) && names(b@, a@) ==> names(a@, a@));
    }
    if i == a.len() {
        if i == b.len() {
            assert(a@ =~= a@.take(i as int));
            assert(b@ =~= b@.take(i as int));
            Relation::Same
        } else {
            Relation::Before
        }
    } else if i == b.len() {
        Relation::After
    } else if a[i] < b[i] {
        Relation::Before
    } else {
        assert(a@[i as int] != b@[i as int]);
        Relation::After
    }
}

impl PathPart {
    pub fn same_as(&self, other: &PathPart) -> (same: bool)
        ensures
            same == (self@ == other@),
    {
        self.relate(other) == Relation::Same
    }

    pub fn relate(&self, other: &PathPart) -> (relation: Relation)
        ensures
            relation == Relation::Before <==> part_less(self@, other@),
            relation == Relation::Same <==> self@ == other@,
            relation == Relation::After <==> part_less(other@, self@),
    {
        let left: u8 = self.rank();
        let right: u8 = other.rank();
        if left < right {
            return Relation::Before;
        }
        if right < left {
            return Relation::After;
        }
        proof {
            lemma_bytes_order();
            let names = |a: Seq<u8>, b: Seq<u8>| bytes_less(a, b);
            assert(!names(part_name(self@), part_name(self@)));
        }
        match (self, other) {
            (PathPart::Prefix(a), PathPart::Prefix(b)) => relate_bytes(a.as_slice(), b.as_slice()),
            (PathPart::Normal(a), PathPart::Normal(b)) => relate_bytes(a.as_slice(), b.as_slice()),
            _ => Relation::Same,
        }
    }

    fn rank(&self) -> (rank: u8)
        ensures
            rank == part_rank(self@),
    {
        match self {
            PathPart::Prefix(_) => 0,
            PathPart::RootDir => 1,
            PathPart::CurDir => 2,
            PathPart::ParentDir => 3,
            PathPart::Normal(_) => 4,
        }
    }

    pub fn duplicate(&self) -> (copy: PathPart)
        ensures
            copy@ == self@,
    {
        match self {
            PathPart::Prefix(name) => PathPart::Prefix(copy_bytes(name)),
            PathPart::RootDir => PathPart::RootDir,
            PathPart::CurDir => PathPart::CurDir,
            PathPart::ParentDir => PathPart::ParentDir,
            PathPart::Normal(name) => PathPart::Normal(copy_bytes(name)),
        }
    }
}

pub fn copy_bytes(bytes: &Vec<u8>) -> (copy: Vec<u8>)
    ensures
        copy@ == bytes@,
{
    let copy = bytes.clone();
    assert(copy@ =~= bytes@);
    copy
}

// ---------------------------------------------------------------------------------------------
// Lexical operations
// ---------------------------------------------------------------------------------------------

/// The last component can be taken off: it is a name, `.` or `..`.
pub open spec fn can_pop(parts: PathKey) -> bool {
    parts.len() > 0 && !(parts.last() is RootDir) && !(parts.last() is Prefix)
}

/// One more component on a normalized path. `..` takes the last component off, if there is one
/// that can be; `.` changes nothing.
pub open spec fn normal_push(parts: PathKey, part: PartKey) -> PathKey {
    match part {
        PartKey::ParentDir => if can_pop(parts) {
            parts.drop_last()
        } else {
            parts.push(part)
        },
        PartKey::CurDir => parts,
        _ => parts.push(part),
    }
}

/// The path with `.` left out and `..` resolved lexically.
pub open spec fn normalized(parts: PathKey) -> PathKey
    decreases parts.len(),
{
    if parts.len() == 0 {
        parts
    } else {
        normal_push(normalized(parts.drop_last()), parts.last())
    }
}

pub open spec fn starts_with_path(path: PathKey, base: PathKey) -> bool {
    base.len() <= path.len() && path.take(base.len() as int) == base
}

/// `path` lies in the tree at `search_root`, lexically.
pub open spec fn within_root(search_root: PathKey, path: PathKey) -> bool {
    starts_with_path(normalized(path), normalized(search_root))
}

pub open spec fn absolute(path: PathKey) -> bool {
    path.len() > 0 && (path[0] is RootDir || (path[0] is Prefix && path.len() > 1
        && path[1] is RootDir))
}

/// `other` as seen from `base`.
pub open spec fn joined(base: PathKey, other: PathKey) -> PathKey {
    if absolute(other) {
        other
    } else {
        base + other
    }
}

/// What is left of `path` under `root`; a path elsewhere is kept whole.
pub open spec fn relative_to(root: PathKey, path: PathKey) -> PathKey {
    if starts_with_path(path, root) {
        path.skip(root.len() as int)
    } else {
        path
    }
}

/// No component leads outside.
pub open spec fn confined(parts: PathKey) -> bool {
    forall|i: int|
        0 <= i < parts.len() ==> #[trigger] parts[i] is Normal || parts[i] is CurDir
}

/// The components that are names.
pub open spec fn names_only(parts: PathKey) -> PathKey
    decreases parts.len(),
{
    if parts.len() == 0 {
        parts
    } else if parts.last() is Normal {
        names_only(parts.drop_last()).push(parts.last())
    } else {
        names_only(parts.drop_last())
    }
}

/// The relative path that a cache may hold for `path`.
pub open spec fn cached_relative(path: PathKey) -> Option<PathKey> {
    if confined(path) && names_only(path).len() > 0 {
        Some(names_only(path))
    } else {
        None
    }
}

impl SearchPath {
    pub fn new() -> (path: SearchPath)
        ensures
            path@ == Seq::<PartKey>::empty(),
    {
        let path = SearchPath { parts: Vec::new() };
        assert(path@ =~= Seq::<PartKey>::empty());
        path
    }

    pub fn is_empty(&self) -> (empty: bool)
        ensures
            empty == (self@.len() == 0),
    {
        self.parts.len() == 0
    }

    fn push_part(&mut self, part: PathPart)
        ensures
            final(self)@ == old(self)@.push(part@),
    {
        self.parts.push(part);
        assert(self@ =~= old(self)@.push(part@));
    }

    pub fn duplicate(&self) -> (copy: SearchPath)
        ensures
            copy@ == self@,
    {
        let mut copy = SearchPath::new();
        let mut i: usize = 0;
        while i < self.parts.len()
            invariant
                i <= self.parts@.len(),
                copy@ == self@.take(i as int),
            decreases self.parts@.len() - i,
        {
            copy.push_part(self.parts[i].duplicate());
            i += 1;
            assert(copy@ =~= self@.take(i as int));
        }
        assert(self@.take(i as int) =~= self@);
        copy
    }

    pub fn same_as(&self, other: &SearchPath) -> (same: bool)
        ensures
            same == (self@ == other@),
    {
        assert(self@.take(self@.len() as int) =~= self@);
        self.parts.len() == other.parts.len() && self.starts_with(other)
    }

    pub fn relate(&self, other: &SearchPath) -> (relation: Relation)
        ensures
            relation == Relation::Before <==> path_less(self@, other@),
            relation == Relation::Same <==> self@ == other@,
            relation == Relation::After <==> path_less(other@, self@),
    {
        let ghost less = |x: PartKey, y: PartKey| part_less(x, y);
        let ghost paths = |x: PathKey, y: PathKey| path_less(x, y);
        let (a, b) = (&self.parts, &other.parts);
        let mut i: usize = 0;
        proof {
            lemma_part_order();
            lemma_path_order();
            assert(!paths(self@, self@));
            assert(paths(self@, other@) && paths(other@, self@) ==> paths(self@, self@));
            assert(self@.skip(0) =~= self@);
            assert(other@.skip(0) =~= other@);
        }
        while i < a.len() && i < b.len()
            invariant
                less == (|x: PartKey, y: PartKey| part_less(x, y)),
                paths == (|x: PathKey, y: PathKey| path_less(x, y)),
                strict_total_order(less),
                strict_total_order(paths),
                !paths(self@, self@),
                paths(self@, other@) && paths(other@, self@) ==> paths(self@, self@),
                a == &self.parts,
                b == &other.parts,
                i <= a@.len(),
                i <= b@.len(),
                self@.take(i as int) == other@.take(i as int),
                path_less(self@, other@) == lex_less(
                    self@.skip(i as int),
                    other@.skip(i as int),
                    less,
                ),
                path_less(other@, self@) == lex_less(
                    other@.skip(i as int),
                    self@.skip(i as int),
                    less,
                ),
            decreases a@.len() - i,
        {
            proof {
                let (s, t) = (self@.skip(i as int), other@.skip(i as int));
                assert(s[0] == a@[i as int]@ && t[0] == b@[i as int]@);
                assert(s.skip(1) =~= self@.skip(i + 1));
                assert(t.skip(1) =~= other@.skip(i + 1));
                assert(self@.take(i + 1) =~= self@.take(i as int).push(self@[i as int]));
                assert(other@.take(i + 1) =~= other@.take(i as int).push(other@[i as int]));
                assert(less(s[0], t[0]) == part_less(s[0], t[0]));
                assert(less(t[0], s[0]) == part_less(t[0], s[0]));
                assert(!less(s[0], s[0]));
            }
            match a[i].relate(&b[i]) {
                Relation::Before => {
                    assert(paths(self@, other@));
                    return Relation::Before;
                },
                Relation::After => {
                    assert(paths(other@, self@));
                    return Relation::After;
                },
                Relation::Same => {},
            }
            i += 1;
        }
        if i < a.len() {
            Relation::After
        } else if i < b.len() {
            Relation::Before
        } else {
            assert(self@ =~= self@.take(i as int));
            assert(other@ =~= other@.take(i as int));
            Relation::Same
        }
    }

    /// `base` is a prefix of this path, component by component.
    pub fn starts_with(&self, base: &SearchPath) -> (result: bool)
        ensures
            result == starts_with_path(self@, base@),
    {
        if base.parts.len() > self.parts.len() {
            return false;
        }
        let mut i: usize = 0;
        while i < base.parts.len()
            invariant
                i <= base.parts@.len() <= self.parts@.len(),
                forall|k: int| 0 <= k < i ==> #[trigger] self@[k] == base@[k],
            decreases base.parts@.len() - i,
        {
            if !self.parts[i].same_as(&base.parts[i]) {
                assert(self@.take(base@.len() as int)[i as int] != base@[i as int]);
                return false;
            }
            i += 1;
        }
        assert(self@.take(base@.len() as int) =~= base@);
        true
    }

    /// The components after the first `count`.
    fn tail(&self, count: usize) -> (rest: SearchPath)
        requires
            count <= self@.len(),
        ensures
            rest@ == self@.skip(count as int),
    {
        let mut rest = SearchPath::new();
        let mut i: usize = count;
        while i < self.parts.len()
            invariant
                count <= i <= self.parts@.len(),
                rest@ == self@.subrange(count as int, i as int),
            decreases self.parts@.len() - i,
        {
            rest.push_part(self.parts[i].duplicate());
            i += 1;
            assert(rest@ =~= self@.subrange(count as int, i as int));
        }
        assert(rest@ =~= self@.skip(count as int));
        rest
    }

    /// What is left after `base`, where `base` is a prefix.
    pub fn strip_prefix(&self, base: &SearchPath) -> (rest: Option<SearchPath>)
        ensures
            match rest {
                Some(rest) => starts_with_path(self@, base@) && rest@ == self@.skip(
                    base@.len() as int,
                ),
                None => !starts_with_path(self@, base@),
            },
    {
        if self.starts_with(base) {
            Some(self.tail(base.parts.len()))
        } else {
            None
        }
    }

    pub fn is_absolute(&self) -> (result: bool)
        ensures
            result == absolute(self@),
    {
        if self.parts.len() == 0 {
            return false;
        }
        match &self.parts[0] {
            PathPart::RootDir => true,
            PathPart::Prefix(_) => self.parts.len() > 1 && matches!(
                self.parts[1],
                PathPart::RootDir
            ),
            _ => false,
        }
    }

    /// `other` as seen from this path: an absolute path stands for itself.
    pub fn join(&self, other: &SearchPath) -> (path: SearchPath)
        ensures
            path@ == joined(self@, other@),
    {
        if other.is_absolute() {
            return other.duplicate();
        }
        let mut path = self.duplicate();
        let mut i: usize = 0;
        while i < other.parts.len()
            invariant
                i <= other.parts@.len(),
                path@ == self@ + other@.take(i as int),
            decreases other.parts@.len() - i,
        {
            path.push_part(other.parts[i].duplicate());
            i += 1;
            assert(path@ =~= self@ + other@.take(i as int));
        }
        assert(other@.take(i as int) =~= other@);
        path
    }

    /// The last component, where it is a name.
    pub fn file_name(&self) -> (name: Option<PathPart>)
        ensures
            match name {
                Some(part) => self@.len() > 0 && self@.last() is Normal && part@ == self@.last(),
                None => self@.len() == 0 || !(self@.last() is Normal),
            },
    {
        if self.parts.len() == 0 {
            return None;
        }
        let last = &self.parts[self.parts.len() - 1];
        match last {
            PathPart::Normal(_) => Some(last.duplicate()),
            _ => None,
        }
    }

    /// The path without its last component, where that can be taken off.
    pub fn parent(&self) -> (parent: Option<SearchPath>)
        ensures
            match parent {
                Some(parent) => can_pop(self@) && parent@ == self@.drop_last(),
                None => !can_pop(self@),
            },
    {
        if self.parts.len() == 0 {
            return None;
        }
        match &self.parts[self.parts.len() - 1] {
            PathPart::RootDir => None,
            PathPart::Prefix(_) => None,
            _ => {
                let mut parent = self.duplicate();
                let ghost whole = parent.parts@;
                assert(parent@.len() == whole.len());
                parent.parts.pop();
                assert(parent@ =~= self@.drop_last()) by {
                    assert(parent.parts@ == whole.drop_last());
                    assert forall|i: int| 0 <= i < parent@.len() implies parent@[i] == self@[i] by {
                        assert(whole[i]@ == self@[i]);
                    }
                }
                Some(parent)
            },
        }
    }
}

impl TotalOrder for SearchPath {
    open spec fn at_most(&self, other: &Self) -> bool {
        !path_less(other@, self@)
    }

    proof fn lemma_total(a: &Self, b: &Self) {
        lemma_path_order();
        let paths = |x: PathKey, y: PathKey| path_less(x, y);
        assert(paths(a@, b@) && paths(b@, a@) ==> paths(a@, a@));
        assert(!paths(a@, a@));
    }

    proof fn lemma_transitive(a: &Self, b: &Self, c: &Self) {
        lemma_path_order();
        let paths = |x: PathKey, y: PathKey| path_less(x, y);
        if paths(c@, a@) {
            assert(paths(a@, b@) || a@ == b@);
            assert(paths(b@, c@) || b@ == c@);
            assert(paths(a@, b@) ==> paths(c@, b@));
            assert(!paths(c@, b@));
            assert(!paths(b@, a@));
        }
    }

    fn is_at_most(&self, other: &Self) -> (result: bool) {
        proof {
            lemma_path_order();
            let paths = |x: PathKey, y: PathKey| path_less(x, y);
            assert(paths(self@, other@) && paths(other@, self@) ==> paths(self@, self@));
            assert(!paths(self@, self@));
        }
        !matches!(self.relate(other), Relation::After)
    }
}

/// `.` left out and `..` resolved without looking at the disk.
pub fn normalize_path(path: &SearchPath) -> (result: SearchPath)
    ensures
        result@ == normalized(path@),
{
    let mut result = SearchPath::new();
    let mut i: usize = 0;
    assert(path@.take(0) =~= Seq::<PartKey>::empty());
    while i < path.parts.len()
        invariant
            i <= path.parts@.len(),
            result@ == normalized(path@.take(i as int)),
        decreases path.parts@.len() - i,
    {
        let part = &path.parts[i];
        proof {
            let next = path@.take(i + 1);
            assert(next.drop_last() =~= path@.take(i as int));
            assert(next.last() == part@);
        }
        match part {
            PathPart::ParentDir => {
                match result.parent() {
                    Some(parent) => {
                        result = parent;
                    },
                    None => {
                        result.push_part(PathPart::ParentDir);
                    },
                }
            },
            PathPart::CurDir => {},
            _ => {
                result.push_part(part.duplicate());
            },
        }
        i += 1;
    }
    assert(path@.take(i as int) =~= path@);
    result
}

pub fn is_within_search_root(search_root: &SearchPath, path: &SearchPath) -> (within: bool)
    ensures
        within == within_root(search_root@, path@),
{
    normalize_path(path).starts_with(&normalize_path(search_root))
}

pub fn relative_to_root(root: &SearchPath, path: &SearchPath) -> (relative: SearchPath)
    ensures
        relative@ == relative_to(root@, path@),
{
    match path.strip_prefix(root) {
        Some(relative) => relative,
        None => path.duplicate(),
    }
}

/// The names of a relative path that stays inside its root, or nothing.
pub fn validate_cached_relative_path(path: &SearchPath) -> (relative: Option<SearchPath>)
    ensures
        match relative {
            Some(relative) => cached_relative(path@) == Some(relative@),
            None => cached_relative(path@) is None,
        },
{
    let mut names = SearchPath::new();
    let mut i: usize = 0;
    assert(path@.take(0) =~= Seq::<PartKey>::empty());
    while i < path.parts.len()
        invariant
            i <= path.parts@.len(),
            names@ == names_only(path@.take(i as int)),
            forall|k: int| 0 <= k < i ==> #[trigger] path@[k] is Normal || path@[k] is CurDir,
        decreases path.parts@.len() - i,
    {
        let part = &path.parts[i];
        proof {
            let next = path@.take(i + 1);
            assert(next.drop_last() =~= path@.take(i as int));
            assert(next.last() == part@);
            assert(path@[i as int] == part@);
        }
        match part {
            PathPart::Normal(_) => {
                names.push_part(part.duplicate());
            },
            PathPart::CurDir => {},
            _ => {
                return None;
            },
        }
        i += 1;
    }
    assert(path@.take(i as int) =~= path@);
    if names.is_empty() {
        None
    } else {
        Some(names)
    }
}

/// The form under which a cache names `path`.
pub fn cache_relative_path(root: &SearchPath, path: &SearchPath) -> (relative: Option<SearchPath>)
    ensures
        match relative {
            Some(relative) => starts_with_path(normalized(path@), normalized(root@))
                && cached_relative(normalized(path@).skip(normalized(root@).len() as int)) == Some(
                relative@,
            ),
            None => !starts_with_path(normalized(path@), normalized(root@)) || cached_relative(
                normalized(path@).skip(normalized(root@).len() as int),
            ) is None,
        },
{
    match normalize_path(path).strip_prefix(&normalize_path(root)) {
        Some(relative) => validate_cached_relative_path(&relative),
        None => None,
    }
}

} // verus!
